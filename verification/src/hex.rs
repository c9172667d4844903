//! Lowercase hexadecimal text for raw digest bytes, and back.

use vstd::prelude::*;
use vstd::string::StringExecFns;

verus! {

/// The ASCII code of the lowercase hexadecimal digit for a value below 16:
/// `'0'..='9'`, then `'a'..='f'`.
pub open spec fn hex_digit(n: int) -> u8 {
    if n < 10 {
        ('0' as u8 + n) as u8
    } else {
        ('a' as u8 + n - 10) as u8
    }
}

/// The text of `data`: two digits per byte, the high half first.
pub open spec fn hex_text(data: Seq<u8>) -> Seq<u8> {
    Seq::new(
        2 * data.len(),
        |i: int|
            if i % 2 == 0 {
                hex_digit(data[i / 2] as int / 16)
            } else {
                hex_digit(data[i / 2] as int % 16)
            },
    )
}

/// Whether `c` is one of `0123456789abcdef`.
pub open spec fn is_hex_digit(c: u8) -> bool {
    ('0' as u8 <= c <= '9' as u8) || ('a' as u8 <= c <= 'f' as u8)
}

/// The value of a hexadecimal digit.
pub open spec fn hex_value(c: u8) -> int {
    if c <= '9' as u8 {
        c - '0' as u8
    } else {
        c - 'a' as u8 + 10
    }
}

/// Whether `text` is hexadecimal text: an even number of lowercase digits.
pub open spec fn is_hex_text(text: Seq<u8>) -> bool {
    text.len() % 2 == 0 && forall|i: int| 0 <= i < text.len() ==> is_hex_digit(#[trigger] text[i])
}

/// The bytes that hexadecimal text stands for.
pub open spec fn hex_bytes(text: Seq<u8>) -> Seq<u8> {
    Seq::new(
        text.len() / 2,
        |i: int| (16 * hex_value(text[2 * i]) + hex_value(text[2 * i + 1])) as u8,
    )
}

/// What `from_hex` makes of `text`: its bytes, or nothing where it is not
/// hexadecimal text.
pub open spec fn unhex(text: Seq<u8>) -> Option<Seq<u8>> {
    if is_hex_text(text) {
        Some(hex_bytes(text))
    } else {
        None
    }
}

/// The characters of ASCII text.
pub open spec fn ascii_chars(text: Seq<u8>) -> Seq<char> {
    Seq::new(text.len(), |i: int| text[i] as char)
}

/// Decoding the text of `data` gives `data` back.
pub proof fn lemma_unhex_hex(data: Seq<u8>)
    ensures
        is_hex_text(hex_text(data)),
        unhex(hex_text(data)) == Some(data),
{
    let text = hex_text(data);
    assert forall|i: int| 0 <= i < text.len() implies is_hex_digit(#[trigger] text[i]) by {
        let b = data[i / 2] as int;
        assert(0 <= b / 16 < 16 && 0 <= b % 16 < 16);
    }
    assert(hex_bytes(text) =~= data) by {
        assert forall|i: int| 0 <= i < data.len() implies hex_bytes(text)[i] == data[i] by {
            let b = data[i] as int;
            assert((2 * i) / 2 == i && (2 * i + 1) / 2 == i);
            assert((2 * i) % 2 == 0 && (2 * i + 1) % 2 == 1);
            assert(text[2 * i] == hex_digit(b / 16));
            assert(text[2 * i + 1] == hex_digit(b % 16));
            assert(0 <= b / 16 < 16 && 0 <= b % 16 < 16);
            assert(hex_value(hex_digit(b / 16)) == b / 16);
            assert(hex_value(hex_digit(b % 16)) == b % 16);
            assert(16 * (b / 16) + b % 16 == b);
        }
    }
}

/// Encoding the bytes of hexadecimal text gives the text back.
pub proof fn lemma_hex_unhex(text: Seq<u8>)
    requires
        is_hex_text(text),
    ensures
        hex_text(hex_bytes(text)) == text,
{
    let data = hex_bytes(text);
    assert(hex_text(data) =~= text) by {
        assert forall|i: int| 0 <= i < text.len() implies hex_text(data)[i] == text[i] by {
            let k = i / 2;
            let hi = text[2 * k];
            let lo = text[2 * k + 1];
            assert(is_hex_digit(hi) && is_hex_digit(lo));
            let v = 16 * hex_value(hi) + hex_value(lo);
            assert(0 <= hex_value(hi) < 16 && 0 <= hex_value(lo) < 16);
            assert(data[k] as int == v);
            assert(v / 16 == hex_value(hi) && v % 16 == hex_value(lo));
            assert(hex_digit(hex_value(hi)) == hi);
            assert(hex_digit(hex_value(lo)) == lo);
            if i % 2 == 0 {
                assert(i == 2 * k);
            } else {
                assert(i == 2 * k + 1);
            }
        }
    }
}

/// Texts of different byte strings differ.
pub proof fn lemma_hex_text_injective(a: Seq<u8>, b: Seq<u8>)
    requires
        hex_text(a) == hex_text(b),
    ensures
        a == b,
{
    lemma_unhex_hex(a);
    lemma_unhex_hex(b);
}

fn digit(n: u8) -> (c: u8)
    requires
        n < 16,
    ensures
        c == hex_digit(n as int),
{
    if n < 10 {
        '0' as u8 + n
    } else {
        'a' as u8 + (n - 10)
    }
}

/// The lowercase hexadecimal text of `data`.
pub fn to_hex(data: &[u8]) -> (text: Vec<u8>)
    ensures
        text@ == hex_text(data@),
{
    let mut text: Vec<u8> = Vec::new();
    let mut i: usize = 0;
    while i < data.len()
        invariant
            i <= data@.len(),
            text@ == hex_text(data@.take(i as int)),
        decreases data@.len() - i,
    {
        let b: u8 = data[i];
        text.push(digit(b / 16));
        text.push(digit(b % 16));
        i += 1;
        assert(text@ =~= hex_text(data@.take(i as int)));
    }
    assert(data@.take(data@.len() as int) == data@);
    text
}

fn value(c: u8) -> (v: Option<u8>)
    ensures
        is_hex_digit(c) ==> v == Some(hex_value(c) as u8) && hex_value(c) < 16,
        !is_hex_digit(c) ==> v.is_none(),
{
    if '0' as u8 <= c && c <= '9' as u8 {
        Some(c - '0' as u8)
    } else if 'a' as u8 <= c && c <= 'f' as u8 {
        Some(c - 'a' as u8 + 10)
    } else {
        None
    }
}

/// The bytes that `text` stands for; nothing unless `text` is an even number
/// of lowercase hexadecimal digits.
pub fn from_hex(text: &[u8]) -> (data: Option<Vec<u8>>)
    ensures
        match data {
            Some(d) => unhex(text@) == Some(d@),
            None => unhex(text@).is_none(),
        },
{
    if text.len() % 2 != 0 {
        return None;
    }
    let mut data: Vec<u8> = Vec::new();
    let mut i: usize = 0;
    while i < text.len()
        invariant
            i <= text@.len(),
            i % 2 == 0,
            text@.len() % 2 == 0,
            forall|j: int| 0 <= j < i ==> is_hex_digit(#[trigger] text@[j]),
            data@ == hex_bytes(text@.take(i as int)),
        decreases text@.len() - i,
    {
        let hi = value(text[i]);
        let lo = value(text[i + 1]);
        match (hi, lo) {
            (Some(h), Some(l)) => {
                data.push(16 * h + l);
            },
            _ => {
                assert(!is_hex_digit(text@[i as int]) || !is_hex_digit(text@[i + 1]));
                return None;
            },
        }
        i += 2;
        assert(data@ =~= hex_bytes(text@.take(i as int)));
    }
    assert(text@.take(text@.len() as int) == text@);
    Some(data)
}

fn digit_str(n: u8) -> (s: &'static str)
    requires
        n < 16,
    ensures
        s@ == seq![hex_digit(n as int) as char],
{
    proof {
        reveal_strlit("0");
        reveal_strlit("1");
        reveal_strlit("2");
        reveal_strlit("3");
        reveal_strlit("4");
        reveal_strlit("5");
        reveal_strlit("6");
        reveal_strlit("7");
        reveal_strlit("8");
        reveal_strlit("9");
        reveal_strlit("a");
        reveal_strlit("b");
        reveal_strlit("c");
        reveal_strlit("d");
        reveal_strlit("e");
        reveal_strlit("f");
    }
    let s = match n {
        0 => "0",
        1 => "1",
        2 => "2",
        3 => "3",
        4 => "4",
        5 => "5",
        6 => "6",
        7 => "7",
        8 => "8",
        9 => "9",
        10 => "a",
        11 => "b",
        12 => "c",
        13 => "d",
        14 => "e",
        _ => "f",
    };
    assert(s@ =~= seq![hex_digit(n as int) as char]);
    s
}

/// Values that have a hexadecimal text.
pub trait ToHex {
    /// The bytes that the text is made of.
    spec fn raw_bytes(&self) -> Seq<u8>;

    /// The lowercase hexadecimal text of the value.
    fn to_hex_string(&self) -> (text: String)
        ensures
            text@ == ascii_chars(hex_text(self.raw_bytes())),
    ;
}

impl ToHex for &[u8] {
    open spec fn raw_bytes(&self) -> Seq<u8> {
        self@
    }

    fn to_hex_string(&self) -> (text: String) {
        let mut text = String::new();
        let mut i: usize = 0;
        while i < self.len()
            invariant
                i <= self@.len(),
                text@ == ascii_chars(hex_text(self@.take(i as int))),
            decreases self@.len() - i,
        {
            let b: u8 = self[i];
            text.append(digit_str(b / 16));
            text.append(digit_str(b % 16));
            i += 1;
            assert(text@ =~= ascii_chars(hex_text(self@.take(i as int))));
        }
        assert(self@.take(self@.len() as int) == self@);
        text
    }
}

} // verus!
