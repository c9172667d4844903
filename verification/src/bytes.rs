//! Small verified helpers on byte strings.

use vstd::prelude::*;

verus! {

/// The position of the first occurrence of `b` in `s`, or `s.len()` where
/// `b` does not occur.
pub open spec fn first_index(s: Seq<u8>, b: u8) -> int
    decreases s.len(),
{
    if s.len() == 0 {
        0
    } else if s[0] == b {
        0
    } else {
        1 + first_index(s.drop_first(), b)
    }
}

/// `first_index` lies within the sequence, nothing before it equals `b`, and
/// where it is an index the byte there is `b`.
pub proof fn lemma_first_index(s: Seq<u8>, b: u8)
    ensures
        0 <= first_index(s, b) <= s.len(),
        forall|i: int| 0 <= i < first_index(s, b) ==> s[i] != b,
        first_index(s, b) < s.len() ==> s[first_index(s, b)] == b,
    decreases s.len(),
{
    if s.len() > 0 && s[0] != b {
        let t = s.drop_first();
        lemma_first_index(t, b);
        assert forall|i: int| 0 <= i < first_index(s, b) implies s[i] != b by {
            if i > 0 {
                assert(s[i] == t[i - 1]);
            }
        }
        assert(first_index(s, b) < s.len() ==> s[first_index(s, b)] == t[first_index(t, b)]);
    }
}

/// An index is the first occurrence as soon as the byte there is `b` and no
/// earlier byte is.
pub proof fn lemma_first_index_is(s: Seq<u8>, b: u8, k: int)
    requires
        0 <= k <= s.len(),
        forall|i: int| 0 <= i < k ==> s[i] != b,
        k < s.len() ==> s[k] == b,
    ensures
        first_index(s, b) == k,
{
    lemma_first_index(s, b);
    let f = first_index(s, b);
    if f < k {
        assert(s[f] != b);
    }
}

/// Whether `b` occurs in `s`.
pub open spec fn occurs(s: Seq<u8>, b: u8) -> bool {
    first_index(s, b) < s.len()
}

/// `occurs` agrees with the plain statement that some element equals `b`.
pub proof fn lemma_occurs(s: Seq<u8>, b: u8)
    ensures
        occurs(s, b) <==> exists|i: int| 0 <= i < s.len() && s[i] == b,
{
    lemma_first_index(s, b);
    if occurs(s, b) {
        assert(s[first_index(s, b)] == b);
    }
}

/// Finds the first `b` at or after `from`; the length of `data` where there
/// is none.
pub fn find_byte(data: &[u8], from: usize, b: u8) -> (at: usize)
    requires
        from <= data@.len(),
    ensures
        at == from + first_index(data@.skip(from as int), b),
        from <= at <= data@.len(),
{
    let mut i: usize = from;
    while i < data.len() && data[i] != b
        invariant
            from <= i <= data@.len(),
            forall|j: int| from <= j < i ==> data@[j] != b,
        decreases data@.len() - i,
    {
        i += 1;
    }
    proof {
        let rest = data@.skip(from as int);
        assert forall|j: int| 0 <= j < i - from implies rest[j] != b by {
            assert(rest[j] == data@[from + j]);
        }
        lemma_first_index_is(rest, b, i - from);
    }
    i
}

/// Appends every byte of `data` to `out`.
pub fn append_bytes(out: &mut Vec<u8>, data: &[u8])
    ensures
        final(out)@ == old(out)@ + data@,
{
    let mut i: usize = 0;
    while i < data.len()
        invariant
            i <= data@.len(),
            out@ == old(out)@ + data@.take(i as int),
        decreases data@.len() - i,
    {
        out.push(data[i]);
        i += 1;
    }
    assert(data@.take(data@.len() as int) == data@);
}

/// Whether two byte strings hold the same bytes.
pub fn bytes_equal(a: &[u8], b: &[u8]) -> (same: bool)
    ensures
        same == (a@ == b@),
{
    if a.len() != b.len() {
        return false;
    }
    let mut i: usize = 0;
    while i < a.len()
        invariant
            i <= a@.len(),
            a@.len() == b@.len(),
            forall|j: int| 0 <= j < i ==> a@[j] == b@[j],
        decreases a@.len() - i,
    {
        if a[i] != b[i] {
            return false;
        }
        i += 1;
    }
    assert(a@ =~= b@);
    true
}

/// A fresh vector holding `data[from..to]`.
pub fn copy_range(data: &[u8], from: usize, to: usize) -> (part: Vec<u8>)
    requires
        from <= to <= data@.len(),
    ensures
        part@ == data@.subrange(from as int, to as int),
{
    let mut part: Vec<u8> = Vec::new();
    let mut i: usize = from;
    while i < to
        invariant
            from <= i <= to <= data@.len(),
            part@ == data@.subrange(from as int, i as int),
        decreases to - i,
    {
        part.push(data[i]);
        i += 1;
    }
    part
}

} // verus!
