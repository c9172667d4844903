//! The object codec: the three kinds of object and their framed form,
//! `"<kind> <length>\0<payload>"`.

use crate::bytes::{append_bytes, bytes_equal, copy_range, find_byte, first_index, lemma_first_index_is};
use crate::decimal::{
    append_decimal, decimal, is_digit, lemma_decimal, lemma_unsigned_value_decimal, parse_u64,
    unsigned_value,
};
use crate::error::Error;
use crate::hex::ascii_chars;
use vstd::prelude::*;
use vstd::slice::slice_subrange;
use vstd::string::StringSliceAdditionalSpecFns;

verus! {

/// The kind of an object.
#[derive(Debug, Clone, Copy, PartialEq, Eq, Structural)]
pub enum ObjKind {
    Blob,
    Tree,
    Commit,
}

/// The lowercase tag of a kind, as it stands in a header.
pub open spec fn kind_name(kind: ObjKind) -> Seq<u8> {
    match kind {
        ObjKind::Blob => seq!['b' as u8, 'l' as u8, 'o' as u8, 'b' as u8],
        ObjKind::Tree => seq!['t' as u8, 'r' as u8, 'e' as u8, 'e' as u8],
        ObjKind::Commit => seq!['c' as u8, 'o' as u8, 'm' as u8, 'm' as u8, 'i' as u8, 't' as u8],
    }
}

/// The kind that a tag names, if any.
pub open spec fn kind_of_name(token: Seq<u8>) -> Option<ObjKind> {
    if token == kind_name(ObjKind::Blob) {
        Some(ObjKind::Blob)
    } else if token == kind_name(ObjKind::Tree) {
        Some(ObjKind::Tree)
    } else if token == kind_name(ObjKind::Commit) {
        Some(ObjKind::Commit)
    } else {
        None
    }
}

/// A tag names the kind it belongs to, and holds neither a space nor a NUL.
pub proof fn lemma_kind_name(kind: ObjKind)
    ensures
        kind_of_name(kind_name(kind)) == Some(kind),
        forall|i: int| 0 <= i < kind_name(kind).len() ==> kind_name(kind)[i] != 0 && kind_name(kind)[i] != ' ' as u8,
{
    assert(kind_name(ObjKind::Blob)[0] != kind_name(ObjKind::Tree)[0]);
    assert(kind_name(ObjKind::Blob).len() != kind_name(ObjKind::Commit).len());
    assert(kind_name(ObjKind::Tree).len() != kind_name(ObjKind::Commit).len());
}

impl ObjKind {
    /// The lowercase tag of the kind.
    pub fn name(&self) -> (tag: &'static str)
        ensures
            tag@ == ascii_chars(kind_name(*self)),
            tag.is_ascii(),
    {
        match self {
            ObjKind::Blob => {
                proof {
                    reveal_strlit("blob");
                }
                assert("blob"@ =~= ascii_chars(kind_name(ObjKind::Blob)));
                "blob"
            },
            ObjKind::Tree => {
                proof {
                    reveal_strlit("tree");
                }
                assert("tree"@ =~= ascii_chars(kind_name(ObjKind::Tree)));
                "tree"
            },
            ObjKind::Commit => {
                proof {
                    reveal_strlit("commit");
                }
                assert("commit"@ =~= ascii_chars(kind_name(ObjKind::Commit)));
                "commit"
            },
        }
    }

    /// The tag of the kind, as bytes.
    pub fn name_bytes(&self) -> (tag: &'static [u8])
        ensures
            tag@ == kind_name(*self),
    {
        let name = self.name();
        let tag = name.as_bytes();
        proof {
            broadcast use vstd::string::is_ascii_spec_bytes;
            assert(tag@ =~= kind_name(*self));
        }
        tag
    }

    /// The kind that `token` names, if it is one of the three tags.
    pub fn from_bytes(token: &[u8]) -> (kind: Option<ObjKind>)
        ensures
            kind == kind_of_name(token@),
    {
        if bytes_equal(token, ObjKind::Blob.name_bytes()) {
            Some(ObjKind::Blob)
        } else if bytes_equal(token, ObjKind::Tree.name_bytes()) {
            Some(ObjKind::Tree)
        } else if bytes_equal(token, ObjKind::Commit.name_bytes()) {
            Some(ObjKind::Commit)
        } else {
            None
        }
    }

    /// The kind that `s` names; `MalformedHeader` where it names none.
    pub fn from_str(s: &str) -> (kind: Result<ObjKind, Error>)
        ensures
            kind == match kind_of_name(s.spec_bytes()) {
                Some(k) => Ok::<ObjKind, Error>(k),
                None => Err(Error::MalformedHeader),
            },
    {
        match ObjKind::from_bytes(s.as_bytes()) {
            Some(k) => Ok(k),
            None => Err(Error::MalformedHeader),
        }
    }
}

/// An object as read from the store: its kind, the size its header declares,
/// and its payload.
pub struct Object {
    pub kind: ObjKind,
    pub size: u64,
    pub content: Vec<u8>,
}

/// An object as a value: what `Object` holds, with the payload as a sequence.
pub struct ObjectView {
    pub kind: ObjKind,
    pub size: u64,
    pub content: Seq<u8>,
}

impl View for Object {
    type V = ObjectView;

    open spec fn view(&self) -> ObjectView {
        ObjectView { kind: self.kind, size: self.size, content: self.content@ }
    }
}

/// The framed form of an object: the kind's tag, a space, the payload's
/// length in decimal, a NUL, the payload.
pub open spec fn encoding(kind: ObjKind, payload: Seq<u8>) -> Seq<u8> {
    kind_name(kind) + seq![' ' as u8] + decimal(payload.len()) + seq![0u8] + payload
}

/// What a header says: the kind, the declared size, and where the payload
/// starts.
pub struct Header {
    pub kind: ObjKind,
    pub size: u64,
    pub start: int,
}

/// The header at the front of `stream`. It reaches up to the first NUL and
/// is cut at its first space into a tag and a size; `MalformedHeader` where
/// the NUL or the space is missing, the tag names no kind, or the size is
/// not an unsigned decimal number of 64 bits.
pub open spec fn header_of(stream: Seq<u8>) -> Result<Header, Error> {
    let end = first_index(stream, 0);
    let head = stream.take(end);
    let space = first_index(head, ' ' as u8);
    if end == stream.len() || space == head.len() {
        Err(Error::MalformedHeader)
    } else {
        match (kind_of_name(head.take(space)), unsigned_value(head.skip(space + 1))) {
            (Some(kind), Some(size)) => Ok(Header { kind, size, start: end + 1 }),
            _ => Err(Error::MalformedHeader),
        }
    }
}

/// The object that `stream` frames: its header, then as many payload bytes
/// as the header declares. `TruncatedObject` where fewer follow; what
/// follows the payload is ignored.
pub open spec fn object_of(stream: Seq<u8>) -> Result<ObjectView, Error> {
    match header_of(stream) {
        Err(e) => Err(e),
        Ok(h) => if stream.len() - h.start < h.size {
            Err(Error::TruncatedObject)
        } else {
            Ok(
                ObjectView {
                    kind: h.kind,
                    size: h.size,
                    content: stream.subrange(h.start, h.start + h.size),
                },
            )
        },
    }
}

/// Decoding what `encode` made gives back the kind, the payload's length,
/// and, as the rest of the stream, the payload.
pub proof fn lemma_decode_encode(kind: ObjKind, payload: Seq<u8>)
    requires
        payload.len() <= u64::MAX,
    ensures
        header_of(encoding(kind, payload)) == Ok::<Header, Error>(
            Header {
                kind,
                size: payload.len() as u64,
                start: encoding(kind, payload).len() - payload.len(),
            },
        ),
        encoding(kind, payload).skip(encoding(kind, payload).len() - payload.len()) == payload,
        object_of(encoding(kind, payload)) == Ok::<ObjectView, Error>(
            ObjectView { kind, size: payload.len() as u64, content: payload },
        ),
{
    let name = kind_name(kind);
    let digits = decimal(payload.len());
    let stream = encoding(kind, payload);
    let end: int = (name.len() + 1 + digits.len()) as int;
    lemma_kind_name(kind);
    lemma_decimal(payload.len());
    lemma_unsigned_value_decimal(payload.len());
    assert forall|i: int| 0 <= i < end implies stream[i] != 0 by {
        if i < name.len() {
            assert(stream[i] == name[i]);
        } else if i > name.len() {
            assert(stream[i] == digits[i - name.len() - 1]);
            assert(is_digit(digits[i - name.len() - 1]));
        }
    }
    assert(stream[end] == 0);
    lemma_first_index_is(stream, 0, end);
    let head = stream.take(end);
    assert forall|i: int| 0 <= i < name.len() implies head[i] != ' ' as u8 by {
        assert(head[i] == name[i]);
    }
    assert(head[name.len() as int] == ' ' as u8);
    lemma_first_index_is(head, ' ' as u8, name.len() as int);
    assert(head.take(name.len() as int) =~= name);
    assert(head.skip(name.len() as int + 1) =~= digits);
    assert(stream.skip(end + 1) =~= payload);
    assert(stream.subrange(end + 1, end + 1 + payload.len()) =~= payload);
}

/// The framed forms of two objects are equal only where the objects are.
pub proof fn lemma_encoding_injective(kind: ObjKind, payload: Seq<u8>, other_kind: ObjKind, other_payload: Seq<u8>)
    requires
        payload.len() <= u64::MAX,
        other_payload.len() <= u64::MAX,
        encoding(kind, payload) == encoding(other_kind, other_payload),
    ensures
        kind == other_kind,
        payload == other_payload,
{
    lemma_decode_encode(kind, payload);
    lemma_decode_encode(other_kind, other_payload);
}

/// Frames `payload` as an object of the given kind.
pub fn encode(kind: ObjKind, payload: &[u8]) -> (stream: Vec<u8>)
    ensures
        stream@ == encoding(kind, payload@),
{
    let mut stream: Vec<u8> = Vec::new();
    append_bytes(&mut stream, kind.name_bytes());
    stream.push(' ' as u8);
    append_decimal(&mut stream, payload.len() as u64);
    stream.push(0);
    append_bytes(&mut stream, payload);
    assert(stream@ =~= encoding(kind, payload@));
    stream
}

/// Reads the header at the front of `stream`: the kind, the declared size,
/// and the position of the first payload byte.
pub fn decode(stream: &[u8]) -> (header: Result<(ObjKind, u64, usize), Error>)
    ensures
        match header {
            Ok((kind, size, start)) => header_of(stream@) == Ok::<Header, Error>(
                Header { kind, size, start: start as int },
            ),
            Err(e) => header_of(stream@) == Err::<Header, Error>(e),
        },
        header matches Ok((_, _, start)) ==> start <= stream@.len(),
{
    let end: usize = find_byte(stream, 0, 0);
    assert(stream@.skip(0) =~= stream@);
    if end == stream.len() {
        return Err(Error::MalformedHeader);
    }
    let head = slice_subrange(stream, 0, end);
    assert(head@ =~= stream@.take(end as int));
    let space: usize = find_byte(head, 0, ' ' as u8);
    assert(head@.skip(0) =~= head@);
    if space == head.len() {
        return Err(Error::MalformedHeader);
    }
    let tag = slice_subrange(head, 0, space);
    let token = slice_subrange(head, space + 1, head.len());
    assert(tag@ =~= head@.take(space as int));
    assert(token@ =~= head@.skip(space + 1));
    match (ObjKind::from_bytes(tag), parse_u64(token)) {
        (Some(kind), Some(size)) => Ok((kind, size, end + 1)),
        _ => Err(Error::MalformedHeader),
    }
}

/// Reads the object that `stream` frames.
pub fn parse_object(stream: &[u8]) -> (object: Result<Object, Error>)
    ensures
        match object {
            Ok(o) => object_of(stream@) == Ok::<ObjectView, Error>(o@),
            Err(e) => object_of(stream@) == Err::<ObjectView, Error>(e),
        },
{
    match decode(stream) {
        Err(e) => Err(e),
        Ok((kind, size, start)) => {
            let available: u64 = (stream.len() - start) as u64;
            if available < size {
                Err(Error::TruncatedObject)
            } else {
                let content = copy_range(stream, start, start + size as usize);
                Ok(Object { kind, size, content })
            }
        },
    }
}

} // verus!
