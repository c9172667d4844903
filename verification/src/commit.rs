//! Commits: a tree, at most one parent, who made it and when, and a message.

use crate::bytes::append_bytes;
use crate::decimal::{append_signed_decimal, signed_decimal};
use crate::digest::DIGEST_LEN;
use crate::error::Error;
use crate::object::ObjKind;
use crate::store::{
    bytes_result, object_named, read_obj_file, store_with, write_object, write_result, ObjectStore,
};
use vstd::prelude::*;
use vstd::string::StringSliceAdditionalSpecFns;

verus! {

/// A point in time with the offset of local time from UTC at it.
pub struct When {
    /// Seconds since the start of 1970, UTC.
    pub seconds: int,
    /// Seconds that local time is ahead of UTC.
    pub offset: int,
}

/// The time at which a commit is made: seconds since the start of 1970 and
/// the offset of local time from UTC, which is less than a day.
pub struct Timestamp {
    seconds: i64,
    offset: i32,
}

impl View for Timestamp {
    type V = When;

    closed spec fn view(&self) -> When {
        When { seconds: self.seconds as int, offset: self.offset as int }
    }
}

/// Whether an offset from UTC, in seconds, is less than a day.
pub open spec fn valid_offset(offset: int) -> bool {
    -86400 < offset < 86400
}

impl Timestamp {
    #[verifier::type_invariant]
    closed spec fn well_formed(self) -> bool {
        valid_offset(self.offset as int)
    }

    /// The time `seconds` after the start of 1970, where local time is
    /// `offset` seconds ahead of UTC; nothing where the offset is a day or
    /// more.
    pub fn new(seconds: i64, offset: i32) -> (when: Option<Timestamp>)
        ensures
            match when {
                Some(t) => valid_offset(offset as int) && t@ == (When {
                    seconds: seconds as int,
                    offset: offset as int,
                }),
                None => !valid_offset(offset as int),
            },
    {
        if -86400 < offset && offset < 86400 {
            Some(Timestamp { seconds, offset })
        } else {
            None
        }
    }

    /// Seconds since the start of 1970.
    pub fn seconds(&self) -> (seconds: i64)
        ensures
            seconds == self@.seconds,
            valid_offset(self@.offset),
    {
        proof {
            use_type_invariant(self);
        }
        self.seconds
    }

    /// Seconds that local time is ahead of UTC.
    pub fn offset(&self) -> (offset: i32)
        ensures
            offset == self@.offset,
            valid_offset(self@.offset),
    {
        proof {
            use_type_invariant(self);
        }
        self.offset
    }
}

/// The ASCII digit for a value below ten.
pub open spec fn digit_char(n: int) -> u8 {
    ('0' as u8 + n) as u8
}

/// An offset from UTC as a sign, two digits of hours and two of minutes,
/// with the seconds rounded to the nearest minute.
pub open spec fn zone_text(offset: int) -> Seq<u8> {
    let minutes = ((if offset < 0 {
        -offset
    } else {
        offset
    }) + 30) / 60;
    let hours = minutes / 60;
    let rest = minutes % 60;
    seq![
        if offset < 0 {
            '-' as u8
        } else {
            '+' as u8
        },
        digit_char(hours / 10),
        digit_char(hours % 10),
        digit_char(rest / 10),
        digit_char(rest % 10),
    ]
}

/// A time as a commit writes it: the seconds in decimal, a space, the
/// offset.
pub open spec fn timestamp_text(when: When) -> Seq<u8> {
    signed_decimal(when.seconds) + seq![' ' as u8] + zone_text(when.offset)
}

/// The name and address under which every commit is made.
pub open spec fn identity() -> Seq<u8> {
    "Test User <test@email.com>".spec_bytes()
}

/// One line of a commit that says who did what and when: the role, the
/// identity, the time, a line feed.
pub open spec fn signature_line(role: Seq<u8>, when: When) -> Seq<u8> {
    role + seq![' ' as u8] + identity() + seq![' ' as u8] + timestamp_text(when) + seq![
        '\n' as u8,
    ]
}

/// The line that names a parent, where there is one.
pub open spec fn parent_line(parent: Option<Seq<u8>>) -> Seq<u8> {
    match parent {
        Some(p) => "parent ".spec_bytes() + p + seq!['\n' as u8],
        None => Seq::empty(),
    }
}

/// The payload of a commit: the line of the tree, the line of the parent if
/// there is one, the author's and the committer's line, an empty line, and
/// the message with a line feed behind it.
pub open spec fn commit_payload(
    tree: Seq<u8>,
    parent: Option<Seq<u8>>,
    when: When,
    message: Seq<u8>,
) -> Seq<u8> {
    "tree ".spec_bytes() + tree + seq!['\n' as u8] + parent_line(parent) + signature_line(
        "author".spec_bytes(),
        when,
    ) + signature_line("committer".spec_bytes(), when) + seq!['\n' as u8] + message + seq![
        '\n' as u8,
    ]
}

/// The bytes of a text that may be missing.
pub open spec fn text_of(text: Option<&str>) -> Option<Seq<u8>> {
    match text {
        Some(t) => Some(t.spec_bytes()),
        None => None,
    }
}

/// What making a commit returns. The object that `tree` names has to be
/// there and be a tree: else the error of reading it, or `WrongKind` with
/// the kind that was found. Where it is a tree, what writing the commit
/// returns.
pub open spec fn commit_result(
    store: Map<Seq<u8>, Seq<u8>>,
    tree: Seq<u8>,
    parent: Option<Seq<u8>>,
    when: When,
    message: Seq<u8>,
) -> Result<Seq<u8>, Error> {
    match object_named(store, tree) {
        Err(e) => Err(e),
        Ok(o) => if o.kind != ObjKind::Tree {
            Err(Error::WrongKind { expected: ObjKind::Tree, found: o.kind })
        } else {
            write_result(ObjKind::Commit, commit_payload(tree, parent, when, message))
        },
    }
}

/// The store after a commit was asked for: with the commit where `tree`
/// names a tree, and as it was where it does not.
pub open spec fn store_with_commit(
    store: Map<Seq<u8>, Seq<u8>>,
    tree: Seq<u8>,
    parent: Option<Seq<u8>>,
    when: When,
    message: Seq<u8>,
) -> Map<Seq<u8>, Seq<u8>> {
    match object_named(store, tree) {
        Ok(o) => if o.kind == ObjKind::Tree {
            store_with(store, ObjKind::Commit, commit_payload(tree, parent, when, message))
        } else {
            store
        },
        Err(_) => store,
    }
}

/// A commit that is refused, for want of a tree, leaves the store as it
/// was.
pub proof fn lemma_refused_commit_writes_nothing(
    store: Map<Seq<u8>, Seq<u8>>,
    tree: Seq<u8>,
    parent: Option<Seq<u8>>,
    when: When,
    message: Seq<u8>,
)
    requires
        commit_result(store, tree, parent, when, message).is_err(),
    ensures
        store_with_commit(store, tree, parent, when, message) == store,
{
}

fn append_two_digits(out: &mut Vec<u8>, n: u32)
    requires
        n < 100,
    ensures
        final(out)@ == old(out)@ + seq![digit_char(n as int / 10), digit_char(n as int % 10)],
{
    out.push('0' as u8 + (n / 10) as u8);
    out.push('0' as u8 + (n % 10) as u8);
    assert(out@ =~= old(out)@ + seq![digit_char(n as int / 10), digit_char(n as int % 10)]);
}

/// Appends a time as a commit writes it.
pub fn append_timestamp(out: &mut Vec<u8>, when: &Timestamp)
    ensures
        final(out)@ == old(out)@ + timestamp_text(when@),
{
    let seconds: i64 = when.seconds();
    let offset: i32 = when.offset();
    append_signed_decimal(out, seconds);
    out.push(' ' as u8);
    let magnitude: u32 = if offset < 0 {
        out.push('-' as u8);
        (-offset) as u32
    } else {
        out.push('+' as u8);
        offset as u32
    };
    let minutes: u32 = (magnitude + 30) / 60;
    append_two_digits(out, minutes / 60);
    append_two_digits(out, minutes % 60);
    assert(out@ =~= old(out)@ + timestamp_text(when@));
}

fn append_signature_line(out: &mut Vec<u8>, role: &str, when: &Timestamp)
    ensures
        final(out)@ == old(out)@ + signature_line(role.spec_bytes(), when@),
{
    append_bytes(out, role.as_bytes());
    out.push(' ' as u8);
    append_bytes(out, "Test User <test@email.com>".as_bytes());
    out.push(' ' as u8);
    append_timestamp(out, when);
    out.push('\n' as u8);
    assert(out@ =~= old(out)@ + signature_line(role.spec_bytes(), when@));
}

/// The payload of a commit of the tree that `tree` names, made at `when`.
pub fn build_commit(tree: &str, parent: Option<&str>, when: &Timestamp, message: &str) -> (payload:
    Vec<u8>)
    ensures
        payload@ == commit_payload(
            tree.spec_bytes(),
            text_of(parent),
            when@,
            message.spec_bytes(),
        ),
{
    let mut payload: Vec<u8> = Vec::new();
    append_bytes(&mut payload, "tree ".as_bytes());
    append_bytes(&mut payload, tree.as_bytes());
    payload.push('\n' as u8);
    match parent {
        Some(p) => {
            append_bytes(&mut payload, "parent ".as_bytes());
            append_bytes(&mut payload, p.as_bytes());
            payload.push('\n' as u8);
        },
        None => {},
    }
    assert(payload@ =~= "tree ".spec_bytes() + tree.spec_bytes() + seq!['\n' as u8] + parent_line(
        text_of(parent),
    ));
    append_signature_line(&mut payload, "author", when);
    append_signature_line(&mut payload, "committer", when);
    payload.push('\n' as u8);
    append_bytes(&mut payload, message.as_bytes());
    payload.push('\n' as u8);
    assert(payload@ =~= commit_payload(
        tree.spec_bytes(),
        text_of(parent),
        when@,
        message.spec_bytes(),
    ));
    payload
}

/// Makes a commit of the tree that `tree_hash` names, with the parent and
/// the message given, and returns its digest. The tree has to be in the
/// store; the parent is written down as it is given and not looked up. A
/// commit that is refused leaves the store as it was.
pub fn commit_tree(
    store: &mut ObjectStore,
    tree_hash: &str,
    message: &str,
    parent: Option<&str>,
    when: &Timestamp,
) -> (digest: Result<Vec<u8>, Error>)
    ensures
        bytes_result(digest) == commit_result(
            old(store)@,
            tree_hash.spec_bytes(),
            text_of(parent),
            when@,
            message.spec_bytes(),
        ),
        final(store)@ == store_with_commit(
            old(store)@,
            tree_hash.spec_bytes(),
            text_of(parent),
            when@,
            message.spec_bytes(),
        ),
        digest matches Ok(d) ==> d@.len() == DIGEST_LEN,
{
    let found = match read_obj_file(store, tree_hash) {
        Ok(object) => object.kind,
        Err(e) => {
            return Err(e);
        },
    };
    if found != ObjKind::Tree {
        return Err(Error::WrongKind { expected: ObjKind::Tree, found });
    }
    let payload = build_commit(tree_hash, parent, when, message);
    write_object(store, ObjKind::Commit, payload.as_slice())
}

} // verus!
