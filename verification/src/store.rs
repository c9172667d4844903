//! The content-addressable store: objects kept in compressed form under the
//! digest of their framed form.
//!
//! The store is held in memory as a map from digest to compressed bytes.
//! Whoever owns the files loads them into a store, runs an operation, and
//! writes back what the operation added, each object at its `object_path`.

use crate::bytes::{bytes_equal, copy_range};
use crate::digest::{sha1, sha1_digest, DIGEST_LEN, MESSAGE_LIMIT};
use crate::error::Error;
use crate::hex::{ascii_chars, from_hex, hex_text, unhex, ToHex};
use crate::object::{encode, encoding, object_of, parse_object, ObjKind, Object, ObjectView};
use crate::zlib::{deflate, inflate, zlib_deflated, zlib_inflated};
use vstd::prelude::*;
use vstd::slice::slice_subrange;
use vstd::string::StringSliceAdditionalSpecFns;

verus! {

/// An object in the form in which it is stored: its digest and its
/// compressed bytes.
pub struct StoredObject {
    pub digest: Vec<u8>,
    pub data: Vec<u8>,
}

/// The map that comes of `base` as the objects of a list are kept in it one
/// after the other, each in place of what stood under its digest.
pub open spec fn keep_all(base: Map<Seq<u8>, Seq<u8>>, entries: Seq<StoredObject>) -> Map<
    Seq<u8>,
    Seq<u8>,
>
    decreases entries.len(),
{
    if entries.len() == 0 {
        base
    } else {
        keep_all(base, entries.drop_last()).insert(entries.last().digest@, entries.last().data@)
    }
}

/// The map that a list of stored objects stands for: each digest with the
/// bytes of the last object listed under it.
pub open spec fn store_map(entries: Seq<StoredObject>) -> Map<Seq<u8>, Seq<u8>> {
    keep_all(Map::empty(), entries)
}

/// Keeping two lists one after the other is keeping their concatenation.
pub proof fn lemma_keep_all_concat(
    base: Map<Seq<u8>, Seq<u8>>,
    a: Seq<StoredObject>,
    b: Seq<StoredObject>,
)
    ensures
        keep_all(base, a + b) == keep_all(keep_all(base, a), b),
    decreases b.len(),
{
    if b.len() == 0 {
        assert(a + b =~= a);
    } else {
        assert((a + b).drop_last() =~= a + b.drop_last());
        assert((a + b).last() == b.last());
        lemma_keep_all_concat(base, a, b.drop_last());
    }
}

/// A digest under which later entries hold nothing maps to the bytes of the
/// entry that holds it.
pub proof fn lemma_store_map_holds(entries: Seq<StoredObject>, k: int)
    requires
        0 <= k < entries.len(),
        forall|j: int| k < j < entries.len() ==> entries[j].digest@ != entries[k].digest@,
    ensures
        store_map(entries).contains_key(entries[k].digest@),
        store_map(entries)[entries[k].digest@] == entries[k].data@,
    decreases entries.len(),
{
    if k < entries.len() - 1 {
        let front = entries.drop_last();
        assert(front[k] == entries[k]);
        assert forall|j: int| k < j < front.len() implies front[j].digest@ != front[k].digest@ by {
            assert(front[j] == entries[j]);
        }
        lemma_store_map_holds(front, k);
        assert(entries.last().digest@ != entries[k].digest@);
    }
}

/// A digest that no entry holds is not in the map.
pub proof fn lemma_store_map_lacks(entries: Seq<StoredObject>, digest: Seq<u8>)
    requires
        forall|j: int| 0 <= j < entries.len() ==> entries[j].digest@ != digest,
    ensures
        !store_map(entries).contains_key(digest),
    decreases entries.len(),
{
    if entries.len() > 0 {
        let front = entries.drop_last();
        assert forall|j: int| 0 <= j < front.len() implies front[j].digest@ != digest by {
            assert(front[j] == entries[j]);
        }
        lemma_store_map_lacks(front, digest);
        assert(entries.last() == entries[entries.len() - 1]);
    }
}

/// Taking out one entry that holds `digest` changes nothing of the map
/// outside `digest`.
pub proof fn lemma_store_map_without(entries: Seq<StoredObject>, k: int)
    requires
        0 <= k < entries.len(),
    ensures
        store_map(entries.remove(k)).remove(entries[k].digest@) == store_map(entries).remove(
            entries[k].digest@,
        ),
    decreases entries.len(),
{
    let digest = entries[k].digest@;
    if k == entries.len() - 1 {
        assert(entries.remove(k) =~= entries.drop_last());
        assert(store_map(entries).remove(digest) =~= store_map(entries.drop_last()).remove(digest));
    } else {
        let front = entries.drop_last();
        assert(front[k] == entries[k]);
        lemma_store_map_without(front, k);
        assert(entries.remove(k).drop_last() =~= front.remove(k));
        assert(entries.remove(k).last() == entries.last());
        assert(store_map(entries.remove(k)).remove(digest) =~= store_map(front.remove(k)).remove(
            digest,
        ).insert(entries.last().digest@, entries.last().data@).remove(digest));
        assert(store_map(entries).remove(digest) =~= store_map(front).remove(digest).insert(
            entries.last().digest@,
            entries.last().data@,
        ).remove(digest));
    }
}

/// A store of objects: compressed bytes, each kept under a digest.
pub struct ObjectStore {
    entries: Vec<StoredObject>,
}

impl View for ObjectStore {
    type V = Map<Seq<u8>, Seq<u8>>;

    closed spec fn view(&self) -> Map<Seq<u8>, Seq<u8>> {
        store_map(self.entries@)
    }
}

impl ObjectStore {
    /// A store that holds nothing.
    pub fn new() -> (store: ObjectStore)
        ensures
            store@ == Map::<Seq<u8>, Seq<u8>>::empty(),
    {
        ObjectStore { entries: Vec::new() }
    }

    /// Keeps `data` under `digest`, in place of what was kept there.
    pub fn insert(&mut self, digest: Vec<u8>, data: Vec<u8>)
        ensures
            final(self)@ == old(self)@.insert(digest@, data@),
    {
        self.entries.push(StoredObject { digest, data });
        assert(self.entries@.drop_last() =~= old(self).entries@);
    }

    /// Keeps the objects of `list`, one after the other.
    pub fn insert_all(&mut self, list: Vec<StoredObject>)
        ensures
            final(self)@ == keep_all(old(self)@, list@),
    {
        let mut list = list;
        proof {
            lemma_keep_all_concat(Map::empty(), self.entries@, list@);
        }
        self.entries.append(&mut list);
    }

    /// The bytes kept under `digest`, if any are.
    pub fn get(&self, digest: &[u8]) -> (data: Option<&Vec<u8>>)
        ensures
            match data {
                Some(d) => self@.contains_key(digest@) && self@[digest@] == d@,
                None => !self@.contains_key(digest@),
            },
    {
        let mut i: usize = self.entries.len();
        while i > 0
            invariant
                i <= self.entries@.len(),
                forall|j: int| i <= j < self.entries@.len() ==> self.entries@[j].digest@ != digest@,
            decreases i,
        {
            i -= 1;
            if bytes_equal(self.entries[i].digest.as_slice(), digest) {
                proof {
                    lemma_store_map_holds(self.entries@, i as int);
                }
                return Some(&self.entries[i].data);
            }
        }
        proof {
            lemma_store_map_lacks(self.entries@, digest@);
        }
        None
    }

    /// Whether anything is kept under `digest`.
    pub fn contains(&self, digest: &[u8]) -> (held: bool)
        ensures
            held == self@.contains_key(digest@),
    {
        self.get(digest).is_some()
    }

    /// Drops what is kept under `digest`, as the removal of its file does.
    pub fn remove(&mut self, digest: &[u8])
        ensures
            final(self)@ == old(self)@.remove(digest@),
    {
        let mut i: usize = 0;
        while i < self.entries.len()
            invariant
                i <= self.entries@.len(),
                forall|j: int| 0 <= j < i ==> self.entries@[j].digest@ != digest@,
                store_map(self.entries@).remove(digest@) == store_map(old(self).entries@).remove(
                    digest@,
                ),
            decreases self.entries@.len() - i,
        {
            if bytes_equal(self.entries[i].digest.as_slice(), digest) {
                proof {
                    lemma_store_map_without(self.entries@, i as int);
                }
                let _ = self.entries.remove(i);
            } else {
                i += 1;
            }
        }
        proof {
            lemma_store_map_lacks(self.entries@, digest@);
            assert(store_map(self.entries@).remove(digest@) =~= store_map(self.entries@));
        }
    }

    /// Keeps `data` under the digest that `name` writes in hexadecimal, and
    /// says whether it did: a name that is not the text of a digest is
    /// refused.
    pub fn load(&mut self, name: &str, data: Vec<u8>) -> (accepted: bool)
        ensures
            accepted == digest_of_text(name.spec_bytes()).is_some(),
            final(self)@ == match digest_of_text(name.spec_bytes()) {
                Some(digest) => old(self)@.insert(digest, data@),
                None => old(self)@,
            },
    {
        match parse_digest(name.as_bytes()) {
            Some(digest) => {
                self.insert(digest, data);
                true
            },
            None => false,
        }
    }

    /// The stored objects as a list. Kept in this order, a later one in
    /// place of an earlier one of its digest, they make up the store.
    pub fn entries(&self) -> (list: &Vec<StoredObject>)
        ensures
            store_map(list@) == self@,
    {
        &self.entries
    }
}

/// The digest that `text` writes: 40 lowercase hexadecimal digits stand for
/// 20 bytes, any other text for none.
pub open spec fn digest_of_text(text: Seq<u8>) -> Option<Seq<u8>> {
    match unhex(text) {
        Some(digest) => if digest.len() == DIGEST_LEN {
            Some(digest)
        } else {
            None
        },
        None => None,
    }
}

/// Reads a digest from its hexadecimal text.
pub fn parse_digest(text: &[u8]) -> (digest: Option<Vec<u8>>)
    ensures
        match digest {
            Some(d) => digest_of_text(text@) == Some(d@),
            None => digest_of_text(text@).is_none(),
        },
{
    match from_hex(text) {
        Some(digest) => if digest.len() == DIGEST_LEN {
            Some(digest)
        } else {
            None
        },
        None => None,
    }
}

/// The digest of an object: that of its framed form.
pub open spec fn object_digest(kind: ObjKind, payload: Seq<u8>) -> Seq<u8> {
    sha1_digest(encoding(kind, payload))
}

/// The bytes that are stored for an object: its framed form, compressed.
pub open spec fn stored_form(kind: ObjKind, payload: Seq<u8>) -> Option<Seq<u8>> {
    zlib_deflated(encoding(kind, payload))
}

/// Whether an object can be stored: its framed form is short enough to be
/// hashed, and compresses.
pub open spec fn storable(kind: ObjKind, payload: Seq<u8>) -> bool {
    encoding(kind, payload).len() < MESSAGE_LIMIT && stored_form(kind, payload).is_some()
}

/// What writing an object returns: its digest, or `IOFailure` where it
/// cannot be stored.
pub open spec fn write_result(kind: ObjKind, payload: Seq<u8>) -> Result<Seq<u8>, Error> {
    if storable(kind, payload) {
        Ok(object_digest(kind, payload))
    } else {
        Err(Error::IOFailure)
    }
}

/// The store after an object was written to it: the object's compressed
/// form stands under its digest, in place of what stood there. A store to
/// which an object could not be written is as it was.
pub open spec fn store_with(store: Map<Seq<u8>, Seq<u8>>, kind: ObjKind, payload: Seq<u8>) -> Map<
    Seq<u8>,
    Seq<u8>,
> {
    if storable(kind, payload) {
        store.insert(object_digest(kind, payload), stored_form(kind, payload).unwrap())
    } else {
        store
    }
}

/// The value of a result that holds bytes.
pub open spec fn bytes_result(r: Result<Vec<u8>, Error>) -> Result<Seq<u8>, Error> {
    match r {
        Ok(v) => Ok(v@),
        Err(e) => Err(e),
    }
}

/// The value of a result that holds an object.
pub open spec fn object_result(r: Result<Object, Error>) -> Result<ObjectView, Error> {
    match r {
        Ok(o) => Ok(o@),
        Err(e) => Err(e),
    }
}

/// Writing an object a second time returns the same digest and leaves the
/// store as the first writing left it.
pub proof fn lemma_write_idempotent(store: Map<Seq<u8>, Seq<u8>>, kind: ObjKind, payload: Seq<u8>)
    ensures
        store_with(store_with(store, kind, payload), kind, payload) == store_with(
            store,
            kind,
            payload,
        ),
{
    assert(store_with(store_with(store, kind, payload), kind, payload) =~= store_with(
        store,
        kind,
        payload,
    ));
}

/// Objects with the same framed form have the same digest and the same
/// stored bytes.
pub proof fn lemma_same_encoding_same_digest(kind: ObjKind, payload: Seq<u8>, other_kind: ObjKind, other_payload: Seq<u8>)
    requires
        encoding(kind, payload) == encoding(other_kind, other_payload),
    ensures
        object_digest(kind, payload) == object_digest(other_kind, other_payload),
        stored_form(kind, payload) == stored_form(other_kind, other_payload),
        write_result(kind, payload) == write_result(other_kind, other_payload),
{
}

/// Frames, hashes and compresses an object, without storing it.
pub fn seal(kind: ObjKind, content: &[u8]) -> (sealed: Result<StoredObject, Error>)
    ensures
        match sealed {
            Ok(o) => storable(kind, content@) && o.digest@ == object_digest(kind, content@)
                && Some(o.data@) == stored_form(kind, content@) && o.digest@.len() == DIGEST_LEN,
            Err(e) => !storable(kind, content@) && e == Error::IOFailure,
        },
{
    let framed = encode(kind, content);
    if framed.len() as u64 >= MESSAGE_LIMIT {
        return Err(Error::IOFailure);
    }
    let digest = sha1(framed.as_slice());
    match deflate(framed.as_slice()) {
        Some(data) => Ok(StoredObject { digest, data }),
        None => Err(Error::IOFailure),
    }
}

/// Stores an object of the given kind and payload and returns its digest.
pub fn write_object(store: &mut ObjectStore, kind: ObjKind, content: &[u8]) -> (digest: Result<
    Vec<u8>,
    Error,
>)
    ensures
        bytes_result(digest) == write_result(kind, content@),
        final(store)@ == store_with(old(store)@, kind, content@),
        digest matches Ok(d) ==> d@.len() == DIGEST_LEN,
{
    match seal(kind, content) {
        Ok(sealed) => {
            let digest = copy_range(sealed.digest.as_slice(), 0, sealed.digest.len());
            assert(digest@ =~= sealed.digest@);
            store.insert(sealed.digest, sealed.data);
            Ok(digest)
        },
        Err(e) => Err(e),
    }
}

/// Stores `content` as a blob and returns its digest.
pub fn write_blob_object(store: &mut ObjectStore, content: &[u8]) -> (digest: Result<
    Vec<u8>,
    Error,
>)
    ensures
        bytes_result(digest) == write_result(ObjKind::Blob, content@),
        final(store)@ == store_with(old(store)@, ObjKind::Blob, content@),
        digest matches Ok(d) ==> d@.len() == DIGEST_LEN,
{
    write_object(store, ObjKind::Blob, content)
}

/// What stored bytes hold: `CorruptObject` where they do not decompress or
/// do not start with a header, `TruncatedObject` where the payload is
/// shorter than the header declares.
pub open spec fn object_in(data: Seq<u8>) -> Result<ObjectView, Error> {
    match zlib_inflated(data) {
        None => Err(Error::CorruptObject),
        Some(stream) => unpacked(stream),
    }
}

/// The object that decompressed bytes frame, with a header that cannot be
/// read reported as `CorruptObject`.
pub open spec fn unpacked(stream: Seq<u8>) -> Result<ObjectView, Error> {
    match object_of(stream) {
        Ok(o) => Ok(o),
        Err(Error::MalformedHeader) => Err(Error::CorruptObject),
        Err(e) => Err(e),
    }
}

/// The object kept under `digest`: `NotFound` where the store holds nothing
/// there, else what the bytes kept there hold.
pub open spec fn object_at(store: Map<Seq<u8>, Seq<u8>>, digest: Seq<u8>) -> Result<
    ObjectView,
    Error,
> {
    if store.contains_key(digest) {
        object_in(store[digest])
    } else {
        Err(Error::NotFound)
    }
}

/// The object kept under the digest that `text` writes in hexadecimal.
/// Text that writes no digest names no object: `NotFound`.
pub open spec fn object_named(store: Map<Seq<u8>, Seq<u8>>, text: Seq<u8>) -> Result<
    ObjectView,
    Error,
> {
    match digest_of_text(text) {
        Some(digest) => object_at(store, digest),
        None => Err(Error::NotFound),
    }
}

/// Reads the object that decompressed bytes frame.
pub fn unpack(stream: &[u8]) -> (object: Result<Object, Error>)
    ensures
        object_result(object) == unpacked(stream@),
{
    match parse_object(stream) {
        Ok(o) => Ok(o),
        Err(Error::MalformedHeader) => Err(Error::CorruptObject),
        Err(e) => Err(e),
    }
}

/// Reads the object kept under `digest`.
pub fn read_object(store: &ObjectStore, digest: &[u8]) -> (object: Result<Object, Error>)
    ensures
        object_result(object) == object_at(store@, digest@),
{
    match store.get(digest) {
        None => Err(Error::NotFound),
        Some(data) => match inflate(data.as_slice()) {
            None => Err(Error::CorruptObject),
            Some(stream) => unpack(stream.as_slice()),
        },
    }
}

/// Reads the object kept under the digest that `hash` writes in
/// hexadecimal.
pub fn read_obj_file(store: &ObjectStore, hash: &str) -> (object: Result<Object, Error>)
    ensures
        object_result(object) == object_named(store@, hash.spec_bytes()),
{
    match parse_digest(hash.as_bytes()) {
        Some(digest) => read_object(store, digest.as_slice()),
        None => Err(Error::NotFound),
    }
}

/// Where an object is kept below the root of the store: a directory named
/// by the first two hexadecimal digits of its digest, and in it a file named
/// by the other 38.
pub fn object_path(digest: &[u8]) -> (path: (String, String))
    requires
        digest@.len() == DIGEST_LEN,
    ensures
        path.0@ == ascii_chars(hex_text(digest@).take(2)),
        path.1@ == ascii_chars(hex_text(digest@).skip(2)),
{
    let head = slice_subrange(digest, 0, 1);
    let tail = slice_subrange(digest, 1, digest.len());
    let dir = head.to_hex_string();
    let file = tail.to_hex_string();
    assert(hex_text(head@) =~= hex_text(digest@).take(2));
    assert(hex_text(tail@) =~= hex_text(digest@).skip(2));
    (dir, file)
}

} // verus!
