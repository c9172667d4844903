//! What the commands print: the bytes of a blob, the listing of a tree, the
//! digest of what was stored.

use crate::bytes::{append_bytes, copy_range};
use crate::error::Error;
use crate::hex::{ascii_chars, hex_text, to_hex, ToHex};
use crate::object::{kind_name, ObjKind, Object, ObjectView};
use crate::store::{
    bytes_result, object_at, object_named, read_obj_file, read_object, store_with,
    write_blob_object, write_result, ObjectStore,
};
use crate::tree::{
    entry_views, mode_bytes, mode_text, parsed_tree, read_tree, Mode, TreeEntry, TreeObject,
};
use vstd::prelude::*;
use vstd::slice::slice_subrange;
use vstd::string::StringSliceAdditionalSpecFns;

verus! {

/// The payload of an object: as many of its bytes as the header declares,
/// or all of them where it holds fewer.
pub open spec fn payload_of(object: ObjectView) -> Seq<u8> {
    if object.size <= object.content.len() {
        object.content.take(object.size as int)
    } else {
        object.content
    }
}

/// What is printed for a blob: its payload. `WrongKind` for an object that
/// is no blob, `TruncatedObject` for one that holds fewer bytes than its
/// header declares.
pub open spec fn blob_output(object: ObjectView) -> Result<Seq<u8>, Error> {
    if object.kind != ObjKind::Blob {
        Err(Error::WrongKind { expected: ObjKind::Blob, found: object.kind })
    } else if object.content.len() < object.size {
        Err(Error::TruncatedObject)
    } else {
        Ok(object.content.take(object.size as int))
    }
}

/// The mode of an entry as a listing shows it: six digits, with a zero
/// before the five of a directory.
pub open spec fn mode_column(mode: Mode) -> Seq<u8> {
    match mode {
        Mode::Directory => seq!['0' as u8] + mode_text(mode),
        _ => mode_text(mode),
    }
}

/// The line of an entry in a listing of names: the name and a line feed.
pub open spec fn name_line(entry: TreeEntry) -> Seq<u8> {
    entry.name + seq!['\n' as u8]
}

/// The line of an entry in a full listing: the mode, the kind of the
/// entry's object, its digest in hexadecimal, a tab, the name, a line feed.
pub open spec fn entry_line(entry: TreeEntry, kind: ObjKind) -> Seq<u8> {
    mode_column(entry.mode) + seq![' ' as u8] + kind_name(kind) + seq![' ' as u8] + hex_text(
        entry.digest,
    ) + seq!['\t' as u8] + entry.name + seq!['\n' as u8]
}

/// The listing of the names of a tree's entries.
pub open spec fn names_listing(entries: Seq<TreeEntry>) -> Seq<u8>
    decreases entries.len(),
{
    if entries.len() == 0 {
        Seq::empty()
    } else {
        names_listing(entries.drop_last()) + name_line(entries.last())
    }
}

/// The full listing of a tree's entries. The kind of each entry is that of
/// the object that the store holds under the entry's digest; the listing
/// fails with the error of the first entry whose object cannot be read.
pub open spec fn full_listing(store: Map<Seq<u8>, Seq<u8>>, entries: Seq<TreeEntry>) -> Result<
    Seq<u8>,
    Error,
>
    decreases entries.len(),
{
    if entries.len() == 0 {
        Ok(Seq::empty())
    } else {
        match full_listing(store, entries.drop_last()) {
            Err(e) => Err(e),
            Ok(lines) => match object_at(store, entries.last().digest) {
                Err(e) => Err(e),
                Ok(o) => Ok(lines + entry_line(entries.last(), o.kind)),
            },
        }
    }
}

/// What is printed for a tree: the listing of its entries, of their names
/// alone where `name_only` is set. `WrongKind` for an object that is no
/// tree, `CorruptObject` for a payload that is not a sequence of entries.
pub open spec fn tree_output(store: Map<Seq<u8>, Seq<u8>>, object: ObjectView, name_only: bool)
    -> Result<Seq<u8>, Error> {
    if object.kind != ObjKind::Tree {
        Err(Error::WrongKind { expected: ObjKind::Tree, found: object.kind })
    } else {
        match parsed_tree(payload_of(object)) {
            None => Err(Error::CorruptObject),
            Some(entries) => if name_only {
                Ok(names_listing(entries))
            } else {
                full_listing(store, entries)
            },
        }
    }
}

/// What `cat_file` prints for the object that `hash` names: the listing of
/// a tree, the bytes of a blob. `Unsupported` without `pretty_print`; the
/// error of reading the object; `WrongKind` for a commit, as for any object
/// that is neither tree nor blob.
pub open spec fn cat_file_output(store: Map<Seq<u8>, Seq<u8>>, pretty_print: bool, hash: Seq<u8>)
    -> Result<Seq<u8>, Error> {
    if !pretty_print {
        Err(Error::Unsupported)
    } else {
        match object_named(store, hash) {
            Err(e) => Err(e),
            Ok(o) => if o.kind == ObjKind::Tree {
                tree_output(store, o, false)
            } else {
                blob_output(o)
            },
        }
    }
}

/// What `ls_tree` prints for the object that `hash` names: the listing of
/// the tree; the error of reading the object; `WrongKind` for an object
/// that is no tree.
pub open spec fn ls_tree_output(store: Map<Seq<u8>, Seq<u8>>, name_only: bool, hash: Seq<u8>)
    -> Result<Seq<u8>, Error> {
    match object_named(store, hash) {
        Err(e) => Err(e),
        Ok(o) => tree_output(store, o, name_only),
    }
}

/// The bytes to print for a blob.
pub fn print_blob_obj(object: &Object) -> (output: Result<Vec<u8>, Error>)
    ensures
        bytes_result(output) == blob_output(object@),
{
    if object.kind != ObjKind::Blob {
        return Err(Error::WrongKind { expected: ObjKind::Blob, found: object.kind });
    }
    if (object.content.len() as u64) < object.size {
        return Err(Error::TruncatedObject);
    }
    Ok(copy_range(object.content.as_slice(), 0, object.size as usize))
}

/// The mode of an entry as a listing shows it.
pub fn mode_column_bytes(mode: Mode) -> (column: Vec<u8>)
    ensures
        column@ == mode_column(mode),
{
    let mut column: Vec<u8> = Vec::new();
    match mode {
        Mode::Directory => {
            column.push('0' as u8);
        },
        _ => {},
    }
    append_bytes(&mut column, mode_bytes(mode));
    assert(column@ =~= mode_column(mode));
    column
}

fn append_name_line(output: &mut Vec<u8>, entry: &TreeObject)
    ensures
        final(output)@ == old(output)@ + name_line(entry@),
{
    append_bytes(output, entry.name().as_slice());
    output.push('\n' as u8);
    assert(output@ =~= old(output)@ + name_line(entry@));
}

fn append_entry_line(output: &mut Vec<u8>, entry: &TreeObject, kind: ObjKind)
    ensures
        final(output)@ == old(output)@ + entry_line(entry@, kind),
{
    let mut line: Vec<u8> = mode_column_bytes(entry.mode());
    line.push(' ' as u8);
    append_bytes(&mut line, kind.name_bytes());
    line.push(' ' as u8);
    append_bytes(&mut line, to_hex(entry.sha1().as_slice()).as_slice());
    line.push('\t' as u8);
    append_bytes(&mut line, entry.name().as_slice());
    line.push('\n' as u8);
    assert(line@ =~= entry_line(entry@, kind));
    append_bytes(output, line.as_slice());
}

/// The bytes to print for a tree: one line for each entry.
pub fn print_tree_obj(store: &ObjectStore, object: &Object, name_only: bool) -> (output: Result<
    Vec<u8>,
    Error,
>)
    ensures
        bytes_result(output) == tree_output(store@, object@, name_only),
{
    if object.kind != ObjKind::Tree {
        return Err(Error::WrongKind { expected: ObjKind::Tree, found: object.kind });
    }
    let payload = if object.size <= object.content.len() as u64 {
        slice_subrange(object.content.as_slice(), 0, object.size as usize)
    } else {
        object.content.as_slice()
    };
    assert(payload@ =~= payload_of(object@));
    let entries = match read_tree(payload) {
        Some(entries) => entries,
        None => {
            return Err(Error::CorruptObject);
        },
    };
    let ghost all = entry_views(entries@);
    let mut output: Vec<u8> = Vec::new();
    let mut i: usize = 0;
    assert(all.take(0) =~= Seq::<TreeEntry>::empty());
    while i < entries.len()
        invariant
            i <= entries@.len(),
            all == entry_views(entries@),
            object@.kind == ObjKind::Tree,
            parsed_tree(payload_of(object@)) == Some(all),
            name_only ==> output@ == names_listing(all.take(i as int)),
            !name_only ==> full_listing(store@, all.take(i as int)) == Ok::<Seq<u8>, Error>(
                output@,
            ),
        decreases entries@.len() - i,
    {
        let entry = &entries[i];
        let ghost front = all.take(i as int);
        let ghost grown = all.take(i + 1);
        assert(grown.drop_last() =~= front);
        assert(grown.last() == entry@);
        if name_only {
            append_name_line(&mut output, entry);
        } else {
            let kind = match read_object(store, entry.sha1().as_slice()) {
                Ok(found) => found.kind,
                Err(e) => {
                    proof {
                        lemma_listing_fails(store@, all, i + 1);
                    }
                    return Err(e);
                },
            };
            append_entry_line(&mut output, entry, kind);
        }
        i += 1;
    }
    assert(all.take(all.len() as int) =~= all);
    Ok(output)
}

/// A listing that fails for the first entries of a tree fails in the same
/// way for all of them.
pub proof fn lemma_listing_fails(store: Map<Seq<u8>, Seq<u8>>, entries: Seq<TreeEntry>, k: int)
    requires
        0 <= k <= entries.len(),
        full_listing(store, entries.take(k)).is_err(),
    ensures
        full_listing(store, entries) == full_listing(store, entries.take(k)),
    decreases entries.len(),
{
    if k == entries.len() {
        assert(entries.take(k) =~= entries);
    } else {
        assert(entries.drop_last().take(k) =~= entries.take(k));
        lemma_listing_fails(store, entries.drop_last(), k);
    }
}

/// The bytes that `cat-file` prints for the object that `hash` names.
pub fn cat_file(store: &ObjectStore, pretty_print: bool, hash: &str) -> (output: Result<
    Vec<u8>,
    Error,
>)
    ensures
        bytes_result(output) == cat_file_output(store@, pretty_print, hash.spec_bytes()),
{
    if !pretty_print {
        return Err(Error::Unsupported);
    }
    let object = match read_obj_file(store, hash) {
        Ok(object) => object,
        Err(e) => {
            return Err(e);
        },
    };
    match object.kind {
        ObjKind::Tree => print_tree_obj(store, &object, false),
        _ => print_blob_obj(&object),
    }
}

/// The bytes that `ls-tree` prints for the tree that `hash` names.
pub fn ls_tree(store: &ObjectStore, name_only: bool, hash: &str) -> (output: Result<
    Vec<u8>,
    Error,
>)
    ensures
        bytes_result(output) == ls_tree_output(store@, name_only, hash.spec_bytes()),
{
    match read_obj_file(store, hash) {
        Ok(object) => print_tree_obj(store, &object, name_only),
        Err(e) => Err(e),
    }
}

/// Stores `content` as a blob and returns the hexadecimal text of its
/// digest, which `hash-object` prints.
pub fn hash_object(store: &mut ObjectStore, content: &[u8]) -> (text: Result<String, Error>)
    ensures
        match text {
            Ok(t) => write_result(ObjKind::Blob, content@).is_ok() && t@ == ascii_chars(
                hex_text(write_result(ObjKind::Blob, content@).unwrap()),
            ),
            Err(e) => write_result(ObjKind::Blob, content@) == Err::<Seq<u8>, Error>(e),
        },
        final(store)@ == store_with(old(store)@, ObjKind::Blob, content@),
{
    match write_blob_object(store, content) {
        Ok(digest) => Ok(digest.as_slice().to_hex_string()),
        Err(e) => Err(e),
    }
}

} // verus!
