//! A directory as a value, and the trees that are built from it.
//!
//! Whoever reads the file system hands over a directory as a list of
//! entries, in whatever order the system listed them. A symbolic link is
//! handed over as a file whose content is the link's target path, marked as
//! a link: its blob holds the path, not the bytes of what the path leads to.

use crate::bytes::{bytes_equal, copy_range, find_byte, occurs};
use crate::digest::DIGEST_LEN;
use crate::error::Error;
use crate::hex::{ascii_chars, hex_text, ToHex};
use crate::object::ObjKind;
use crate::store::{
    bytes_result, keep_all, object_digest, seal, storable, store_with, stored_form, ObjectStore,
    StoredObject,
};
use crate::tree::{
    distinct_names, entry_views, file_mode, get_mode, lemma_sort_order_independent, sort_entries,
    sort_tree, tree_content, tree_payload, Mode, TreeEntry, TreeObject,
};
use vstd::prelude::*;
use vstd::seq_lib::{lemma_multiset_commutative, to_multiset_len, to_multiset_remove};

verus! {

/// What stands under a name in a directory.
pub enum Node {
    /// A file that is no directory, with its permission bits. For a symbolic
    /// link, `content` is the target path of the link.
    File { content: Vec<u8>, permissions: u32, symlink: bool },
    /// A directory with its entries.
    Directory { entries: Vec<DirEntry> },
}

/// One entry of a directory: a name and what stands under it.
pub struct DirEntry {
    pub name: Vec<u8>,
    pub node: Node,
}

/// An object before it is stored: its kind and its payload.
pub struct Plain {
    pub kind: ObjKind,
    pub payload: Seq<u8>,
}

/// The names that are left out of every tree: the store's own directory
/// `.git`, and `target` and `.idea`.
pub open spec fn is_ignored(name: Seq<u8>) -> bool {
    ||| name == seq!['.' as u8, 'g' as u8, 'i' as u8, 't' as u8]
    ||| name == seq!['t' as u8, 'a' as u8, 'r' as u8, 'g' as u8, 'e' as u8, 't' as u8]
    ||| name == seq!['.' as u8, 'i' as u8, 'd' as u8, 'e' as u8, 'a' as u8]
}

/// The mode under which a node enters the tree of its directory.
pub open spec fn node_mode(node: Node) -> Mode {
    match node {
        Node::File { permissions, symlink, .. } => file_mode(symlink, permissions),
        Node::Directory { .. } => Mode::Directory,
    }
}

/// The digest of the object that a node is stored as: a blob of its content
/// for a file, the tree of its entries for a directory.
pub open spec fn node_digest(node: Node) -> Seq<u8>
    decreases node,
{
    match node {
        Node::File { content, .. } => object_digest(ObjKind::Blob, content@),
        Node::Directory { entries } => object_digest(
            ObjKind::Tree,
            tree_payload(sort_entries(records(entries@))),
        ),
    }
}

/// The tree entries of a directory, in the order of its listing: one for
/// each entry whose name is not ignored.
pub open spec fn records(entries: Seq<DirEntry>) -> Seq<TreeEntry>
    decreases entries,
{
    if entries.len() == 0 {
        Seq::empty()
    } else if is_ignored(entries.last().name@) {
        records(entries.drop_last())
    } else {
        records(entries.drop_last()).push(
            TreeEntry {
                mode: node_mode(entries.last().node),
                name: entries.last().name@,
                digest: node_digest(entries.last().node),
            },
        )
    }
}

/// The payload of the tree of a directory: the records of its entries,
/// sorted by name.
pub open spec fn directory_payload(entries: Seq<DirEntry>) -> Seq<u8> {
    tree_payload(sort_entries(records(entries)))
}

/// The digest of the tree of a directory.
pub open spec fn tree_digest(entries: Seq<DirEntry>) -> Seq<u8> {
    object_digest(ObjKind::Tree, directory_payload(entries))
}

/// The objects that a node is stored as, in the order in which they are
/// written: the blob of a file; for a directory, the objects of its entries
/// and its own tree behind them.
pub open spec fn node_objects(node: Node) -> Seq<Plain>
    decreases node,
{
    match node {
        Node::File { content, .. } => seq![Plain { kind: ObjKind::Blob, payload: content@ }],
        Node::Directory { entries } => member_objects(entries@).push(
            Plain { kind: ObjKind::Tree, payload: directory_payload(entries@) },
        ),
    }
}

/// The objects of the entries of a directory that are not ignored, in the
/// order of its listing.
pub open spec fn member_objects(entries: Seq<DirEntry>) -> Seq<Plain>
    decreases entries,
{
    if entries.len() == 0 {
        Seq::empty()
    } else if is_ignored(entries.last().name@) {
        member_objects(entries.drop_last())
    } else {
        member_objects(entries.drop_last()) + node_objects(entries.last().node)
    }
}

/// The objects that a directory is stored as: those of its entries, and its
/// tree behind them.
pub open spec fn tree_objects(entries: Seq<DirEntry>) -> Seq<Plain> {
    member_objects(entries).push(
        Plain { kind: ObjKind::Tree, payload: directory_payload(entries) },
    )
}

/// Whether the name of every entry that is not ignored, in the directory
/// and in the directories below it, is free of NUL bytes.
pub open spec fn names_valid(entries: Seq<DirEntry>) -> bool
    decreases entries,
{
    if entries.len() == 0 {
        true
    } else {
        names_valid(entries.drop_last()) && entry_valid(entries.last())
    }
}

/// Whether an entry is ignored, or has a name without NUL and, where it is
/// a directory, entries of which the same holds.
pub open spec fn entry_valid(entry: DirEntry) -> bool
    decreases entry,
{
    is_ignored(entry.name@) || (!occurs(entry.name@, 0) && match entry.node {
        Node::File { .. } => true,
        Node::Directory { entries } => names_valid(entries@),
    })
}

/// Whether every object of a list can be stored.
pub open spec fn all_storable(objects: Seq<Plain>) -> bool {
    forall|i: int| 0 <= i < objects.len() ==> storable(#[trigger] objects[i].kind, objects[i].payload)
}

/// The store after the objects of a list were written to it, one after the
/// other.
pub open spec fn store_with_all(store: Map<Seq<u8>, Seq<u8>>, objects: Seq<Plain>) -> Map<
    Seq<u8>,
    Seq<u8>,
>
    decreases objects.len(),
{
    if objects.len() == 0 {
        store
    } else {
        store_with(
            store_with_all(store, objects.drop_last()),
            objects.last().kind,
            objects.last().payload,
        )
    }
}

/// What building the tree of a directory returns: `InvalidEntry` where a
/// name holds a NUL, else `IOFailure` where one of its objects cannot be
/// stored, else the digest of its tree.
pub open spec fn tree_result(entries: Seq<DirEntry>) -> Result<Seq<u8>, Error> {
    if !names_valid(entries) {
        Err(Error::InvalidEntry)
    } else if !all_storable(tree_objects(entries)) {
        Err(Error::IOFailure)
    } else {
        Ok(tree_digest(entries))
    }
}

/// The store after the tree of a directory was built: with all its objects
/// where the tree was built, unchanged where it was not.
pub open spec fn store_with_tree(store: Map<Seq<u8>, Seq<u8>>, entries: Seq<DirEntry>) -> Map<
    Seq<u8>,
    Seq<u8>,
> {
    if tree_result(entries).is_ok() {
        store_with_all(store, tree_objects(entries))
    } else {
        store
    }
}

/// The records of two lists, one behind the other, are those of the first
/// and behind them those of the second.
pub proof fn lemma_records_concat(a: Seq<DirEntry>, b: Seq<DirEntry>)
    ensures
        records(a + b) == records(a) + records(b),
    decreases b.len(),
{
    if b.len() == 0 {
        assert(a + b =~= a);
        assert(records(a) + records(b) =~= records(a));
    } else {
        assert((a + b).drop_last() =~= a + b.drop_last());
        assert((a + b).last() == b.last());
        lemma_records_concat(a, b.drop_last());
        assert(records(a + b) =~= records(a) + records(b));
    }
}

/// The records of a list are those of the list without its entry at `k`,
/// and those of that entry.
pub proof fn lemma_records_without(entries: Seq<DirEntry>, k: int)
    requires
        0 <= k < entries.len(),
    ensures
        records(entries).to_multiset() == records(entries.remove(k)).to_multiset().add(
            records(seq![entries[k]]).to_multiset(),
        ),
{
    let front = entries.take(k);
    let one = seq![entries[k]];
    let back = entries.skip(k + 1);
    assert(entries =~= (front + one) + back);
    assert(entries.remove(k) =~= front + back);
    lemma_records_concat(front + one, back);
    lemma_records_concat(front, one);
    lemma_records_concat(front, back);
    lemma_multiset_commutative(records(front) + records(one), records(back));
    lemma_multiset_commutative(records(front), records(one));
    lemma_multiset_commutative(records(front), records(back));
    assert(records(entries).to_multiset() =~= records(entries.remove(k)).to_multiset().add(
        records(one).to_multiset(),
    ));
}

/// Two listings of the same entries have the same records, in whatever
/// order each holds them.
pub proof fn lemma_records_permuted(a: Seq<DirEntry>, b: Seq<DirEntry>)
    requires
        a.to_multiset() == b.to_multiset(),
    ensures
        records(a).to_multiset() == records(b).to_multiset(),
    decreases a.len(),
{
    to_multiset_len(a);
    to_multiset_len(b);
    if a.len() == 0 {
        assert(a =~= b);
    } else {
        let k = a.len() - 1;
        a.to_multiset_ensures();
        b.to_multiset_ensures();
        assert(a.contains(a[k]));
        assert(a.to_multiset().count(a[k]) > 0);
        assert(b.to_multiset().count(a[k]) > 0);
        assert(b.contains(a[k]));
        let j = choose|j: int| 0 <= j < b.len() && b[j] == a[k];
        to_multiset_remove(a, k);
        to_multiset_remove(b, j);
        lemma_records_permuted(a.remove(k), b.remove(j));
        lemma_records_without(a, k);
        lemma_records_without(b, j);
    }
}

/// Two listings of a directory whose records are the same, in whatever
/// order, give the same tree: the same payload under the same digest. The
/// records of a directory below agree where its own two listings do.
pub proof fn lemma_listing_order_irrelevant(a: Seq<DirEntry>, b: Seq<DirEntry>)
    requires
        distinct_names(records(a)),
        records(a).to_multiset() == records(b).to_multiset(),
    ensures
        directory_payload(a) == directory_payload(b),
        tree_digest(a) == tree_digest(b),
{
    lemma_sort_order_independent(records(a), records(b));
}

/// The tree of a directory does not depend on the order in which its
/// entries are listed: two listings of the same entries, with names that
/// differ from each other, give the same payload under the same digest.
pub proof fn lemma_tree_deterministic(a: Seq<DirEntry>, b: Seq<DirEntry>)
    requires
        distinct_names(records(a)),
        a.to_multiset() == b.to_multiset(),
    ensures
        directory_payload(a) == directory_payload(b),
        tree_digest(a) == tree_digest(b),
{
    lemma_records_permuted(a, b);
    lemma_listing_order_irrelevant(a, b);
}

/// In a directory with valid names, every entry is valid.
pub proof fn lemma_names_valid_each(entries: Seq<DirEntry>, i: int)
    requires
        names_valid(entries),
        0 <= i < entries.len(),
    ensures
        entry_valid(entries[i]),
    decreases entries.len(),
{
    if i < entries.len() - 1 {
        assert(entries.drop_last()[i] == entries[i]);
        lemma_names_valid_each(entries.drop_last(), i);
    }
}

/// The objects of the first entries of a directory are the first of the
/// objects of all its entries.
pub proof fn lemma_member_objects_prefix(entries: Seq<DirEntry>, k: int)
    requires
        0 <= k <= entries.len(),
    ensures
        member_objects(entries.take(k)).len() <= member_objects(entries).len(),
        member_objects(entries).take(member_objects(entries.take(k)).len() as int)
            == member_objects(entries.take(k)),
    decreases entries.len(),
{
    if k == entries.len() {
        assert(entries.take(k) =~= entries);
        assert(member_objects(entries).take(member_objects(entries).len() as int)
            =~= member_objects(entries));
    } else {
        let front = entries.drop_last();
        assert(front.take(k) =~= entries.take(k));
        lemma_member_objects_prefix(front, k);
        let n = member_objects(entries.take(k)).len() as int;
        assert(member_objects(entries).take(n) =~= member_objects(front).take(n));
    }
}

/// Whether stored objects are the sealed forms of the objects of a list,
/// one for one.
pub open spec fn sealed_list(sealed: Seq<StoredObject>, objects: Seq<Plain>) -> bool {
    &&& sealed.len() == objects.len()
    &&& forall|i: int|
        0 <= i < objects.len() ==> (#[trigger] sealed[i]).digest@ == object_digest(
            objects[i].kind,
            objects[i].payload,
        ) && Some(sealed[i].data@) == stored_form(objects[i].kind, objects[i].payload)
}

/// Keeping the sealed forms of objects that can be stored is writing the
/// objects.
pub proof fn lemma_keep_sealed(
    store: Map<Seq<u8>, Seq<u8>>,
    sealed: Seq<StoredObject>,
    objects: Seq<Plain>,
)
    requires
        sealed_list(sealed, objects),
        all_storable(objects),
    ensures
        keep_all(store, sealed) == store_with_all(store, objects),
    decreases objects.len(),
{
    if objects.len() > 0 {
        let s = sealed.drop_last();
        let o = objects.drop_last();
        assert forall|i: int| 0 <= i < o.len() implies (#[trigger] s[i]).digest@ == object_digest(
            o[i].kind,
            o[i].payload,
        ) && Some(s[i].data@) == stored_form(o[i].kind, o[i].payload) by {
            assert(s[i] == sealed[i] && o[i] == objects[i]);
        }
        assert forall|i: int| 0 <= i < o.len() implies storable(
            #[trigger] o[i].kind,
            o[i].payload,
        ) by {
            assert(o[i] == objects[i]);
        }
        lemma_keep_sealed(store, s, o);
        let k = objects.len() - 1;
        assert(sealed.last() == sealed[k] && objects.last() == objects[k]);
        assert(storable(objects[k].kind, objects[k].payload));
    }
}

/// Whether `name` is one of the names that are left out of every tree.
pub fn ignored(name: &[u8]) -> (skip: bool)
    ensures
        skip == is_ignored(name@),
{
    proof {
        reveal_strlit(".git");
        reveal_strlit("target");
        reveal_strlit(".idea");
        broadcast use vstd::string::is_ascii_spec_bytes;
    }
    let git = ".git";
    let target = "target";
    let idea = ".idea";
    assert(vstd::string::is_ascii(git) && vstd::string::is_ascii(target) && vstd::string::is_ascii(
        idea,
    ));
    let a = git.as_bytes();
    let b = target.as_bytes();
    let c = idea.as_bytes();
    assert(a@ =~= seq!['.' as u8, 'g' as u8, 'i' as u8, 't' as u8]);
    assert(b@ =~= seq!['t' as u8, 'a' as u8, 'r' as u8, 'g' as u8, 'e' as u8, 't' as u8]);
    assert(c@ =~= seq!['.' as u8, 'i' as u8, 'd' as u8, 'e' as u8, 'a' as u8]);
    bytes_equal(name, a) || bytes_equal(name, b) || bytes_equal(name, c)
}

/// Whether the names of a directory, and of the directories below it, are
/// free of NUL bytes, ignored entries apart.
pub fn check_names(entries: &Vec<DirEntry>) -> (ok: bool)
    ensures
        ok == names_valid(entries@),
    decreases entries,
{
    let mut i: usize = 0;
    assert(entries@.take(0) =~= Seq::<DirEntry>::empty());
    while i < entries.len()
        invariant
            i <= entries@.len(),
            names_valid(entries@.take(i as int)),
        decreases entries@.len() - i,
    {
        let entry = &entries[i];
        let ghost grown = entries@.take(i + 1);
        assert(grown.drop_last() =~= entries@.take(i as int));
        assert(grown.last() == entries@[i as int]);
        let mut ok: bool = true;
        if !ignored(entry.name.as_slice()) {
            let nul: usize = find_byte(entry.name.as_slice(), 0, 0);
            assert(entry.name@.skip(0) =~= entry.name@);
            if nul < entry.name.len() {
                ok = false;
            } else {
                match &entry.node {
                    Node::File { .. } => {},
                    Node::Directory { entries: children } => {
                        proof {
                            broadcast use vstd::std_specs::vec::axiom_vec_index_decreases;
                            assert(decreases_to!(*entries => entries[i as int]));
                            assert(decreases_to!(entries[i as int] => entries[i as int].node));
                        }
                        ok = check_names(children);
                    },
                }
            }
        }
        assert(ok == entry_valid(entries@[i as int]));
        if !ok {
            proof {
                if names_valid(entries@) {
                    lemma_names_valid_each(entries@, i as int);
                }
            }
            return false;
        }
        i += 1;
    }
    assert(entries@.take(entries@.len() as int) =~= entries@);
    true
}

/// Seals the objects of a directory behind those already in `out`, and
/// returns the digest of the directory's tree.
fn collect_tree(entries: &Vec<DirEntry>, out: &mut Vec<StoredObject>) -> (digest: Result<
    Vec<u8>,
    Error,
>)
    requires
        names_valid(entries@),
    ensures
        match digest {
            Ok(d) => {
                &&& all_storable(tree_objects(entries@))
                &&& d@ == tree_digest(entries@)
                &&& d@.len() == DIGEST_LEN
                &&& final(out)@.len() == old(out)@.len() + tree_objects(entries@).len()
                &&& final(out)@.take(old(out)@.len() as int) == old(out)@
                &&& sealed_list(final(out)@.skip(old(out)@.len() as int), tree_objects(entries@))
            },
            Err(e) => e == Error::IOFailure && !all_storable(tree_objects(entries@)),
        },
    decreases entries,
{
    let ghost base = out@;
    let ghost n0 = out@.len() as int;
    let mut listed: Vec<TreeObject> = Vec::new();
    let mut i: usize = 0;
    assert(entries@.take(0) =~= Seq::<DirEntry>::empty());
    assert(out@.take(n0) =~= base);
    while i < entries.len()
        invariant
            i <= entries@.len(),
            names_valid(entries@),
            base == old(out)@,
            n0 == base.len(),
            entry_views(listed@) == records(entries@.take(i as int)),
            out@.len() == n0 + member_objects(entries@.take(i as int)).len(),
            out@.take(n0) == base,
            sealed_list(out@.skip(n0), member_objects(entries@.take(i as int))),
            all_storable(member_objects(entries@.take(i as int))),
        decreases entries@.len() - i,
    {
        let entry = &entries[i];
        let ghost front = entries@.take(i as int);
        let ghost grown = entries@.take(i + 1);
        let ghost before = out@;
        let ghost done = member_objects(front);
        proof {
            assert(grown.drop_last() =~= front);
            assert(grown.last() == entries@[i as int]);
            lemma_names_valid_each(entries@, i as int);
            lemma_member_objects_prefix(entries@, i + 1);
        }
        if !ignored(entry.name.as_slice()) {
            let ghost fresh = node_objects(entry.node);
            assert(member_objects(grown) == done + fresh);
            let (mode, found) = match &entry.node {
                Node::File { content, permissions, symlink } => {
                    let found = match seal(ObjKind::Blob, content.as_slice()) {
                        Ok(sealed) => {
                            let digest = copy_range(
                                sealed.digest.as_slice(),
                                0,
                                sealed.digest.len(),
                            );
                            assert(digest@ =~= sealed.digest@);
                            out.push(sealed);
                            assert(out@.take(before.len() as int) =~= before);
                            assert(out@.skip(before.len() as int)[0] == sealed);
                            Ok(digest)
                        },
                        Err(e) => {
                            assert(!storable(fresh[0].kind, fresh[0].payload));
                            Err(e)
                        },
                    };
                    assert(found is Err ==> !all_storable(fresh));
                    assert(found matches Ok(d) ==> d@ == node_digest(entry.node) && d@.len()
                        == DIGEST_LEN);
                    (get_mode(*symlink, *permissions), found)
                },
                Node::Directory { entries: children } => {
                    proof {
                        broadcast use vstd::std_specs::vec::axiom_vec_index_decreases;
                        assert(decreases_to!(*entries => entries[i as int]));
                        assert(decreases_to!(entries[i as int] => entries[i as int].node));
                    }
                    assert(fresh == tree_objects(children@));
                    let found = collect_tree(children, out);
                    assert(found matches Ok(d) ==> d@ == node_digest(entry.node));
                    (Mode::Directory, found)
                },
            };
            assert(mode == node_mode(entry.node));
            let digest = match found {
                Ok(digest) => digest,
                Err(e) => {
                    proof {
                        let j = choose|j: int|
                            0 <= j < fresh.len() && !storable(
                                #[trigger] fresh[j].kind,
                                fresh[j].payload,
                            );
                        let at = done.len() + j;
                        assert(member_objects(grown)[at] == fresh[j]);
                        assert(member_objects(entries@).take(member_objects(grown).len() as int)[at]
                            == member_objects(entries@)[at]);
                        assert(tree_objects(entries@)[at] == fresh[j]);
                    }
                    return Err(e);
                },
            };
            proof {
                assert(out@.len() == before.len() + fresh.len());
                assert(out@.take(before.len() as int) == before);
                assert(sealed_list(out@.skip(before.len() as int), fresh));
                assert(out@.take(n0) =~= before.take(n0));
                let now = out@.skip(n0);
                let all = done + fresh;
                assert forall|j: int| 0 <= j < all.len() implies (#[trigger] now[j]).digest@
                    == object_digest(all[j].kind, all[j].payload) && Some(now[j].data@)
                    == stored_form(all[j].kind, all[j].payload) by {
                    if j < done.len() {
                        assert(now[j] == out@.take(before.len() as int)[n0 + j]);
                        assert(now[j] == before.skip(n0)[j]);
                    } else {
                        assert(now[j] == out@.skip(before.len() as int)[j - done.len()]);
                    }
                }
                assert forall|j: int| 0 <= j < all.len() implies storable(
                    #[trigger] all[j].kind,
                    all[j].payload,
                ) by {
                    if j < done.len() {
                        assert(all[j] == done[j]);
                    } else {
                        assert(all[j] == fresh[j - done.len()]);
                    }
                }
            }
            let name = copy_range(entry.name.as_slice(), 0, entry.name.len());
            assert(name@ =~= entry.name@);
            match TreeObject::new(mode, name, digest) {
                Ok(object) => {
                    let ghost so_far = entry_views(listed@);
                    listed.push(object);
                    assert(entry_views(listed@) =~= so_far.push(object@));
                },
                Err(_) => {
                    // Not reached: the name was checked, the digest is 20 bytes.
                    assert(false);
                    return Err(Error::IOFailure);
                },
            }
        }
        i += 1;
    }
    assert(entries@.take(entries@.len() as int) =~= entries@);
    let sorted = sort_tree(listed);
    let payload = tree_content(&sorted);
    let ghost members = member_objects(entries@);
    let ghost tree = Plain { kind: ObjKind::Tree, payload: directory_payload(entries@) };
    match seal(ObjKind::Tree, payload.as_slice()) {
        Ok(sealed) => {
            let digest = copy_range(sealed.digest.as_slice(), 0, sealed.digest.len());
            assert(digest@ =~= sealed.digest@);
            let ghost before = out@;
            out.push(sealed);
            proof {
                let all = tree_objects(entries@);
                let now = out@.skip(n0);
                assert(out@.take(n0) =~= before.take(n0));
                assert(now.len() == all.len());
                assert(now[members.len() as int] == sealed);
                assert(all[members.len() as int] == tree);
                assert(payload@ == directory_payload(entries@));
                assert forall|j: int| 0 <= j < all.len() implies (#[trigger] now[j]).digest@
                    == object_digest(all[j].kind, all[j].payload) && Some(now[j].data@)
                    == stored_form(all[j].kind, all[j].payload) by {
                    if j < members.len() {
                        assert(now[j] == before.skip(n0)[j]);
                        assert(all[j] == members[j]);
                    }
                }
                assert forall|j: int| 0 <= j < all.len() implies storable(
                    #[trigger] all[j].kind,
                    all[j].payload,
                ) by {
                    if j < members.len() {
                        assert(all[j] == members[j]);
                    }
                }
            }
            Ok(digest)
        },
        Err(e) => {
            proof {
                let all = tree_objects(entries@);
                assert(payload@ == directory_payload(entries@));
                assert(all[members.len() as int] == tree);
                assert(!storable(all[members.len() as int].kind, all[members.len() as int].payload));
            }
            Err(e)
        },
    }
}

/// Builds the tree of a directory from its listing, stores it with the
/// objects of everything in it, and returns its digest. Entries with an
/// ignored name are left out at every level. Where the tree cannot be built
/// the store stays as it was.
pub fn write_tree_for_path(store: &mut ObjectStore, entries: &Vec<DirEntry>) -> (digest: Result<
    Vec<u8>,
    Error,
>)
    ensures
        bytes_result(digest) == tree_result(entries@),
        final(store)@ == store_with_tree(old(store)@, entries@),
        digest matches Ok(d) ==> d@.len() == DIGEST_LEN,
{
    if !check_names(entries) {
        return Err(Error::InvalidEntry);
    }
    let mut sealed: Vec<StoredObject> = Vec::new();
    match collect_tree(entries, &mut sealed) {
        Ok(digest) => {
            proof {
                assert(sealed@.skip(0) =~= sealed@);
                lemma_keep_sealed(store@, sealed@, tree_objects(entries@));
            }
            store.insert_all(sealed);
            Ok(digest)
        },
        Err(e) => Err(e),
    }
}

/// Builds and stores the tree of a directory, and returns the hexadecimal
/// text of its digest.
pub fn write_tree(store: &mut ObjectStore, entries: &Vec<DirEntry>) -> (text: Result<String, Error>)
    ensures
        match text {
            Ok(t) => tree_result(entries@).is_ok() && t@ == ascii_chars(
                hex_text(tree_result(entries@).unwrap()),
            ),
            Err(e) => tree_result(entries@) == Err::<Seq<u8>, Error>(e),
        },
        final(store)@ == store_with_tree(old(store)@, entries@),
{
    match write_tree_for_path(store, entries) {
        Ok(digest) => Ok(digest.as_slice().to_hex_string()),
        Err(e) => Err(e),
    }
}

} // verus!
