//! Trees: the entries of a directory, their order, and the payload that
//! lists them.

use crate::bytes::{
    append_bytes, bytes_equal, copy_range, find_byte, first_index, lemma_first_index,
    lemma_first_index_is, occurs,
};
use crate::digest::DIGEST_LEN;
use crate::error::Error;
use crate::object::ObjKind;
use crate::store::{bytes_result, store_with, write_object, write_result, ObjectStore};
use vstd::prelude::*;
use vstd::seq_lib::{to_multiset_insert, to_multiset_len, to_multiset_remove};
use vstd::slice::slice_subrange;

verus! {

/// What kind of directory member a tree entry is.
#[derive(Debug, Clone, Copy, PartialEq, Eq, Structural)]
pub enum Mode {
    /// A regular file: `100644`.
    Regular,
    /// A regular file that its owner may execute: `100755`.
    Executable,
    /// A symbolic link: `120000`.
    Symlink,
    /// A directory, held as a tree of its own: `40000`.
    Directory,
}

/// The code of a mode as it stands in a tree's payload.
pub open spec fn mode_text(mode: Mode) -> Seq<u8> {
    match mode {
        Mode::Regular => seq!['1' as u8, '0' as u8, '0' as u8, '6' as u8, '4' as u8, '4' as u8],
        Mode::Executable => seq!['1' as u8, '0' as u8, '0' as u8, '7' as u8, '5' as u8, '5' as u8],
        Mode::Symlink => seq!['1' as u8, '2' as u8, '0' as u8, '0' as u8, '0' as u8, '0' as u8],
        Mode::Directory => seq!['4' as u8, '0' as u8, '0' as u8, '0' as u8, '0' as u8],
    }
}

/// The mode that a code stands for, if it is one of the four codes.
pub open spec fn mode_of_text(text: Seq<u8>) -> Option<Mode> {
    if text == mode_text(Mode::Regular) {
        Some(Mode::Regular)
    } else if text == mode_text(Mode::Executable) {
        Some(Mode::Executable)
    } else if text == mode_text(Mode::Symlink) {
        Some(Mode::Symlink)
    } else if text == mode_text(Mode::Directory) {
        Some(Mode::Directory)
    } else {
        None
    }
}

/// A code stands for its mode, and holds neither a space nor a NUL.
pub proof fn lemma_mode_text(mode: Mode)
    ensures
        mode_of_text(mode_text(mode)) == Some(mode),
        forall|i: int|
            0 <= i < mode_text(mode).len() ==> mode_text(mode)[i] != 0 && mode_text(mode)[i]
                != ' ' as u8,
{
    assert(mode_text(Mode::Regular)[3] != mode_text(Mode::Executable)[3]);
    assert(mode_text(Mode::Regular)[1] != mode_text(Mode::Symlink)[1]);
    assert(mode_text(Mode::Executable)[1] != mode_text(Mode::Symlink)[1]);
    assert(mode_text(Mode::Directory).len() == 5);
    assert(mode_text(Mode::Regular).len() == 6);
    assert(mode_text(Mode::Executable).len() == 6);
    assert(mode_text(Mode::Symlink).len() == 6);
}

/// The mode of a file that is no directory: `Symlink` for a symbolic link,
/// else `Executable` where the owner's execute bit is set in the permission
/// bits, else `Regular`.
pub open spec fn file_mode(is_symlink: bool, permissions: u32) -> Mode {
    if is_symlink {
        Mode::Symlink
    } else if permissions & 0x40 != 0 {
        Mode::Executable
    } else {
        Mode::Regular
    }
}

/// The mode under which a file that is no directory enters a tree.
pub fn get_mode(is_symlink: bool, permissions: u32) -> (mode: Mode)
    ensures
        mode == file_mode(is_symlink, permissions),
{
    if is_symlink {
        Mode::Symlink
    } else if permissions & 0x40 != 0 {
        Mode::Executable
    } else {
        Mode::Regular
    }
}

/// One member of a directory, as a tree records it.
pub struct TreeEntry {
    pub mode: Mode,
    pub name: Seq<u8>,
    pub digest: Seq<u8>,
}

/// Whether an entry can be framed: its name holds no NUL, its digest is 20
/// bytes long.
pub open spec fn valid_entry(e: TreeEntry) -> bool {
    !occurs(e.name, 0) && e.digest.len() == DIGEST_LEN
}

/// Whether every entry of a list can be framed.
pub open spec fn valid_entries(entries: Seq<TreeEntry>) -> bool {
    forall|i: int| 0 <= i < entries.len() ==> valid_entry(#[trigger] entries[i])
}

/// The order of names: a name that is a proper prefix of another comes
/// before it, and two names of which neither is a prefix of the other stand
/// as their bytes do where they first differ.
///
/// Names are compared as they are: the name of a directory is not taken
/// with a `/` behind it, and that one name occurs somewhere inside another
/// plays no part.
pub open spec fn name_before(a: Seq<u8>, b: Seq<u8>) -> bool
    decreases a.len(),
{
    if b.len() == 0 {
        false
    } else if a.len() == 0 {
        true
    } else if a[0] != b[0] {
        a[0] < b[0]
    } else {
        name_before(a.drop_first(), b.drop_first())
    }
}

/// Of two names one comes before the other, or they are the same name:
/// exactly one of the three.
pub proof fn lemma_name_order_total(a: Seq<u8>, b: Seq<u8>)
    ensures
        name_before(a, b) || a == b || name_before(b, a),
        !(name_before(a, b) && name_before(b, a)),
        !(name_before(a, b) && a == b),
    decreases a.len(),
{
    if a.len() == 0 || b.len() == 0 {
        if a.len() == 0 && b.len() == 0 {
            assert(a =~= b);
        }
    } else if a[0] == b[0] {
        lemma_name_order_total(a.drop_first(), b.drop_first());
        if a.drop_first() == b.drop_first() {
            assert(a =~= seq![a[0]] + a.drop_first());
            assert(b =~= seq![b[0]] + b.drop_first());
        }
    }
}

/// The order of names is transitive.
pub proof fn lemma_name_order_transitive(a: Seq<u8>, b: Seq<u8>, c: Seq<u8>)
    requires
        name_before(a, b),
        name_before(b, c),
    ensures
        name_before(a, c),
    decreases a.len(),
{
    if a.len() > 0 && a[0] == b[0] && b[0] == c[0] {
        lemma_name_order_transitive(a.drop_first(), b.drop_first(), c.drop_first());
    }
}

/// A name comes before every name that it is a proper prefix of.
pub proof fn lemma_prefix_comes_first(a: Seq<u8>, b: Seq<u8>)
    requires
        a.len() < b.len(),
        b.take(a.len() as int) == a,
    ensures
        name_before(a, b),
    decreases a.len(),
{
    if a.len() > 0 {
        assert(a[0] == b.take(a.len() as int)[0]);
        assert(b.drop_first().take(a.len() - 1) =~= a.drop_first());
        lemma_prefix_comes_first(a.drop_first(), b.drop_first());
    }
}

/// Whether no entry of a list comes after one whose name it precedes.
pub open spec fn sorted_by_name(s: Seq<TreeEntry>) -> bool {
    forall|i: int, j: int| 0 <= i < j < s.len() ==> !name_before(#[trigger] s[j].name, #[trigger] s[i].name)
}

/// Whether the names of a list are pairwise different, as those of the
/// members of one directory are.
pub open spec fn distinct_names(s: Seq<TreeEntry>) -> bool {
    forall|i: int, j: int| 0 <= i < j < s.len() ==> #[trigger] s[i].name != #[trigger] s[j].name
}

/// Where an entry goes into a sorted list: before the first entry whose
/// name does not come before its own.
pub open spec fn insert_position(s: Seq<TreeEntry>, e: TreeEntry) -> int
    decreases s.len(),
{
    if s.len() == 0 {
        0
    } else if !name_before(s[0].name, e.name) {
        0
    } else {
        1 + insert_position(s.drop_first(), e)
    }
}

/// The entries of a list in the order of their names; entries of one name
/// stay in the order in which the list holds them.
pub open spec fn sort_entries(s: Seq<TreeEntry>) -> Seq<TreeEntry>
    decreases s.len(),
{
    if s.len() == 0 {
        s
    } else {
        let rest = sort_entries(s.drop_first());
        rest.insert(insert_position(rest, s[0]), s[0])
    }
}

/// The insert position lies within the list, behind every entry whose name
/// comes before the new one, and at an entry whose name does not.
pub proof fn lemma_insert_position(s: Seq<TreeEntry>, e: TreeEntry)
    ensures
        0 <= insert_position(s, e) <= s.len(),
        forall|j: int| 0 <= j < insert_position(s, e) ==> name_before(#[trigger] s[j].name, e.name),
        insert_position(s, e) < s.len() ==> !name_before(s[insert_position(s, e)].name, e.name),
    decreases s.len(),
{
    if s.len() > 0 && name_before(s[0].name, e.name) {
        let t = s.drop_first();
        lemma_insert_position(t, e);
        assert forall|j: int| 0 <= j < insert_position(s, e) implies name_before(
            #[trigger] s[j].name,
            e.name,
        ) by {
            if j > 0 {
                assert(s[j] == t[j - 1]);
                assert(name_before(t[j - 1].name, e.name));
            }
        }
        if insert_position(s, e) < s.len() {
            assert(s[insert_position(s, e)] == t[insert_position(t, e)]);
        }
    }
}

/// Inserting an entry at its position keeps a sorted list sorted.
pub proof fn lemma_insert_keeps_sorted(s: Seq<TreeEntry>, e: TreeEntry)
    requires
        sorted_by_name(s),
    ensures
        sorted_by_name(s.insert(insert_position(s, e), e)),
{
    let p = insert_position(s, e);
    let t = s.insert(p, e);
    lemma_insert_position(s, e);
    assert forall|i: int, j: int| 0 <= i < j < t.len() implies !name_before(
        #[trigger] t[j].name,
        #[trigger] t[i].name,
    ) by {
        if i == p {
            let late = s[j - 1];
            assert(t[j] == late);
            if name_before(late.name, e.name) {
                if j - 1 > p {
                    assert(!name_before(s[j - 1].name, s[p].name));
                    lemma_name_order_total(e.name, s[p].name);
                    if name_before(e.name, s[p].name) {
                        lemma_name_order_transitive(late.name, e.name, s[p].name);
                    }
                }
            }
        } else if j == p {
            assert(t[i] == s[i]);
            assert(name_before(s[i].name, e.name));
            lemma_name_order_total(s[i].name, e.name);
        } else {
            let a = if i < p { i } else { i - 1 };
            let b = if j < p { j } else { j - 1 };
            assert(t[i] == s[a] && t[j] == s[b]);
            assert(!name_before(s[b].name, s[a].name));
        }
    }
}

/// Sorting gives a sorted list of the same entries, each as often as the
/// list held it.
pub proof fn lemma_sort_entries(s: Seq<TreeEntry>)
    ensures
        sorted_by_name(sort_entries(s)),
        sort_entries(s).to_multiset() == s.to_multiset(),
        sort_entries(s).len() == s.len(),
    decreases s.len(),
{
    if s.len() > 0 {
        let rest = sort_entries(s.drop_first());
        lemma_sort_entries(s.drop_first());
        lemma_insert_position(rest, s[0]);
        lemma_insert_keeps_sorted(rest, s[0]);
        to_multiset_insert(rest, insert_position(rest, s[0]), s[0]);
        assert(s.drop_first() =~= s.remove(0));
        to_multiset_remove(s, 0);
        assert(s.to_multiset().count(s[0]) > 0) by {
            s.to_multiset_ensures();
            assert(s.contains(s[0]));
        }
        assert(s.to_multiset().remove(s[0]).insert(s[0]) =~= s.to_multiset());
    }
}

/// Two sorted lists of the same entries with pairwise different names are
/// the same list.
pub proof fn lemma_sorted_unique(x: Seq<TreeEntry>, y: Seq<TreeEntry>)
    requires
        sorted_by_name(x),
        sorted_by_name(y),
        distinct_names(x),
        x.to_multiset() == y.to_multiset(),
    ensures
        x == y,
    decreases x.len(),
{
    to_multiset_len(x);
    to_multiset_len(y);
    if x.len() == 0 {
        assert(x =~= y);
    } else {
        x.to_multiset_ensures();
        y.to_multiset_ensures();
        assert(y.contains(y[0]));
        assert(y.to_multiset().count(y[0]) > 0);
        assert(x.to_multiset().count(y[0]) > 0);
        assert(x.contains(y[0]));
        let i = choose|i: int| 0 <= i < x.len() && x[i] == y[0];
        assert(x.contains(x[0]));
        assert(x.to_multiset().count(x[0]) > 0);
        assert(y.to_multiset().count(x[0]) > 0);
        assert(y.contains(x[0]));
        let j = choose|j: int| 0 <= j < y.len() && y[j] == x[0];
        if i > 0 {
            assert(!name_before(x[i].name, x[0].name));
            if j > 0 {
                assert(!name_before(y[j].name, y[0].name));
            }
            lemma_name_order_total(x[0].name, y[0].name);
            assert(x[0].name == x[i].name);
        }
        assert(x[0] == y[0]);
        let xs = x.drop_first();
        let ys = y.drop_first();
        assert(xs =~= x.remove(0));
        assert(ys =~= y.remove(0));
        to_multiset_remove(x, 0);
        to_multiset_remove(y, 0);
        assert forall|a: int, b: int| 0 <= a < b < xs.len() implies !name_before(
            #[trigger] xs[b].name,
            #[trigger] xs[a].name,
        ) by {
            assert(xs[a] == x[a + 1] && xs[b] == x[b + 1]);
            assert(!name_before(x[b + 1].name, x[a + 1].name));
        }
        assert forall|a: int, b: int| 0 <= a < b < ys.len() implies !name_before(
            #[trigger] ys[b].name,
            #[trigger] ys[a].name,
        ) by {
            assert(ys[a] == y[a + 1] && ys[b] == y[b + 1]);
            assert(!name_before(y[b + 1].name, y[a + 1].name));
        }
        assert forall|a: int, b: int| 0 <= a < b < xs.len() implies #[trigger] xs[a].name
            != #[trigger] xs[b].name by {
            assert(xs[a] == x[a + 1] && xs[b] == x[b + 1]);
            assert(x[a + 1].name != x[b + 1].name);
        }
        lemma_sorted_unique(xs, ys);
        assert(x =~= seq![x[0]] + xs);
        assert(y =~= seq![y[0]] + ys);
    }
}

/// A list that holds the entries of a list of pairwise different names has
/// pairwise different names too.
pub proof fn lemma_distinct_names_permuted(a: Seq<TreeEntry>, b: Seq<TreeEntry>)
    requires
        distinct_names(a),
        a.to_multiset() == b.to_multiset(),
    ensures
        distinct_names(b),
{
    assert(a.no_duplicates()) by {
        assert forall|i: int, j: int| 0 <= i < a.len() && 0 <= j < a.len() && i != j implies a[i]
            != a[j] by {
            if i < j {
                assert(a[i].name != a[j].name);
            } else {
                assert(a[j].name != a[i].name);
            }
        }
    }
    a.lemma_multiset_has_no_duplicates();
    b.lemma_multiset_has_no_duplicates_conv();
    a.to_multiset_ensures();
    b.to_multiset_ensures();
    assert forall|i: int, j: int| 0 <= i < j < b.len() implies #[trigger] b[i].name
        != #[trigger] b[j].name by {
        if b[i].name == b[j].name {
            assert(b.contains(b[i]));
            assert(b.contains(b[j]));
            assert(b.to_multiset().count(b[i]) > 0);
            assert(b.to_multiset().count(b[j]) > 0);
            assert(a.to_multiset().count(b[i]) > 0);
            assert(a.to_multiset().count(b[j]) > 0);
            assert(a.contains(b[i]));
            assert(a.contains(b[j]));
            let p = choose|p: int| 0 <= p < a.len() && a[p] == b[i];
            let q = choose|q: int| 0 <= q < a.len() && a[q] == b[j];
            if p < q {
                assert(a[p].name != a[q].name);
            } else if q < p {
                assert(a[q].name != a[p].name);
            }
            assert(b[i] == b[j]);
        }
    }
}

/// The sorted order of the members of a directory does not depend on the
/// order in which they were listed.
pub proof fn lemma_sort_order_independent(a: Seq<TreeEntry>, b: Seq<TreeEntry>)
    requires
        distinct_names(a),
        a.to_multiset() == b.to_multiset(),
    ensures
        sort_entries(a) == sort_entries(b),
{
    lemma_sort_entries(a);
    lemma_sort_entries(b);
    lemma_distinct_names_permuted(a, sort_entries(a));
    lemma_sorted_unique(sort_entries(a), sort_entries(b));
}

/// The record of one entry in a tree's payload: the mode's code, a space,
/// the name, a NUL, the raw digest.
pub open spec fn entry_record(e: TreeEntry) -> Seq<u8> {
    mode_text(e.mode) + seq![' ' as u8] + e.name + seq![0u8] + e.digest
}

/// The payload of a tree that lists `entries` in this order: their records,
/// one behind the other with nothing between them.
pub open spec fn tree_payload(entries: Seq<TreeEntry>) -> Seq<u8>
    decreases entries.len(),
{
    if entries.len() == 0 {
        Seq::empty()
    } else {
        entry_record(entries[0]) + tree_payload(entries.drop_first())
    }
}

/// The payload of a list with one more entry at its end is that of the list
/// with the record of the entry behind it.
pub proof fn lemma_tree_payload_push(entries: Seq<TreeEntry>, e: TreeEntry)
    ensures
        tree_payload(entries.push(e)) == tree_payload(entries) + entry_record(e),
    decreases entries.len(),
{
    let grown = entries.push(e);
    if entries.len() == 0 {
        assert(grown.drop_first() =~= entries);
        assert(tree_payload(grown) == entry_record(e) + tree_payload(entries));
        assert(tree_payload(grown) =~= tree_payload(entries) + entry_record(e));
    } else {
        assert(grown.drop_first() =~= entries.drop_first().push(e));
        lemma_tree_payload_push(entries.drop_first(), e);
        assert(tree_payload(grown) =~= tree_payload(entries) + entry_record(e));
    }
}

/// The entries that a tree's payload lists, or nothing where the payload is
/// not a sequence of records: a mode's code up to the first space, a name up
/// to the next NUL, then 20 bytes of digest, and so on to the end.
pub open spec fn parsed_tree(payload: Seq<u8>) -> Option<Seq<TreeEntry>>
    decreases payload.len(),
{
    if payload.len() == 0 {
        Some(Seq::empty())
    } else {
        let space = first_index(payload, ' ' as u8);
        let rest = payload.skip(space + 1);
        let end = first_index(rest, 0);
        let after = rest.skip(end + 1);
        if space == payload.len() || end == rest.len() || after.len() < DIGEST_LEN {
            None
        } else {
            proof {
                lemma_first_index(payload, ' ' as u8);
                lemma_first_index(rest, 0);
            }
            match (mode_of_text(payload.take(space)), parsed_tree(after.skip(DIGEST_LEN as int))) {
                (Some(mode), Some(more)) => Some(
                    seq![TreeEntry { mode, name: rest.take(end), digest: after.take(DIGEST_LEN as int) }]
                        + more,
                ),
                _ => None,
            }
        }
    }
}

/// Reading the payload of a list of entries that can be framed gives the
/// list back.
pub proof fn lemma_parse_payload(entries: Seq<TreeEntry>)
    requires
        valid_entries(entries),
    ensures
        parsed_tree(tree_payload(entries)) == Some(entries),
    decreases entries.len(),
{
    if entries.len() > 0 {
        let e = entries[0];
        let more = entries.drop_first();
        let payload = tree_payload(entries);
        let code = mode_text(e.mode);
        assert(valid_entry(e));
        assert forall|i: int| 0 <= i < more.len() implies valid_entry(#[trigger] more[i]) by {
            assert(more[i] == entries[i + 1]);
        }
        lemma_parse_payload(more);
        lemma_mode_text(e.mode);
        lemma_first_index(e.name, 0);
        let m = code.len() as int;
        assert forall|i: int| 0 <= i < m implies payload[i] != ' ' as u8 by {
            assert(payload[i] == code[i]);
        }
        assert(payload[m] == ' ' as u8);
        lemma_first_index_is(payload, ' ' as u8, m);
        assert(payload.take(m) =~= code);
        let rest = payload.skip(m + 1);
        let n = e.name.len() as int;
        assert forall|i: int| 0 <= i < n implies rest[i] != 0 by {
            assert(rest[i] == e.name[i]);
        }
        assert(rest[n] == 0);
        lemma_first_index_is(rest, 0, n);
        assert(rest.take(n) =~= e.name);
        let after = rest.skip(n + 1);
        assert(after =~= e.digest + tree_payload(more));
        assert(after.take(DIGEST_LEN as int) =~= e.digest);
        assert(after.skip(DIGEST_LEN as int) =~= tree_payload(more));
        assert(seq![e] + more =~= entries);
    } else {
        assert(entries =~= Seq::<TreeEntry>::empty());
    }
}

/// What a payload lists can be framed, and framing it gives the payload.
pub proof fn lemma_payload_of_parsed(payload: Seq<u8>)
    requires
        parsed_tree(payload).is_some(),
    ensures
        valid_entries(parsed_tree(payload).unwrap()),
        tree_payload(parsed_tree(payload).unwrap()) == payload,
    decreases payload.len(),
{
    if payload.len() > 0 {
        let space = first_index(payload, ' ' as u8);
        let rest = payload.skip(space + 1);
        let end = first_index(rest, 0);
        let after = rest.skip(end + 1);
        lemma_first_index(payload, ' ' as u8);
        lemma_first_index(rest, 0);
        let mode = mode_of_text(payload.take(space)).unwrap();
        let name = rest.take(end);
        let digest = after.take(DIGEST_LEN as int);
        let e = TreeEntry { mode, name, digest };
        let more = parsed_tree(after.skip(DIGEST_LEN as int)).unwrap();
        lemma_payload_of_parsed(after.skip(DIGEST_LEN as int));
        let entries = parsed_tree(payload).unwrap();
        assert(entries == seq![e] + more);
        assert(entries.drop_first() =~= more);
        assert forall|i: int| 0 <= i < name.len() implies name[i] != 0 by {
            assert(name[i] == rest[i]);
        }
        lemma_first_index_is(name, 0, name.len() as int);
        assert forall|i: int| 0 <= i < entries.len() implies valid_entry(#[trigger] entries[i]) by {
            if i > 0 {
                assert(entries[i] == more[i - 1]);
            }
        }
        assert(mode_text(mode) == payload.take(space));
        assert(tree_payload(entries) =~= payload);
    } else {
        assert(payload =~= Seq::<u8>::empty());
    }
}

/// One member of a directory as a tree records it: a mode, a name without
/// NUL, and the 20 bytes of the digest of the member's object.
pub struct TreeObject {
    mode: Mode,
    name: Vec<u8>,
    sha1: Vec<u8>,
}

impl View for TreeObject {
    type V = TreeEntry;

    closed spec fn view(&self) -> TreeEntry {
        TreeEntry { mode: self.mode, name: self.name@, digest: self.sha1@ }
    }
}

/// The entries that a list of tree objects stands for.
pub open spec fn entry_views(entries: Seq<TreeObject>) -> Seq<TreeEntry> {
    entries.map_values(|t: TreeObject| t@)
}

impl TreeObject {
    #[verifier::type_invariant]
    closed spec fn well_formed(self) -> bool {
        valid_entry(self@)
    }

    /// An entry of the given mode, name and digest; `InvalidEntry` where the
    /// name holds a NUL or the digest is not 20 bytes long.
    pub fn new(mode: Mode, name: Vec<u8>, sha1: Vec<u8>) -> (entry: Result<TreeObject, Error>)
        ensures
            match entry {
                Ok(t) => t@ == (TreeEntry { mode, name: name@, digest: sha1@ }) && valid_entry(t@),
                Err(e) => e == Error::InvalidEntry && !valid_entry(
                    TreeEntry { mode, name: name@, digest: sha1@ },
                ),
            },
    {
        let nul: usize = find_byte(name.as_slice(), 0, 0);
        assert(name@.skip(0) =~= name@);
        if nul < name.len() || sha1.len() != DIGEST_LEN {
            Err(Error::InvalidEntry)
        } else {
            Ok(TreeObject { mode, name, sha1 })
        }
    }

    /// The entry's mode.
    pub fn mode(&self) -> (mode: Mode)
        ensures
            mode == self@.mode,
            valid_entry(self@),
    {
        proof {
            use_type_invariant(self);
        }
        self.mode
    }

    /// The entry's name.
    pub fn name(&self) -> (name: &Vec<u8>)
        ensures
            name@ == self@.name,
            valid_entry(self@),
    {
        proof {
            use_type_invariant(self);
        }
        &self.name
    }

    /// The digest of the entry's object.
    pub fn sha1(&self) -> (digest: &Vec<u8>)
        ensures
            digest@ == self@.digest,
            valid_entry(self@),
    {
        proof {
            use_type_invariant(self);
        }
        &self.sha1
    }
}

/// Whether the name `a` comes before the name `b`.
pub fn name_lt(a: &[u8], b: &[u8]) -> (before: bool)
    ensures
        before == name_before(a@, b@),
{
    let mut i: usize = 0;
    assert(a@.skip(0) =~= a@ && b@.skip(0) =~= b@);
    while i < a.len() && i < b.len()
        invariant
            i <= a@.len(),
            i <= b@.len(),
            name_before(a@, b@) == name_before(a@.skip(i as int), b@.skip(i as int)),
        decreases a@.len() - i,
    {
        let ghost x = a@.skip(i as int);
        let ghost y = b@.skip(i as int);
        assert(x[0] == a@[i as int] && y[0] == b@[i as int]);
        if a[i] != b[i] {
            return a[i] < b[i];
        }
        assert(x.drop_first() =~= a@.skip(i + 1));
        assert(y.drop_first() =~= b@.skip(i + 1));
        i += 1;
    }
    i < b.len()
}

/// The code of a mode.
pub fn mode_bytes(mode: Mode) -> (code: &'static [u8])
    ensures
        code@ == mode_text(mode),
{
    proof {
        reveal_strlit("100644");
        reveal_strlit("100755");
        reveal_strlit("120000");
        reveal_strlit("40000");
    }
    let text: &'static str = match mode {
        Mode::Regular => "100644",
        Mode::Executable => "100755",
        Mode::Symlink => "120000",
        Mode::Directory => "40000",
    };
    let code = text.as_bytes();
    proof {
        broadcast use vstd::string::is_ascii_spec_bytes;
        assert(vstd::string::is_ascii(text));
        assert(code@ =~= mode_text(mode));
    }
    code
}

/// The mode that `code` stands for, if it is one of the four codes.
pub fn mode_from_bytes(code: &[u8]) -> (mode: Option<Mode>)
    ensures
        mode == mode_of_text(code@),
{
    if bytes_equal(code, mode_bytes(Mode::Regular)) {
        Some(Mode::Regular)
    } else if bytes_equal(code, mode_bytes(Mode::Executable)) {
        Some(Mode::Executable)
    } else if bytes_equal(code, mode_bytes(Mode::Symlink)) {
        Some(Mode::Symlink)
    } else if bytes_equal(code, mode_bytes(Mode::Directory)) {
        Some(Mode::Directory)
    } else {
        None
    }
}

/// Puts the entries of a directory into the order of their names.
pub fn sort_tree(entries: Vec<TreeObject>) -> (sorted: Vec<TreeObject>)
    ensures
        entry_views(sorted@) == sort_entries(entry_views(entries@)),
{
    let ghost all = entry_views(entries@);
    let mut pending = entries;
    let mut sorted: Vec<TreeObject> = Vec::new();
    assert(all.skip(all.len() as int) =~= Seq::<TreeEntry>::empty());
    assert(entry_views(pending@).take(pending@.len() as int) =~= entry_views(pending@));
    while pending.len() > 0
        invariant
            pending@.len() <= all.len(),
            entry_views(pending@) == all.take(pending@.len() as int),
            entry_views(sorted@) == sort_entries(all.skip(pending@.len() as int)),
        decreases pending@.len(),
    {
        let ghost k = pending@.len() - 1;
        let ghost before = entry_views(pending@);
        let ghost rest = entry_views(sorted@);
        let entry = pending.pop().unwrap();
        assert(entry@ == all[k]) by {
            assert(before[k] == all.take(k + 1)[k]);
        }
        assert(entry_views(pending@) =~= all.take(k));
        assert(all.skip(k).drop_first() =~= all.skip(k + 1));
        assert(all.skip(k)[0] == all[k]);
        let mut i: usize = 0;
        assert(rest.skip(0) =~= rest);
        while i < sorted.len() && name_lt(sorted[i].name().as_slice(), entry.name().as_slice())
            invariant
                i <= sorted@.len(),
                rest == entry_views(sorted@),
                insert_position(rest, entry@) == i + insert_position(rest.skip(i as int), entry@),
            decreases sorted@.len() - i,
        {
            assert(rest.skip(i as int)[0] == rest[i as int]);
            assert(rest.skip(i as int).drop_first() =~= rest.skip(i + 1));
            i += 1;
        }
        proof {
            if i < sorted@.len() {
                assert(rest.skip(i as int)[0] == rest[i as int]);
            }
        }
        sorted.insert(i, entry);
        assert(entry_views(sorted@) =~= rest.insert(i as int, entry@));
    }
    assert(all.skip(0) =~= all);
    sorted
}

/// The payload of the tree that lists `entries` in the order given.
pub fn tree_content(entries: &Vec<TreeObject>) -> (payload: Vec<u8>)
    ensures
        payload@ == tree_payload(entry_views(entries@)),
{
    let ghost all = entry_views(entries@);
    let mut payload: Vec<u8> = Vec::new();
    let mut i: usize = 0;
    assert(all.take(0) =~= Seq::<TreeEntry>::empty());
    while i < entries.len()
        invariant
            i <= entries@.len(),
            all == entry_views(entries@),
            payload@ == tree_payload(all.take(i as int)),
        decreases entries@.len() - i,
    {
        let entry = &entries[i];
        let ghost front = all.take(i as int);
        append_bytes(&mut payload, mode_bytes(entry.mode()));
        payload.push(' ' as u8);
        append_bytes(&mut payload, entry.name().as_slice());
        payload.push(0);
        append_bytes(&mut payload, entry.sha1().as_slice());
        proof {
            lemma_tree_payload_push(front, entry@);
            assert(front.push(entry@) =~= all.take(i + 1));
            assert(payload@ =~= tree_payload(front) + entry_record(entry@));
        }
        i += 1;
    }
    assert(all.take(all.len() as int) =~= all);
    payload
}

/// What a list of entries and what is read behind it make together.
pub open spec fn entries_and(front: Seq<TreeEntry>, rest: Option<Seq<TreeEntry>>) -> Option<
    Seq<TreeEntry>,
> {
    match rest {
        Some(more) => Some(front + more),
        None => None,
    }
}

/// Reads the entries that a tree's payload lists; nothing where the payload
/// is not a sequence of records.
pub fn read_tree(payload: &[u8]) -> (entries: Option<Vec<TreeObject>>)
    ensures
        match entries {
            Some(list) => parsed_tree(payload@) == Some(entry_views(list@)),
            None => parsed_tree(payload@).is_none(),
        },
{
    let mut list: Vec<TreeObject> = Vec::new();
    let mut at: usize = 0;
    assert(payload@.skip(0) =~= payload@);
    assert(Seq::<TreeEntry>::empty() + parsed_tree(payload@).unwrap() =~= parsed_tree(
        payload@,
    ).unwrap());
    while at < payload.len()
        invariant
            at <= payload@.len(),
            parsed_tree(payload@) == entries_and(
                entry_views(list@),
                parsed_tree(payload@.skip(at as int)),
            ),
        decreases payload@.len() - at,
    {
        let ghost stream = payload@.skip(at as int);
        let ghost front = entry_views(list@);
        let space: usize = find_byte(payload, at, ' ' as u8);
        if space == payload.len() {
            return None;
        }
        let name_start: usize = space + 1;
        let ghost rest = stream.skip(space - at + 1);
        assert(rest =~= payload@.skip(name_start as int));
        let end: usize = find_byte(payload, name_start, 0);
        if end == payload.len() {
            return None;
        }
        let digest_start: usize = end + 1;
        let ghost after = rest.skip(end - name_start + 1);
        assert(after =~= payload@.skip(digest_start as int));
        if payload.len() - digest_start < DIGEST_LEN {
            return None;
        }
        let next: usize = digest_start + DIGEST_LEN;
        let code = slice_subrange(payload, at, space);
        assert(code@ =~= stream.take(space - at));
        let mode = match mode_from_bytes(code) {
            Some(mode) => mode,
            None => {
                return None;
            },
        };
        let name = copy_range(payload, name_start, end);
        let sha1 = copy_range(payload, digest_start, next);
        assert(name@ =~= rest.take(end - name_start));
        assert(sha1@ =~= after.take(DIGEST_LEN as int));
        assert(after.skip(DIGEST_LEN as int) =~= payload@.skip(next as int));
        proof {
            lemma_first_index(rest, 0);
            assert forall|i: int| 0 <= i < name@.len() implies name@[i] != 0 by {
                assert(name@[i] == rest[i]);
            }
            lemma_first_index_is(name@, 0, name@.len() as int);
        }
        let ghost entry = TreeEntry { mode, name: name@, digest: sha1@ };
        let ghost tail = parsed_tree(payload@.skip(next as int));
        assert(parsed_tree(stream) == entries_and(seq![entry], tail));
        let object = TreeObject { mode, name, sha1 };
        assert(object@ == entry);
        list.push(object);
        assert(entry_views(list@) =~= front.push(entry));
        proof {
            if tail.is_some() {
                assert(front + (seq![entry] + tail.unwrap()) =~= front.push(entry) + tail.unwrap());
            }
        }
        at = next;
    }
    assert(payload@.skip(at as int) =~= Seq::<u8>::empty());
    assert(entry_views(list@) + Seq::<TreeEntry>::empty() =~= entry_views(list@));
    Some(list)
}

/// Stores the tree that lists `tree_content`, sorted by name, and returns
/// its digest.
pub fn write_tree_obj(store: &mut ObjectStore, tree_content: Vec<TreeObject>) -> (digest: Result<
    Vec<u8>,
    Error,
>)
    ensures
        bytes_result(digest) == write_result(
            ObjKind::Tree,
            tree_payload(sort_entries(entry_views(tree_content@))),
        ),
        final(store)@ == store_with(
            old(store)@,
            ObjKind::Tree,
            tree_payload(sort_entries(entry_views(tree_content@))),
        ),
        digest matches Ok(d) ==> d@.len() == DIGEST_LEN,
{
    let sorted = sort_tree(tree_content);
    let payload = self::tree_content(&sorted);
    write_object(store, ObjKind::Tree, payload.as_slice())
}

} // verus!
