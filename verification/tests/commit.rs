use git_objects::commit::{append_timestamp, build_commit, commit_tree, Timestamp};
use git_objects::error::Error;
use git_objects::hex::ToHex;
use git_objects::object::ObjKind;
use git_objects::store::{read_object, write_object, ObjectStore};
use git_objects::tree::{write_tree_obj, Mode, TreeObject};

const TREE: &str = "d55cfd19bde58cc35ef943b45d66929517e3b3b6";
const HELLO: &str = "ce013625030ba8dba906f756967f9e9ca394464a";

fn store_with_tree() -> ObjectStore {
    let mut store = ObjectStore::new();
    let blob = write_object(&mut store, ObjKind::Blob, b"hello\n").unwrap();
    let entries = ["a", "ab", "b"]
        .iter()
        .map(|n| TreeObject::new(Mode::Regular, n.as_bytes().to_vec(), blob.clone()).unwrap())
        .collect();
    write_tree_obj(&mut store, entries).unwrap();
    store
}

fn stamp(seconds: i64, offset: i32) -> String {
    let mut out = Vec::new();
    append_timestamp(&mut out, &Timestamp::new(seconds, offset).unwrap());
    String::from_utf8(out).unwrap()
}

#[test]
fn a_time_is_seconds_and_signed_hours_and_minutes() {
    assert_eq!(stamp(1700000000, 19800), "1700000000 +0530");
    assert_eq!(stamp(0, 0), "0 +0000");
    assert_eq!(stamp(-5, -28800), "-5 -0800");
    assert_eq!(stamp(i64::MIN, -1), "-9223372036854775808 -0000");
    assert_eq!(stamp(i64::MAX, 86399), "9223372036854775807 +2400");
    assert_eq!(stamp(1, 3629), "1 +0100");
    assert_eq!(stamp(1, 3630), "1 +0101");
    assert_eq!(stamp(1, -45 * 60), "1 -0045");
}

#[test]
fn an_offset_of_a_day_is_no_offset() {
    assert!(Timestamp::new(0, 86400).is_none());
    assert!(Timestamp::new(0, -86400).is_none());
    assert!(Timestamp::new(0, i32::MIN).is_none());
    let when = Timestamp::new(12, -86399).unwrap();
    assert_eq!(when.seconds(), 12);
    assert_eq!(when.offset(), -86399);
}

#[test]
fn a_commit_without_parent_has_four_lines_and_the_message() {
    let when = Timestamp::new(1700000000, 19800).unwrap();
    let payload = build_commit(TREE, None, &when, "first");
    let expected = format!(
        "tree {}\nauthor Test User <test@email.com> 1700000000 +0530\ncommitter Test User <test@email.com> 1700000000 +0530\n\nfirst\n",
        TREE
    );
    assert_eq!(String::from_utf8(payload).unwrap(), expected);
}

#[test]
fn a_commit_with_parent_names_it_behind_the_tree() {
    let when = Timestamp::new(-5, -28800).unwrap();
    let parent = "1".repeat(40);
    let payload = build_commit(TREE, Some(&parent), &when, "second");
    let expected = format!(
        "tree {}\nparent {}\nauthor Test User <test@email.com> -5 -0800\ncommitter Test User <test@email.com> -5 -0800\n\nsecond\n",
        TREE, parent
    );
    assert_eq!(String::from_utf8(payload).unwrap(), expected);
}

#[test]
fn a_commit_of_a_tree_is_stored() {
    let mut store = store_with_tree();
    let before = store.entries().len();
    let when = Timestamp::new(1700000000, 19800).unwrap();
    let digest = commit_tree(&mut store, TREE, "first", None, &when).unwrap();
    assert_eq!((&digest[..]).to_hex_string(), "deaec2d76c2d5f538d6884cbf61cd27e020c9f0c");
    assert_eq!(store.entries().len(), before + 1);
    let commit = read_object(&store, &digest).unwrap();
    assert_eq!(commit.kind, ObjKind::Commit);
    assert_eq!(commit.content, build_commit(TREE, None, &when, "first"));
    let parent = "1".repeat(40);
    let when = Timestamp::new(-5, -28800).unwrap();
    let second = commit_tree(&mut store, TREE, "second", Some(&parent), &when).unwrap();
    assert_eq!((&second[..]).to_hex_string(), "a2f1700c3a3abf166d7852384d87de084838470c");
}

#[test]
fn a_commit_of_a_blob_is_refused_and_nothing_is_written() {
    let mut store = store_with_tree();
    let before = store.entries().len();
    let when = Timestamp::new(1700000000, 0).unwrap();
    assert_eq!(
        commit_tree(&mut store, HELLO, "no", None, &when).err(),
        Some(Error::WrongKind { expected: ObjKind::Tree, found: ObjKind::Blob })
    );
    assert_eq!(store.entries().len(), before);
}

#[test]
fn a_commit_of_a_commit_is_refused_too() {
    let mut store = store_with_tree();
    let when = Timestamp::new(1700000000, 19800).unwrap();
    let digest = commit_tree(&mut store, TREE, "first", None, &when).unwrap();
    let text = (&digest[..]).to_hex_string();
    let before = store.entries().len();
    assert_eq!(
        commit_tree(&mut store, &text, "no", None, &when).err(),
        Some(Error::WrongKind { expected: ObjKind::Tree, found: ObjKind::Commit })
    );
    assert_eq!(store.entries().len(), before);
}

#[test]
fn a_commit_of_a_missing_tree_is_not_found() {
    let mut store = ObjectStore::new();
    let when = Timestamp::new(0, 0).unwrap();
    assert_eq!(commit_tree(&mut store, TREE, "no", None, &when).err(), Some(Error::NotFound));
    assert_eq!(commit_tree(&mut store, "tree", "no", None, &when).err(), Some(Error::NotFound));
    assert!(store.entries().is_empty());
}
