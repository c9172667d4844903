use git_objects::error::Error;
use git_objects::hex::{from_hex, ToHex};
use git_objects::object::ObjKind;
use git_objects::store::{read_object, write_object, ObjectStore};
use git_objects::tree::{
    get_mode, mode_bytes, mode_from_bytes, name_lt, read_tree, sort_tree, tree_content,
    write_tree_obj, Mode, TreeObject,
};

fn hello() -> Vec<u8> {
    from_hex(b"ce013625030ba8dba906f756967f9e9ca394464a").unwrap()
}

fn entry(mode: Mode, name: &str) -> TreeObject {
    TreeObject::new(mode, name.as_bytes().to_vec(), hello()).unwrap()
}

fn names(entries: &[TreeObject]) -> Vec<String> {
    entries.iter().map(|e| String::from_utf8(e.name().clone()).unwrap()).collect()
}

#[test]
fn modes_have_their_codes() {
    assert_eq!(mode_bytes(Mode::Regular), b"100644");
    assert_eq!(mode_bytes(Mode::Executable), b"100755");
    assert_eq!(mode_bytes(Mode::Symlink), b"120000");
    assert_eq!(mode_bytes(Mode::Directory), b"40000");
    assert_eq!(mode_from_bytes(b"100644"), Some(Mode::Regular));
    assert_eq!(mode_from_bytes(b"100755"), Some(Mode::Executable));
    assert_eq!(mode_from_bytes(b"120000"), Some(Mode::Symlink));
    assert_eq!(mode_from_bytes(b"40000"), Some(Mode::Directory));
    assert_eq!(mode_from_bytes(b"040000"), None);
    assert_eq!(mode_from_bytes(b"100664"), None);
}

#[test]
fn mode_of_a_file_goes_by_link_and_owner_execute_bit() {
    assert_eq!(get_mode(false, 0o100644), Mode::Regular);
    assert_eq!(get_mode(false, 0o100755), Mode::Executable);
    assert_eq!(get_mode(false, 0o100744), Mode::Executable);
    assert_eq!(get_mode(false, 0o100655), Mode::Regular);
    assert_eq!(get_mode(true, 0o100644), Mode::Symlink);
    assert_eq!(get_mode(true, 0o100755), Mode::Symlink);
}

#[test]
fn an_entry_needs_a_name_without_nul_and_a_digest_of_twenty_bytes() {
    assert!(TreeObject::new(Mode::Regular, b"a".to_vec(), hello()).is_ok());
    assert!(TreeObject::new(Mode::Regular, b"with space".to_vec(), hello()).is_ok());
    assert_eq!(
        TreeObject::new(Mode::Regular, b"a\0b".to_vec(), hello()).err(),
        Some(Error::InvalidEntry)
    );
    assert_eq!(
        TreeObject::new(Mode::Regular, b"a".to_vec(), vec![0u8; 19]).err(),
        Some(Error::InvalidEntry)
    );
    let made = entry(Mode::Executable, "run");
    assert_eq!(made.mode(), Mode::Executable);
    assert_eq!(made.name(), &b"run".to_vec());
    assert_eq!(made.sha1(), &hello());
}

#[test]
fn a_prefix_comes_before_and_other_names_go_by_their_bytes() {
    assert!(name_lt(b"a", b"ab"));
    assert!(name_lt(b"ab", b"b"));
    assert!(name_lt(b"a", b"b"));
    assert!(!name_lt(b"ab", b"a"));
    assert!(!name_lt(b"b", b"ab"));
    assert!(!name_lt(b"a", b"a"));
    assert!(name_lt(b"", b"a"));
    assert!(!name_lt(b"", b""));
    assert!(name_lt(b"Z", b"a"));
    assert!(name_lt(b"a.txt", b"a0"));
}

#[test]
fn a_ab_b_are_listed_in_that_order() {
    for listing in [["a", "ab", "b"], ["b", "ab", "a"], ["ab", "b", "a"], ["b", "a", "ab"]] {
        let entries: Vec<TreeObject> =
            listing.iter().map(|n| entry(Mode::Regular, n)).collect();
        let sorted = sort_tree(entries);
        assert_eq!(names(&sorted), vec!["a", "ab", "b"]);
    }
}

#[test]
fn entries_of_one_name_keep_their_order() {
    let first = TreeObject::new(Mode::Regular, b"x".to_vec(), vec![1u8; 20]).unwrap();
    let second = TreeObject::new(Mode::Regular, b"x".to_vec(), vec![2u8; 20]).unwrap();
    let sorted = sort_tree(vec![entry(Mode::Regular, "y"), first, second]);
    assert_eq!(names(&sorted), vec!["x", "x", "y"]);
    assert_eq!(sorted[0].sha1(), &vec![1u8; 20]);
    assert_eq!(sorted[1].sha1(), &vec![2u8; 20]);
}

#[test]
fn payload_is_the_records_one_behind_the_other() {
    let entries = vec![entry(Mode::Regular, "a"), entry(Mode::Directory, "d")];
    let mut expected = b"100644 a\0".to_vec();
    expected.extend(hello());
    expected.extend(b"40000 d\0");
    expected.extend(hello());
    assert_eq!(tree_content(&entries), expected);
    assert_eq!(tree_content(&Vec::new()), Vec::<u8>::new());
}

#[test]
fn a_payload_reads_back_as_its_entries() {
    let entries = vec![
        entry(Mode::Regular, "a"),
        entry(Mode::Executable, "run me"),
        entry(Mode::Symlink, "link"),
        entry(Mode::Directory, "sub"),
    ];
    let payload = tree_content(&entries);
    let read = read_tree(&payload).unwrap();
    assert_eq!(read.len(), 4);
    for (a, b) in entries.iter().zip(read.iter()) {
        assert_eq!(a.mode(), b.mode());
        assert_eq!(a.name(), b.name());
        assert_eq!(a.sha1(), b.sha1());
    }
    assert_eq!(read_tree(b"").map(|e| e.len()), Some(0));
}

#[test]
fn a_payload_that_is_no_list_of_records_reads_as_nothing() {
    let good = tree_content(&vec![entry(Mode::Regular, "a")]);
    assert!(read_tree(&good[..good.len() - 1]).is_none());
    assert!(read_tree(b"100644 a").is_none());
    assert!(read_tree(b"100644a\0").is_none());
    let mut unknown = b"100664 a\0".to_vec();
    unknown.extend(hello());
    assert!(read_tree(&unknown).is_none());
    let mut trailing = good.clone();
    trailing.push(b'x');
    assert!(read_tree(&trailing).is_none());
}

#[test]
fn a_tree_is_stored_sorted_under_its_digest() {
    let mut store = ObjectStore::new();
    write_object(&mut store, ObjKind::Blob, b"hello\n").unwrap();
    let listing =
        vec![entry(Mode::Regular, "b"), entry(Mode::Regular, "ab"), entry(Mode::Regular, "a")];
    let digest = write_tree_obj(&mut store, listing).unwrap();
    assert_eq!((&digest[..]).to_hex_string(), "d55cfd19bde58cc35ef943b45d66929517e3b3b6");
    let tree = read_object(&store, &digest).unwrap();
    assert_eq!(tree.kind, ObjKind::Tree);
    assert_eq!(tree.size, 88);
    assert_eq!(names(&read_tree(&tree.content).unwrap()), vec!["a", "ab", "b"]);
}

#[test]
fn the_order_of_the_listing_does_not_change_the_digest() {
    let orders = [["a", "ab", "b"], ["b", "a", "ab"], ["ab", "b", "a"]];
    let mut digests = Vec::new();
    for order in orders {
        let mut store = ObjectStore::new();
        let listing: Vec<TreeObject> = order.iter().map(|n| entry(Mode::Regular, n)).collect();
        digests.push(write_tree_obj(&mut store, listing).unwrap());
    }
    assert_eq!(digests[0], digests[1]);
    assert_eq!(digests[1], digests[2]);
}
