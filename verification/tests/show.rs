use git_objects::commit::{commit_tree, Timestamp};
use git_objects::error::Error;
use git_objects::hex::ToHex;
use git_objects::object::{ObjKind, Object};
use git_objects::show::{
    cat_file, hash_object, ls_tree, mode_column_bytes, print_blob_obj, print_tree_obj,
};
use git_objects::store::{read_obj_file, write_object, ObjectStore};
use git_objects::tree::Mode;
use git_objects::worktree::{write_tree, DirEntry, Node};

const HELLO: &str = "ce013625030ba8dba906f756967f9e9ca394464a";
const TOP: &str = "64ebd3af3eb449259cc3cb4fff583b3572370e91";

fn file(name: &str, content: &[u8], permissions: u32, symlink: bool) -> DirEntry {
    DirEntry {
        name: name.as_bytes().to_vec(),
        node: Node::File { content: content.to_vec(), permissions, symlink },
    }
}

fn project_store() -> ObjectStore {
    let mut store = ObjectStore::new();
    let entries = vec![
        DirEntry {
            name: b"sub".to_vec(),
            node: Node::Directory { entries: vec![file("x", b"x\n", 0o100755, false)] },
        },
        file("readme", b"read me\n", 0o100644, false),
        file("link", b"readme", 0o120777, true),
    ];
    assert_eq!(write_tree(&mut store, &entries), Ok(TOP.to_string()));
    store
}

#[test]
fn hash_object_stores_a_blob_and_gives_its_digest() {
    let mut store = ObjectStore::new();
    assert_eq!(hash_object(&mut store, b"hello\n"), Ok(HELLO.to_string()));
    assert_eq!(read_obj_file(&store, HELLO).unwrap().content, b"hello\n".to_vec());
}

#[test]
fn a_blob_prints_as_its_bytes() {
    let mut store = ObjectStore::new();
    hash_object(&mut store, b"hello\n").unwrap();
    assert_eq!(cat_file(&store, true, HELLO), Ok(b"hello\n".to_vec()));
    let object = read_obj_file(&store, HELLO).unwrap();
    assert_eq!(print_blob_obj(&object), Ok(b"hello\n".to_vec()));
}

#[test]
fn a_blob_shorter_than_declared_is_truncated() {
    let short = Object { kind: ObjKind::Blob, size: 7, content: b"hello\n".to_vec() };
    assert_eq!(print_blob_obj(&short), Err(Error::TruncatedObject));
    let long = Object { kind: ObjKind::Blob, size: 2, content: b"hello\n".to_vec() };
    assert_eq!(print_blob_obj(&long), Ok(b"he".to_vec()));
}

#[test]
fn a_tree_is_no_blob_and_a_blob_no_tree() {
    let store = project_store();
    let tree = read_obj_file(&store, TOP).unwrap();
    assert_eq!(
        print_blob_obj(&tree),
        Err(Error::WrongKind { expected: ObjKind::Blob, found: ObjKind::Tree })
    );
    let blob = read_obj_file(&store, "d9b401251bb36c51ca5c56c2ffc8a24a78ff20ae").unwrap();
    assert_eq!(
        print_tree_obj(&store, &blob, true),
        Err(Error::WrongKind { expected: ObjKind::Tree, found: ObjKind::Blob })
    );
    assert_eq!(
        ls_tree(&store, false, "d9b401251bb36c51ca5c56c2ffc8a24a78ff20ae"),
        Err(Error::WrongKind { expected: ObjKind::Tree, found: ObjKind::Blob })
    );
}

#[test]
fn modes_are_shown_with_six_digits() {
    assert_eq!(mode_column_bytes(Mode::Directory), b"040000".to_vec());
    assert_eq!(mode_column_bytes(Mode::Regular), b"100644".to_vec());
    assert_eq!(mode_column_bytes(Mode::Executable), b"100755".to_vec());
    assert_eq!(mode_column_bytes(Mode::Symlink), b"120000".to_vec());
}

#[test]
fn a_tree_lists_mode_kind_digest_and_name() {
    let store = project_store();
    let expected = "120000 blob ea786ff2cf69cdc0e487ad1cea3b8bd361eb66a3\tlink\n\
                    100644 blob d9b401251bb36c51ca5c56c2ffc8a24a78ff20ae\treadme\n\
                    040000 tree aa41909c036b5329395c5d7e68f2d3c4d7ac7f64\tsub\n";
    assert_eq!(ls_tree(&store, false, TOP), Ok(expected.as_bytes().to_vec()));
    assert_eq!(cat_file(&store, true, TOP), Ok(expected.as_bytes().to_vec()));
    assert_eq!(
        ls_tree(&store, false, "aa41909c036b5329395c5d7e68f2d3c4d7ac7f64"),
        Ok(b"100755 blob 587be6b4c3f93f93c489c0111bba5596147a26cb\tx\n".to_vec())
    );
}

#[test]
fn a_tree_lists_names_alone_when_asked() {
    let store = project_store();
    assert_eq!(ls_tree(&store, true, TOP), Ok(b"link\nreadme\nsub\n".to_vec()));
    let tree = read_obj_file(&store, TOP).unwrap();
    assert_eq!(print_tree_obj(&store, &tree, true), Ok(b"link\nreadme\nsub\n".to_vec()));
}

#[test]
fn a_listing_needs_the_objects_of_its_entries_and_names_do_not() {
    let mut store = project_store();
    let digest = git_objects::hex::from_hex(b"d9b401251bb36c51ca5c56c2ffc8a24a78ff20ae").unwrap();
    store.remove(&digest);
    assert_eq!(ls_tree(&store, false, TOP), Err(Error::NotFound));
    assert_eq!(ls_tree(&store, true, TOP), Ok(b"link\nreadme\nsub\n".to_vec()));
    store.insert(digest, b"garbage".to_vec());
    assert_eq!(ls_tree(&store, false, TOP), Err(Error::CorruptObject));
}

#[test]
fn a_tree_whose_payload_is_no_list_is_corrupt() {
    let mut store = ObjectStore::new();
    let digest = write_object(&mut store, ObjKind::Tree, b"100644 a").unwrap();
    let text = (&digest[..]).to_hex_string();
    assert_eq!(ls_tree(&store, true, &text), Err(Error::CorruptObject));
    assert_eq!(cat_file(&store, true, &text), Err(Error::CorruptObject));
}

#[test]
fn cat_file_wants_pretty_print_and_no_commit() {
    let mut store = project_store();
    assert_eq!(cat_file(&store, false, TOP), Err(Error::Unsupported));
    assert_eq!(cat_file(&store, false, "missing"), Err(Error::Unsupported));
    let when = Timestamp::new(1700000000, 0).unwrap();
    let commit = commit_tree(&mut store, TOP, "message", None, &when).unwrap();
    let text = (&commit[..]).to_hex_string();
    assert_eq!(
        cat_file(&store, true, &text),
        Err(Error::WrongKind { expected: ObjKind::Blob, found: ObjKind::Commit })
    );
    assert_eq!(
        ls_tree(&store, false, &text),
        Err(Error::WrongKind { expected: ObjKind::Tree, found: ObjKind::Commit })
    );
}

#[test]
fn what_is_not_in_the_store_is_not_found() {
    let store = ObjectStore::new();
    assert_eq!(cat_file(&store, true, HELLO), Err(Error::NotFound));
    assert_eq!(ls_tree(&store, true, HELLO), Err(Error::NotFound));
    assert_eq!(ls_tree(&store, false, "xyz"), Err(Error::NotFound));
}
