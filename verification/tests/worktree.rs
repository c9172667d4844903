use git_objects::error::Error;
use git_objects::hex::ToHex;
use git_objects::object::ObjKind;
use git_objects::store::{read_obj_file, ObjectStore};
use git_objects::tree::{read_tree, Mode};
use git_objects::worktree::{check_names, ignored, write_tree, write_tree_for_path, DirEntry, Node};

fn file(name: &str, content: &[u8], permissions: u32) -> DirEntry {
    DirEntry {
        name: name.as_bytes().to_vec(),
        node: Node::File { content: content.to_vec(), permissions, symlink: false },
    }
}

fn link(name: &str, target: &str) -> DirEntry {
    DirEntry {
        name: name.as_bytes().to_vec(),
        node: Node::File {
            content: target.as_bytes().to_vec(),
            permissions: 0o120777,
            symlink: true,
        },
    }
}

fn dir(name: &str, entries: Vec<DirEntry>) -> DirEntry {
    DirEntry { name: name.as_bytes().to_vec(), node: Node::Directory { entries } }
}

fn project() -> Vec<DirEntry> {
    vec![
        dir("sub", vec![file("x", b"x\n", 0o100755)]),
        file("readme", b"read me\n", 0o100644),
        link("link", "readme"),
    ]
}

#[test]
fn three_names_are_ignored() {
    assert!(ignored(b".git"));
    assert!(ignored(b"target"));
    assert!(ignored(b".idea"));
    assert!(!ignored(b".gitignore"));
    assert!(!ignored(b"targets"));
    assert!(!ignored(b"git"));
    assert!(!ignored(b""));
}

#[test]
fn a_directory_is_stored_with_everything_in_it() {
    let mut store = ObjectStore::new();
    let digest = write_tree_for_path(&mut store, &project()).unwrap();
    assert_eq!((&digest[..]).to_hex_string(), "64ebd3af3eb449259cc3cb4fff583b3572370e91");
    assert_eq!(store.entries().len(), 5);
    for name in [
        "587be6b4c3f93f93c489c0111bba5596147a26cb",
        "aa41909c036b5329395c5d7e68f2d3c4d7ac7f64",
        "d9b401251bb36c51ca5c56c2ffc8a24a78ff20ae",
        "ea786ff2cf69cdc0e487ad1cea3b8bd361eb66a3",
    ] {
        assert!(read_obj_file(&store, name).is_ok());
    }
    let top = read_obj_file(&store, "64ebd3af3eb449259cc3cb4fff583b3572370e91").unwrap();
    assert_eq!(top.kind, ObjKind::Tree);
    let entries = read_tree(&top.content).unwrap();
    let shown: Vec<(Mode, Vec<u8>)> = entries.iter().map(|e| (e.mode(), e.name().clone())).collect();
    assert_eq!(
        shown,
        vec![
            (Mode::Symlink, b"link".to_vec()),
            (Mode::Regular, b"readme".to_vec()),
            (Mode::Directory, b"sub".to_vec()),
        ]
    );
    let blob = read_obj_file(&store, "ea786ff2cf69cdc0e487ad1cea3b8bd361eb66a3").unwrap();
    assert_eq!(blob.content, b"readme".to_vec());
}

#[test]
fn the_tree_does_not_depend_on_the_order_of_the_listing() {
    let mut first = ObjectStore::new();
    let mut second = ObjectStore::new();
    let mut reversed = project();
    reversed.reverse();
    let a = write_tree_for_path(&mut first, &project()).unwrap();
    let b = write_tree_for_path(&mut second, &reversed).unwrap();
    assert_eq!(a, b);
    let mut third = ObjectStore::new();
    assert_eq!(write_tree_for_path(&mut third, &project()).unwrap(), a);
}

#[test]
fn ignored_names_are_left_out_at_every_level() {
    let mut plain = ObjectStore::new();
    let expected = write_tree_for_path(&mut plain, &project()).unwrap();
    let mut entries = project();
    entries.push(dir(".git", vec![file("HEAD", b"ref: refs/heads/main\n", 0o100644)]));
    entries.push(dir("target", vec![file("out", b"\0bad", 0o100644)]));
    entries.push(file(".idea", b"settings", 0o100644));
    entries[0] = dir("sub", vec![file("x", b"x\n", 0o100755), dir("target", vec![])]);
    let mut store = ObjectStore::new();
    assert_eq!(write_tree_for_path(&mut store, &entries).unwrap(), expected);
    assert_eq!(store.entries().len(), 5);
}

#[test]
fn an_empty_directory_is_the_empty_tree() {
    let mut store = ObjectStore::new();
    assert_eq!(
        write_tree(&mut store, &Vec::new()),
        Ok("4b825dc642cb6eb9a060e54bf8d69288fbee4904".to_string())
    );
    assert_eq!(store.entries().len(), 1);
}

#[test]
fn write_tree_gives_the_digest_as_text() {
    let mut store = ObjectStore::new();
    assert_eq!(
        write_tree(&mut store, &project()),
        Ok("64ebd3af3eb449259cc3cb4fff583b3572370e91".to_string())
    );
}

#[test]
fn a_name_with_nul_stops_the_tree_and_nothing_is_stored() {
    let entries = vec![
        file("good", b"1", 0o100644),
        dir("sub", vec![file("bad\0name", b"2", 0o100644)]),
    ];
    assert!(!check_names(&entries));
    assert!(check_names(&project()));
    let mut store = ObjectStore::new();
    assert_eq!(write_tree_for_path(&mut store, &entries).err(), Some(Error::InvalidEntry));
    assert!(store.entries().is_empty());
    assert_eq!(write_tree(&mut store, &entries), Err(Error::InvalidEntry));
}
