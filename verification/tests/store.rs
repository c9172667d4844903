use git_objects::error::Error;
use git_objects::hex::ToHex;
use git_objects::object::{encode, ObjKind};
use git_objects::store::{
    object_path, parse_digest, read_obj_file, read_object, seal, unpack, write_blob_object,
    write_object, ObjectStore,
};

const HELLO: &str = "ce013625030ba8dba906f756967f9e9ca394464a";

#[test]
fn hello_blob_has_the_known_digest() {
    let mut store = ObjectStore::new();
    let digest = write_object(&mut store, ObjKind::Blob, b"hello\n").unwrap();
    let text = (&digest[..]).to_hex_string();
    assert!(text.starts_with("ce013625030ba8dba906f756967f9e9ca394464"));
    assert_eq!(text, HELLO);
    assert_eq!(digest.len(), 20);
}

#[test]
fn what_was_written_is_read_back() {
    let mut store = ObjectStore::new();
    let digest = write_object(&mut store, ObjKind::Blob, b"hello\n").unwrap();
    let object = read_obj_file(&store, HELLO).unwrap();
    assert_eq!(object.kind, ObjKind::Blob);
    assert_eq!(object.size, 6);
    assert_eq!(object.content, b"hello\n".to_vec());
    let again = read_object(&store, &digest).unwrap();
    assert_eq!(again.content, b"hello\n".to_vec());
}

#[test]
fn stored_bytes_are_compressed_and_differ_from_the_framed_form() {
    let payload = vec![b'a'; 4096];
    let sealed = seal(ObjKind::Blob, &payload).unwrap();
    let framed = encode(ObjKind::Blob, &payload);
    assert_ne!(sealed.data, framed);
    assert!(sealed.data.len() < framed.len());
    assert_eq!(sealed.data[0], 0x78);
    assert_ne!(sealed.digest, framed);
    let mut store = ObjectStore::new();
    store.insert(sealed.digest.clone(), sealed.data.clone());
    assert_eq!(read_object(&store, &sealed.digest).unwrap().content, payload);
}

#[test]
fn writing_twice_gives_the_same_digest_and_bytes() {
    let mut store = ObjectStore::new();
    let first = write_object(&mut store, ObjKind::Blob, b"twice").unwrap();
    let kept = store.get(&first).unwrap().clone();
    let second = write_object(&mut store, ObjKind::Blob, b"twice").unwrap();
    assert_eq!(first, second);
    assert_eq!(store.get(&second).unwrap(), &kept);
    assert_eq!(read_object(&store, &second).unwrap().content, b"twice".to_vec());
}

#[test]
fn digest_follows_kind_and_payload() {
    let mut store = ObjectStore::new();
    let a = write_object(&mut store, ObjKind::Blob, b"hello\n").unwrap();
    let b = write_object(&mut store, ObjKind::Blob, b"hellp\n").unwrap();
    let c = write_object(&mut store, ObjKind::Tree, b"").unwrap();
    let d = write_object(&mut store, ObjKind::Blob, b"").unwrap();
    assert_ne!(a, b);
    assert_ne!(c, d);
    assert_eq!((&c[..]).to_hex_string(), "4b825dc642cb6eb9a060e54bf8d69288fbee4904");
    assert_eq!((&d[..]).to_hex_string(), "e69de29bb2d1d6434b8b29ae775ad8c2e48c5391");
    assert_eq!(write_blob_object(&mut store, b"hello\n").unwrap(), a);
}

#[test]
fn read_of_a_deleted_object_is_not_found() {
    let mut store = ObjectStore::new();
    let digest = write_object(&mut store, ObjKind::Blob, b"hello\n").unwrap();
    assert!(store.contains(&digest));
    store.remove(&digest);
    assert!(!store.contains(&digest));
    assert_eq!(read_obj_file(&store, HELLO).err(), Some(Error::NotFound));
    assert_eq!(read_object(&store, &digest).err(), Some(Error::NotFound));
}

#[test]
fn text_that_writes_no_digest_names_no_object() {
    let mut store = ObjectStore::new();
    write_object(&mut store, ObjKind::Blob, b"hello\n").unwrap();
    assert_eq!(read_obj_file(&store, "").err(), Some(Error::NotFound));
    assert_eq!(read_obj_file(&store, "c").err(), Some(Error::NotFound));
    assert_eq!(read_obj_file(&store, "ce01").err(), Some(Error::NotFound));
    assert_eq!(read_obj_file(&store, &HELLO.to_uppercase()).err(), Some(Error::NotFound));
    assert_eq!(parse_digest(b"ce01"), None);
    assert_eq!(parse_digest(HELLO.as_bytes()).map(|d| d.len()), Some(20));
}

#[test]
fn bytes_that_do_not_decompress_are_corrupt() {
    let mut store = ObjectStore::new();
    assert!(store.load(HELLO, b"not a zlib stream".to_vec()));
    assert_eq!(read_obj_file(&store, HELLO).err(), Some(Error::CorruptObject));
}

#[test]
fn a_bad_header_is_corrupt_and_a_short_payload_truncated() {
    assert_eq!(unpack(b"blob?6\0hello\n").err(), Some(Error::CorruptObject));
    assert_eq!(unpack(b"blob 9\0hello\n").err(), Some(Error::TruncatedObject));
    assert_eq!(unpack(b"blob 6\0hello\n").unwrap().content, b"hello\n".to_vec());
}

#[test]
fn load_takes_only_names_of_digests() {
    let mut store = ObjectStore::new();
    let sealed = seal(ObjKind::Blob, b"hello\n").unwrap();
    assert!(!store.load("pack", sealed.data.clone()));
    assert!(!store.load("ce01", sealed.data.clone()));
    assert!(store.entries().is_empty());
    assert!(store.load(HELLO, sealed.data.clone()));
    assert_eq!(store.entries().len(), 1);
    assert_eq!(read_obj_file(&store, HELLO).unwrap().content, b"hello\n".to_vec());
}

#[test]
fn a_later_object_takes_the_place_of_an_earlier_one() {
    let mut store = ObjectStore::new();
    let digest = vec![7u8; 20];
    store.insert(digest.clone(), b"old".to_vec());
    store.insert(digest.clone(), b"new".to_vec());
    assert_eq!(store.get(&digest), Some(&b"new".to_vec()));
    let list = vec![seal(ObjKind::Blob, b"x").unwrap(), seal(ObjKind::Blob, b"y").unwrap()];
    let first = list[0].digest.clone();
    store.insert_all(list);
    assert_eq!(read_object(&store, &first).unwrap().content, b"x".to_vec());
}

#[test]
fn an_object_is_kept_under_two_digits_and_thirty_eight() {
    let mut store = ObjectStore::new();
    let digest = write_object(&mut store, ObjKind::Blob, b"hello\n").unwrap();
    let (dir, file) = object_path(&digest);
    assert_eq!(dir, "ce");
    assert_eq!(file, "013625030ba8dba906f756967f9e9ca394464a");
}
