use git_objects::decimal::parse_u64;
use git_objects::error::Error;
use git_objects::hex::{from_hex, to_hex, ToHex};
use git_objects::object::{decode, encode, parse_object, ObjKind};

#[test]
fn hex_of_bytes_is_lowercase_and_two_digits_each() {
    assert_eq!(to_hex(&[0x00, 0x0f, 0xa0, 0xff]), b"000fa0ff".to_vec());
    assert_eq!((&[0xde_u8, 0xad, 0xbe, 0xef][..]).to_hex_string(), "deadbeef");
    assert_eq!((&[][..]).to_hex_string(), "");
}

#[test]
fn hex_text_reads_back() {
    assert_eq!(from_hex(b"000fa0ff"), Some(vec![0x00, 0x0f, 0xa0, 0xff]));
    assert_eq!(from_hex(b""), Some(vec![]));
    for byte in 0..=255u8 {
        assert_eq!(from_hex(&to_hex(&[byte])), Some(vec![byte]));
    }
}

#[test]
fn hex_text_refuses_other_text() {
    assert_eq!(from_hex(b"abc"), None);
    assert_eq!(from_hex(b"AB"), None);
    assert_eq!(from_hex(b"0g"), None);
    assert_eq!(from_hex(b" 0"), None);
}

#[test]
fn sizes_are_read_as_unsigned_decimal() {
    assert_eq!(parse_u64(b"0"), Some(0));
    assert_eq!(parse_u64(b"007"), Some(7));
    assert_eq!(parse_u64(b"+12"), Some(12));
    assert_eq!(parse_u64(b"18446744073709551615"), Some(u64::MAX));
    assert_eq!(parse_u64(b"18446744073709551616"), None);
    assert_eq!(parse_u64(b""), None);
    assert_eq!(parse_u64(b"+"), None);
    assert_eq!(parse_u64(b"-1"), None);
    assert_eq!(parse_u64(b"1 "), None);
    assert_eq!(parse_u64(b"1a"), None);
}

#[test]
fn encode_frames_kind_length_and_payload() {
    assert_eq!(encode(ObjKind::Blob, b"hello\n"), b"blob 6\0hello\n".to_vec());
    assert_eq!(encode(ObjKind::Tree, b""), b"tree 0\0".to_vec());
    assert_eq!(encode(ObjKind::Commit, b"0123456789"), b"commit 10\x000123456789".to_vec());
}

#[test]
fn decode_gives_back_what_encode_framed() {
    let payloads: [&[u8]; 4] = [b"", b"a", b"hello\n", b"with\0nul and space"];
    for kind in [ObjKind::Blob, ObjKind::Tree, ObjKind::Commit] {
        for payload in payloads {
            let stream = encode(kind, payload);
            let (k, size, start) = decode(&stream).unwrap();
            assert_eq!(k, kind);
            assert_eq!(size, payload.len() as u64);
            assert_eq!(&stream[start..], payload);
            let object = parse_object(&stream).unwrap();
            assert_eq!(object.kind, kind);
            assert_eq!(object.size, payload.len() as u64);
            assert_eq!(object.content, payload.to_vec());
        }
    }
}

#[test]
fn decode_refuses_malformed_headers() {
    assert_eq!(decode(b"blob 6").err(), Some(Error::MalformedHeader));
    assert_eq!(decode(b"blob6\0hello\n").err(), Some(Error::MalformedHeader));
    assert_eq!(decode(b"tag 6\0hello\n").err(), Some(Error::MalformedHeader));
    assert_eq!(decode(b"blob six\0hello\n").err(), Some(Error::MalformedHeader));
    assert_eq!(decode(b"blob -6\0hello\n").err(), Some(Error::MalformedHeader));
    assert_eq!(decode(b"blob \0").err(), Some(Error::MalformedHeader));
    assert_eq!(decode(b"").err(), Some(Error::MalformedHeader));
    assert_eq!(decode(b"Blob 0\0").err(), Some(Error::MalformedHeader));
}

#[test]
fn short_payload_is_truncated_and_long_one_is_cut() {
    assert_eq!(parse_object(b"blob 6\0hell").err(), Some(Error::TruncatedObject));
    let object = parse_object(b"blob 2\0hello").unwrap();
    assert_eq!(object.size, 2);
    assert_eq!(object.content, b"he".to_vec());
}

#[test]
fn kinds_have_their_tags() {
    assert_eq!(ObjKind::Blob.name(), "blob");
    assert_eq!(ObjKind::Tree.name(), "tree");
    assert_eq!(ObjKind::Commit.name(), "commit");
    assert_eq!(ObjKind::from_str("blob"), Ok(ObjKind::Blob));
    assert_eq!(ObjKind::from_str("tree"), Ok(ObjKind::Tree));
    assert_eq!(ObjKind::from_str("commit"), Ok(ObjKind::Commit));
    assert_eq!(ObjKind::from_str("tag"), Err(Error::MalformedHeader));
    assert_eq!(ObjKind::from_bytes(b"blob "), None);
}
