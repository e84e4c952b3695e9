use objstore::{
    bytes_to_object_type, cat_file, decode_object, encode_object, hash_object, ls_tree,
    object_path, parse_header, BlobObject, Object, ObjectError, ObjectType, TreeElement,
    TreeObject,
};

fn record(mode: &str, name: &[u8], hash: &[u8]) -> Vec<u8> {
    let mut r = mode.as_bytes().to_vec();
    r.push(b' ');
    r.extend_from_slice(name);
    r.push(0);
    r.extend_from_slice(hash);
    r
}

fn stored(object_type: ObjectType, payload: &[u8]) -> Vec<u8> {
    hash_object(object_type, payload, true).compressed.unwrap()
}

fn h1() -> Vec<u8> {
    (0u8..20).collect()
}

fn h2() -> Vec<u8> {
    // holds a null byte and a space, which must not disturb the parse
    vec![0, 32, 0, 32, 1, 2, 3, 4, 5, 6, 7, 8, 9, 10, 11, 12, 13, 14, 15, 255]
}

fn two_entry_tree() -> Vec<u8> {
    let mut p = record("100644", b"a.txt", &h1());
    p.extend(record("40000", b"sub", &h2()));
    p
}

#[test]
fn path_fan_out() {
    let (dir, file) = object_path("e69de29bb2d1d6434b8b29ae775ad8c2e48c5391");
    assert_eq!(dir, "e6");
    assert_eq!(file, "9de29bb2d1d6434b8b29ae775ad8c2e48c5391");
}

#[test]
fn path_of_short_id() {
    let (dir, file) = object_path("a");
    assert_eq!(dir, "a");
    assert_eq!(file, "");
}

#[test]
fn empty_blob_id() {
    // the digest covers the header "blob 0\0", so it is not the digest of no bytes
    let r = hash_object(ObjectType::Blob, b"", false);
    assert_eq!(r.id, "e69de29bb2d1d6434b8b29ae775ad8c2e48c5391");
    assert_ne!(r.id, "da39a3ee5e6b4b0d3255bfef95601890afd80709");
    assert!(r.compressed.is_none());
}

#[test]
fn known_blob_id() {
    let r = hash_object(ObjectType::Blob, b"hello world\n", false);
    assert_eq!(r.id, "3b18e512dba79e4c8300dd08aeb37f8e728b8dad");
}

#[test]
fn encode_frames_payload() {
    assert_eq!(encode_object(ObjectType::Blob, b"hello"), b"blob 5\0hello".to_vec());
    assert_eq!(encode_object(ObjectType::Tree, b""), b"tree 0\0".to_vec());
    let payload = vec![7u8; 123];
    let mut want = b"commit 123\0".to_vec();
    want.extend_from_slice(&payload);
    assert_eq!(encode_object(ObjectType::Commit, &payload), want);
}

#[test]
fn write_is_deterministic() {
    let a = hash_object(ObjectType::Blob, b"same bytes", true);
    let b = hash_object(ObjectType::Blob, b"same bytes", true);
    assert_eq!(a.id, b.id);
    assert_eq!(a.compressed, b.compressed);
    let c = hash_object(ObjectType::Blob, b"other bytes", true);
    assert_ne!(a.id, c.id);
    assert_eq!(a.id.len(), 40);
    assert!(a.id.chars().all(|ch| ch.is_ascii_digit() || ('a'..='f').contains(&ch)));
}

#[test]
fn compressed_differs_from_framed() {
    let framed = encode_object(ObjectType::Blob, b"abcabcabcabcabcabc");
    let c = stored(ObjectType::Blob, b"abcabcabcabcabcabc");
    assert_ne!(c, framed);
}

#[test]
fn blob_round_trip() {
    match cat_file(&stored(ObjectType::Blob, b"hello world\n")).unwrap() {
        Object::Blob(b) => {
            assert_eq!(b.length, 12);
            assert_eq!(b.data, b"hello world\n".to_vec());
            assert_eq!(b.content(), "hello world\n");
        }
        _ => panic!("expected a blob"),
    }
}

#[test]
fn commit_round_trip() {
    match cat_file(&stored(ObjectType::Commit, b"tree abc\nparent def\n")).unwrap() {
        Object::Commit(c) => {
            assert_eq!(c.length, 20);
            assert_eq!(c.data, b"tree abc\nparent def\n".to_vec());
        }
        _ => panic!("expected a commit"),
    }
}

#[test]
fn tree_round_trip() {
    match cat_file(&stored(ObjectType::Tree, &two_entry_tree())).unwrap() {
        Object::Tree(t) => {
            assert_eq!(t.length, two_entry_tree().len());
            assert_eq!(t.elements.len(), 2);
            assert_eq!(t.elements[0].mode, "100644");
            assert_eq!(t.elements[0].name, "a.txt");
            assert_eq!(t.elements[0].hash, h1());
            assert_eq!(t.elements[0].object_type, ObjectType::Blob);
            assert_eq!(t.elements[1].mode, "40000");
            assert_eq!(t.elements[1].name, "sub");
            assert_eq!(t.elements[1].hash, h2());
        }
        _ => panic!("expected a tree"),
    }
}

#[test]
fn tree_listing_order() {
    let entries = ls_tree(&stored(ObjectType::Tree, &two_entry_tree())).unwrap();
    let names: Vec<String> = entries.iter().map(|e| e.name.clone()).collect();
    assert_eq!(names, vec!["a.txt".to_string(), "sub".to_string()]);
}

#[test]
fn tree_names_keep_order() {
    let mut p = record("40000", b"zeta", &h2());
    p.extend(record("100644", b"alpha", &h1()));
    let t = TreeObject::from_bytes(&encode_object(ObjectType::Tree, &p)).unwrap();
    assert_eq!(t.names(), vec!["zeta".to_string(), "alpha".to_string()]);
}

#[test]
fn empty_tree_lists_nothing() {
    let entries = ls_tree(&stored(ObjectType::Tree, b"")).unwrap();
    assert!(entries.is_empty());
}

#[test]
fn truncated_tree_detection() {
    let mut p = record("100644", b"a.txt", &h1());
    p.extend(record("100644", b"b.txt", &h1()[..10]));
    assert_eq!(
        ls_tree(&stored(ObjectType::Tree, &p)).err(),
        Some(ObjectError::TruncatedEntry)
    );
}

#[test]
fn tree_without_terminator_is_truncated() {
    let p = b"100644 a.txt".to_vec();
    assert_eq!(
        TreeObject::from_bytes(&encode_object(ObjectType::Tree, &p)).err(),
        Some(ObjectError::TruncatedEntry)
    );
}

#[test]
fn tree_shorter_than_declared_is_truncated() {
    let mut framed = b"tree 99\0".to_vec();
    framed.extend(record("100644", b"a.txt", &h1()));
    assert_eq!(TreeObject::from_bytes(&framed).err(), Some(ObjectError::TruncatedEntry));
}

#[test]
fn tree_stops_at_declared_length() {
    let one = record("100644", b"a.txt", &h1());
    let mut framed = format!("tree {}\0", one.len()).into_bytes();
    framed.extend(&one);
    framed.extend(b"trailing");
    let t = TreeObject::from_bytes(&framed).unwrap();
    assert_eq!(t.names(), vec!["a.txt".to_string()]);
}

#[test]
fn record_without_space_is_malformed() {
    let mut p = b"100644a.txt\0".to_vec();
    p.extend(h1());
    assert_eq!(
        ls_tree(&stored(ObjectType::Tree, &p)).err(),
        Some(ObjectError::MalformedEntry)
    );
}

#[test]
fn non_utf8_name_is_encoding_error() {
    let p = record("100644", &[0xff, 0xfe], &h1());
    assert_eq!(
        ls_tree(&stored(ObjectType::Tree, &p)).err(),
        Some(ObjectError::EncodingError)
    );
}

#[test]
fn tree_element_reports_span() {
    let mut input = record("100644", b"a.txt", &h1());
    input.extend(b"rest");
    let (e, n): (TreeElement, usize) = TreeElement::from_bytes(&input).unwrap();
    assert_eq!(n, 6 + 1 + 5 + 1 + 20);
    assert_eq!(e.name, "a.txt");
    assert_eq!(e.mode, "100644");
}

#[test]
fn type_mismatch() {
    assert_eq!(
        ls_tree(&stored(ObjectType::Blob, b"not a tree")).err(),
        Some(ObjectError::TypeMismatch)
    );
    let framed = encode_object(ObjectType::Tree, b"");
    assert_eq!(BlobObject::from_bytes(&framed).err(), Some(ObjectError::TypeMismatch));
}

#[test]
fn header_boundary_for_binary_blobs() {
    let payload = vec![0u8, 1, 0, 0, 32, 0, 255, 0];
    match cat_file(&stored(ObjectType::Blob, &payload)).unwrap() {
        Object::Blob(b) => {
            assert_eq!(b.length, 8);
            assert_eq!(b.data, payload);
        }
        _ => panic!("expected a blob"),
    }
}

#[test]
fn lossy_blob_text() {
    let b = BlobObject::from_bytes(b"blob 3\0a\xffb").unwrap();
    assert_eq!(b.content(), "a\u{fffd}b");
}

#[test]
fn corrupt_stream() {
    assert_eq!(
        cat_file(b"definitely not zlib").err(),
        Some(ObjectError::CorruptStream)
    );
    let mut c = stored(ObjectType::Blob, b"some content here");
    c.truncate(c.len() / 2);
    assert_eq!(cat_file(&c).err(), Some(ObjectError::CorruptStream));
}

#[test]
fn malformed_headers() {
    assert_eq!(
        decode_object(b"blob 5 hello").err(),
        Some(ObjectError::MalformedHeader)
    );
    assert_eq!(decode_object(b"blob5\0hello").err(), Some(ObjectError::MalformedHeader));
    assert_eq!(decode_object(b"blob x\0hello").err(), Some(ObjectError::MalformedHeader));
    assert_eq!(decode_object(b"blob \0hello").err(), Some(ObjectError::MalformedHeader));
    assert_eq!(
        decode_object(b"blob 99999999999999999999999\0hello").err(),
        Some(ObjectError::MalformedHeader)
    );
}

#[test]
fn invalid_object_type() {
    assert_eq!(decode_object(b"blub 3\0abc").err(), Some(ObjectError::InvalidObjectType));
    assert_eq!(bytes_to_object_type(b"tag"), Err(ObjectError::InvalidObjectType));
    assert_eq!(bytes_to_object_type(b"tree"), Ok(ObjectType::Tree));
    assert_eq!(bytes_to_object_type(b"commit"), Ok(ObjectType::Commit));
}

#[test]
fn header_fields() {
    let h = parse_header(b"commit 42\0xyz").unwrap();
    assert_eq!(h.object_type, ObjectType::Commit);
    assert_eq!(h.length, 42);
    assert_eq!(h.body_start, 10);
}
