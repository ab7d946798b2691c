use nss::object::Hashable;
use nss::repository::{object_path, split_hash, try_get_objects_path, Repository};
use nss::store::{decode_from_store, encode_for_store, object_hex};
use nss::{Blob, Error, Object};

#[test]
fn test_try_get_objects_path() {}

#[test]
fn test_ext_paths() {}

#[test]
fn test_ext_paths_ignore() {}

#[test]
fn test_get_all_paths() {}

#[test]
fn test_get_all_paths_ignore() {}

#[test]
fn test_object_new() {}

#[test]
fn test_object_from_content() {}

#[test]
fn test_object_as_str() {}

#[test]
fn test_object_as_bytes() {}

#[test]
fn test_object_to_hash() {}

#[test]
fn test_object_display() {}

#[test]
fn test_split_and_object_path() {
    let (d, f) = split_hash("e69de29bb2d1d6434b8b29ae775ad8c2e48c5391");
    assert_eq!(d, "e6");
    assert_eq!(f, "9de29bb2d1d6434b8b29ae775ad8c2e48c5391");

    let (dir, file) = object_path("/repo", "e69de29bb2d1d6434b8b29ae775ad8c2e48c5391");
    assert_eq!(dir, "/repo/.nss/objects/e6".to_string());
    assert_eq!(
        file,
        "/repo/.nss/objects/e6/9de29bb2d1d6434b8b29ae775ad8c2e48c5391".to_string()
    );
}

#[test]
fn test_repository_root() {
    let repo = Repository::new("/work/repo".to_string());
    assert_eq!(repo.root, "/work/repo".to_string());
}

#[test]
fn test_prefix_resolution() {
    // two stored objects share the first seven hex characters
    let listing = vec![
        "cdef1000aaaaaaaaaaaaaaaaaaaaaaaaaaaaaa".to_string(),
        "cdef1111bbbbbbbbbbbbbbbbbbbbbbbbbbbbbb".to_string(),
        "99999999999999999999999999999999999999".to_string(),
    ];
    // shorter than six characters: refused
    assert_eq!(
        try_get_objects_path("/r", "abcde", &listing),
        Err(Error::LessObjectHash)
    );
    // the seven-character prefix matches both: ambiguous
    assert_eq!(
        try_get_objects_path("/r", "abcdef1", &listing),
        Err(Error::AmbiguousHash)
    );
    // an eight-character prefix extending one of them: resolved
    assert_eq!(
        try_get_objects_path("/r", "abcdef10", &listing),
        Ok("/r/.nss/objects/ab/cdef1000aaaaaaaaaaaaaaaaaaaaaaaaaaaaaa".to_string())
    );
    // no match at all
    assert_eq!(
        try_get_objects_path("/r", "abffff00", &listing),
        Err(Error::NotFoundObject)
    );
}

#[test]
fn test_prefix_resolution_monotone() {
    // once a prefix resolves, every further extension along the same
    // object keeps resolving to it
    let listing = vec![
        "cdef1000aaaaaaaaaaaaaaaaaaaaaaaaaaaaaa".to_string(),
        "ffff1111bbbbbbbbbbbbbbbbbbbbbbbbbbbbbb".to_string(),
    ];
    let first = try_get_objects_path("/r", "abcdef", &listing).unwrap();
    let longer = try_get_objects_path("/r", "abcdef1000", &listing).unwrap();
    assert_eq!(first, longer);
}

#[test]
fn test_store_round_trip() {
    let blob = Object::Blob(Blob::new(b"hello\n".to_vec()));
    let payload = encode_for_store(&blob);
    // the payload really is compressed framing, not the framing itself
    assert_ne!(payload, blob.as_bytes());
    let decoded = decode_from_store(payload.as_slice()).unwrap();
    match decoded {
        Object::Blob(b) => assert_eq!(b.content, b"hello\n".to_vec()),
        _ => panic!("expected a blob"),
    }
}

#[test]
fn test_store_write_idempotent_bytes() {
    // the same object always yields the same hash, so the same file name
    let o1 = Object::Blob(Blob::new(b"same".to_vec()));
    let o2 = Object::Blob(Blob::new(b"same".to_vec()));
    assert_eq!(o1.to_hash(), o2.to_hash());
    assert_eq!(object_hex(&o1), object_hex(&o2));
    let d1 = decode_from_store(encode_for_store(&o1).as_slice()).unwrap();
    let d2 = decode_from_store(encode_for_store(&o2).as_slice()).unwrap();
    match (d1, d2) {
        (Object::Blob(a), Object::Blob(b)) => assert_eq!(a.content, b.content),
        _ => panic!("expected blobs"),
    }
}

#[test]
fn test_object_hex_of_empty_blob() {
    let blob = Object::Blob(Blob::new(Vec::new()));
    assert_eq!(
        object_hex(&blob),
        "e69de29bb2d1d6434b8b29ae775ad8c2e48c5391".to_string()
    );
}

#[test]
fn test_corrupt_store_data() {
    assert_eq!(
        match decode_from_store(b"not zlib at all") {
            Err(e) => e,
            Ok(_) => panic!("expected an error"),
        },
        Error::MalformedObject
    );
}
