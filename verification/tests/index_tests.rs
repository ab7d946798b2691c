use nss::diff::{DIffTag, Diff};
use nss::metadata::FileMeta;
use nss::Index;

fn meta(filename: &[u8], hash_byte: u8) -> FileMeta {
    FileMeta {
        ctime: 1,
        ctime_nsec: 2,
        mtime: 3,
        mtime_nsec: 4,
        dev: 5,
        ino: 6,
        mode: 33188,
        uid: 1000,
        gid: 1000,
        filesize: 9,
        hash: vec![hash_byte; 20],
        filename_size: filename.len() as u16,
        filename: filename.to_vec(),
    }
}

#[test]
fn test_index_empty() {
    let empty_index = Index::empty();
    let test_index = Index {
        version: 1,
        filemetas: vec![],
    };
    assert_eq!(empty_index, test_index);
}

#[test]
fn test_index_new_all() {}

#[test]
fn test_index_from_rawindex() {}

#[test]
fn test_index_add() {}

#[test]
fn index_test_as_bytes() {}

#[test]
fn test_padding() {}

#[test]
fn test_index_try_from_tree() {}

#[test]
fn test_push_paths() {}

#[test]
fn test_to_tree() {}

#[test]
fn test_padding_values() {
    // 62 + n + padding is always the next multiple of eight
    assert_eq!(nss::index::padding(8), 2);
    assert_eq!(nss::index::padding(2), 8);
    assert_eq!(nss::index::padding(10), 8);
    assert_eq!(nss::index::padding(12), 6);
    for n in 0..64usize {
        let p = nss::index::padding(n);
        assert!(1 <= p && p <= 8);
        assert_eq!((62 + n + p) % 8, 0);
    }
}

#[test]
fn test_index_round_trip() {
    let index = Index {
        version: 1,
        filemetas: vec![meta(b"second.rs", 7), meta(b"first.rs", 9)],
    };
    let bytes = index.as_bytes();
    assert_eq!(&bytes[0..4], b"DIRC");
    let decoded = Index::from_rawindex(bytes).unwrap();
    assert_eq!(decoded.version, 1);
    assert_eq!(decoded.filemetas.len(), 2);
    assert_eq!(decoded.filemetas[0].filename, b"second.rs".to_vec());
    assert_eq!(decoded.filemetas[0].hash, vec![7u8; 20]);
    assert_eq!(decoded.filemetas[0].ctime, 1);
    assert_eq!(decoded.filemetas[0].filesize, 9);
    assert_eq!(decoded.filemetas[1].filename, b"first.rs".to_vec());
}

#[test]
fn test_empty_file_decodes_to_empty_index() {
    let decoded = Index::from_rawindex(Vec::new()).unwrap();
    assert_eq!(decoded, Index::empty());
}

#[test]
fn test_truncated_index_is_malformed() {
    assert_eq!(
        Index::from_rawindex(b"DIRC\0\0\0\x01\0\0\0\x01".to_vec()),
        Err(nss::Error::MalformedIndex)
    );
}

#[test]
fn test_bad_magic_is_malformed() {
    let index = Index {
        version: 1,
        filemetas: vec![meta(b"a.txt", 1)],
    };
    let mut bytes = index.as_bytes();
    bytes[0] = b'X';
    assert_eq!(
        Index::from_rawindex(bytes),
        Err(nss::Error::MalformedIndex)
    );
}

#[test]
fn test_add_replaces_same_hash_and_sorts_descending() {
    let mut index = Index::empty();
    index.add(meta(b"a.txt", 1));
    index.add(meta(b"b.txt", 2));
    // same content hash as a.txt, staged under a new name: replaced
    index.add(meta(b"c.txt", 1));
    assert_eq!(index.filemetas.len(), 2);
    // descending by filename
    assert_eq!(index.filemetas[0].filename, b"c.txt".to_vec());
    assert_eq!(index.filemetas[1].filename, b"b.txt".to_vec());
}

#[test]
fn test_index_diff_classification() {
    // older index A and newer index B, diffed as B.diff(A)
    let a = Index {
        version: 1,
        filemetas: vec![meta(b"a.txt", 1), meta(b"b.txt", 2)],
    };
    let b = Index {
        version: 1,
        filemetas: vec![meta(b"a.txt", 1), meta(b"b.txt", 3), meta(b"c.txt", 4)],
    };
    let changes = b.diff(a);
    assert_eq!(
        changes,
        vec![
            (DIffTag::Equal, b"a.txt".to_vec()),
            (DIffTag::Replace, b"b.txt".to_vec()),
            (DIffTag::Insert, b"c.txt".to_vec()),
        ]
    );
}

#[test]
fn test_index_diff_delete_and_totality() {
    let a = Index {
        version: 1,
        filemetas: vec![meta(b"gone.txt", 1), meta(b"kept.txt", 2)],
    };
    let b = Index {
        version: 1,
        filemetas: vec![meta(b"kept.txt", 2), meta(b"new.txt", 3)],
    };
    let changes = b.diff(a);
    // every filename of either side, exactly once
    assert_eq!(changes.len(), 3);
    let mut names: Vec<Vec<u8>> = changes.iter().map(|c| c.1.clone()).collect();
    names.sort();
    assert_eq!(
        names,
        vec![b"gone.txt".to_vec(), b"kept.txt".to_vec(), b"new.txt".to_vec()]
    );
    assert!(changes.contains(&(DIffTag::Delete, b"gone.txt".to_vec())));
    assert!(changes.contains(&(DIffTag::Equal, b"kept.txt".to_vec())));
    assert!(changes.contains(&(DIffTag::Insert, b"new.txt".to_vec())));
}

#[test]
fn test_filemeta_equality_is_by_hash() {
    let m1 = meta(b"a.txt", 1);
    let m2 = meta(b"b.txt", 1);
    let m3 = meta(b"a.txt", 2);
    assert!(m1 == m2);
    assert!(m1 != m3);
}

#[test]
fn test_filemeta_record_round_trip() {
    let m = meta(b"first.rs", 5);
    let bytes = m.as_bytes();
    assert_eq!(bytes.len(), 62 + 8);
    let decoded = FileMeta::from_rawindex(&bytes).unwrap();
    assert_eq!(decoded.filename, b"first.rs".to_vec());
    assert_eq!(decoded.hash, vec![5u8; 20]);
    assert_eq!(decoded.mtime_nsec, 4);
    assert_eq!(decoded.mode, 33188);
}
