use nss::object::Hashable;
use nss::{Entry, Object, Tree};

#[test]
fn test_from_rawobject() {}

#[test]
fn tree_test_commit_from_rawobject() {
    let (a, b) = b"\\s\x00\x8b\xa7Us\xc2\rj\x8anU}\x05V\xd4\xa8A3".split_at(20);
    println!("{:?} : {:?}", a, b);
}

#[test]
fn tree_test_commit_as_bytes() {}

#[test]
fn tree_test_commit_display() {}

#[test]
fn test_entry_as_bytes_layout() {
    let entry = Entry::new(
        33188,
        b"first.rs".to_vec(),
        b"\\s\x00\x8b\xa7Us\xc2\rj\x8anU}\x05V\xd4\xa8A3".to_vec(),
    );
    assert_eq!(
        entry.as_bytes(),
        b"33188 first.rs\0\\s\x00\x8b\xa7Us\xc2\rj\x8anU}\x05V\xd4\xa8A3".to_vec()
    );
}

#[test]
fn test_entry_as_type() {
    let blob_entry = Entry::new(0o100644, b"a".to_vec(), vec![0u8; 20]);
    assert_eq!(blob_entry.as_type(), "blob");
    let tree_entry = Entry::new(0o040755, b"d".to_vec(), vec![0u8; 20]);
    assert_eq!(tree_entry.as_type(), "tree");
    let odd_entry = Entry::new(0, b"x".to_vec(), vec![0u8; 20]);
    assert_eq!(odd_entry.as_type(), "unknown");
}

#[test]
fn test_tree_round_trip_sorts_entries() {
    let e1 = Entry::new(33188, b"zeta.rs".to_vec(), vec![1u8; 20]);
    let e2 = Entry::new(33188, b"alpha.rs".to_vec(), vec![2u8; 20]);
    let tree = Tree {
        entries: vec![e1.clone(), e2.clone()],
    };
    let raw = tree.as_bytes();
    let decoded = Object::from_content(raw).unwrap();
    match decoded {
        Object::Tree(t) => {
            assert_eq!(t.entries.len(), 2);
            assert_eq!(t.entries[0], e2);
            assert_eq!(t.entries[1], e1);
        },
        _ => panic!("expected a tree"),
    }
}

#[test]
fn test_tree_hash_insensitive_to_entry_order() {
    let e1 = Entry::new(33188, b"first.rs".to_vec(), vec![3u8; 20]);
    let e2 = Entry::new(33188, b"second.rs".to_vec(), vec![4u8; 20]);
    let t1 = Tree::from_entries(vec![e1.clone(), e2.clone()]);
    let t2 = Tree::from_entries(vec![e2, e1]);
    assert_eq!(t1.to_hash(), t2.to_hash());
}

#[test]
fn test_known_tree_hash() {
    // the directory holding only first.rs, as the working tree has it
    let entry = Entry::new(
        33188,
        b"first.rs".to_vec(),
        hex::decode("5c73008ba75573c20d6a8a6e557d0556d4a84133").unwrap(),
    );
    let tree = Tree::from_entries(vec![entry]);
    assert_eq!(
        hex::encode(tree.to_hash()),
        "c192349d0ee530038e5d925fdd701652ca755ba8"
    );
}

#[test]
fn test_entry_group_hash() {
    let entry1 = Entry::new(
        33188,
        b"first.rs".to_vec(),
        hex::decode("5c73008ba75573c20d6a8a6e557d0556d4a84133").unwrap(),
    );
    let entry2 = Entry::new(
        33188,
        b"second.rs".to_vec(),
        hex::decode("786ac62591a338fceb7629526b578b710fca0133").unwrap(),
    );
    let group = Entry::new_group(0o040755, b"sub".to_vec(), vec![entry1, entry2]);
    assert_eq!(group.mode, 0o040755);
    assert_eq!(group.name, b"sub".to_vec());
    assert_eq!(group.hash.len(), 20);
}

#[test]
fn test_malformed_object_header() {
    assert_eq!(
        match Object::from_content(b"no nul byte here".to_vec()) {
            Err(e) => e,
            Ok(_) => panic!("expected an error"),
        },
        nss::Error::MalformedObject
    );
}

#[test]
fn test_object_kind_dispatch() {
    let blob_obj = Object::from_content(b"blob 2\0hi".to_vec()).unwrap();
    assert_eq!(blob_obj.as_str(), "blob");
    match blob_obj {
        Object::Blob(b) => assert_eq!(b.content, b"hi".to_vec()),
        _ => panic!("expected a blob"),
    }
}
