use nss::object::Hashable;
use nss::{Commit, Object};

fn sample_commit() -> Commit {
    Commit {
        tree_hash: b"c192349d0ee530038e5d925fdd701652ca755ba8".to_vec(),
        parents: vec![b"a02b83cb54ba139e5c9d623a2fcf5424552946e0".to_vec()],
        author: b"nopeNoshihsi".to_vec(),
        committer: b"nopeNoshihsi".to_vec(),
        date: 1687619045,
        message: b"initial".to_vec(),
    }
}

#[test]
fn test_commit_new() {
    let result = Commit::new(
        b"c192349d0ee530038e5d925fdd701652ca755ba8".to_vec(),
        vec![b"a02b83cb54ba139e5c9d623a2fcf5424552946e0".to_vec()],
        b"nopeNoshihsi".to_vec(),
        b"nopeNoshihsi".to_vec(),
        b"initial".to_vec(),
    );
    assert!(result.is_ok());

    let commit = result.unwrap();
    let time = commit.date;

    let mut test_commit = sample_commit();
    test_commit.date = time;
    assert_eq!(commit, test_commit);
}

#[test]
fn commit_test_commit_from_rawobject() {
    let content = b"tree c192349d0ee530038e5d925fdd701652ca755ba8
parent a02b83cb54ba139e5c9d623a2fcf5424552946e0
author nopeNoshihsi
committer nopeNoshihsi
date 1687619045

initial
";
    let commit = Commit::from_rawobject(content).unwrap();
    assert_eq!(commit, sample_commit());
}

#[test]
fn commit_test_commit_as_bytes() {
    let commit = sample_commit();
    let content = commit.as_bytes();
    let test_content = b"commit 162\0tree c192349d0ee530038e5d925fdd701652ca755ba8
parent a02b83cb54ba139e5c9d623a2fcf5424552946e0
author nopeNoshihsi
committer nopeNoshihsi
date 1687619045

initial
";
    assert_eq!(content, test_content.to_vec());
}

#[test]
fn test_commit_to_hash() {}

#[test]
fn commit_test_commit_display() {}

#[test]
fn test_commit_round_trip_through_object() {
    let commit = sample_commit();
    let raw = commit.as_bytes();
    let decoded = Object::from_content(raw).unwrap();
    match decoded {
        Object::Commit(c) => assert_eq!(c, commit),
        _ => panic!("expected a commit"),
    }
}

#[test]
fn test_root_commit_round_trip() {
    let commit = Commit {
        tree_hash: b"c192349d0ee530038e5d925fdd701652ca755ba8".to_vec(),
        parents: vec![],
        author: b"nopeNoshihsi".to_vec(),
        committer: b"nopeNoshihsi".to_vec(),
        date: 0,
        message: b"initial".to_vec(),
    };
    let raw = commit.as_bytes();
    // a root commit writes the literal line `parent None`
    let body = &raw[raw.iter().position(|&b| b == 0).unwrap() + 1..];
    assert!(body
        .windows(b"parent None\n".len())
        .any(|w| w == b"parent None\n"));
    let decoded = Object::from_content(raw).unwrap();
    match decoded {
        Object::Commit(c) => assert_eq!(c, commit),
        _ => panic!("expected a commit"),
    }
}

#[test]
fn test_merge_commit_keeps_parent_order() {
    let commit = Commit {
        tree_hash: b"c192349d0ee530038e5d925fdd701652ca755ba8".to_vec(),
        parents: vec![b"1111111111".to_vec(), b"2222222222".to_vec()],
        author: b"a".to_vec(),
        committer: b"c".to_vec(),
        date: -7,
        message: b"merge".to_vec(),
    };
    let raw = commit.as_bytes();
    let decoded = Object::from_content(raw).unwrap();
    match decoded {
        Object::Commit(c) => {
            assert_eq!(c.parents, commit.parents);
            assert_eq!(c.date, -7);
        },
        _ => panic!("expected a commit"),
    }
}

#[test]
fn test_commit_missing_date_is_malformed() {
    let content = b"tree c192349d0ee530038e5d925fdd701652ca755ba8
author nopeNoshihsi
";
    assert_eq!(
        Commit::from_rawobject(content),
        Err(nss::Error::MalformedObject)
    );
}
