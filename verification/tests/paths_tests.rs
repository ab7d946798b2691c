use nss::repository::{get_all_paths, get_all_paths_ignore};
use nss::tree_map::{index_2_tree_map, parent_bytes, slash_count_of};
use nss::metadata::FileMeta;
use nss::Index;

fn meta(filename: &[u8], hash_byte: u8) -> FileMeta {
    FileMeta {
        ctime: 0,
        ctime_nsec: 0,
        mtime: 0,
        mtime_nsec: 0,
        dev: 0,
        ino: 0,
        mode: 33188,
        uid: 0,
        gid: 0,
        filesize: 0,
        hash: vec![hash_byte; 20],
        filename_size: filename.len() as u16,
        filename: filename.to_vec(),
    }
}

#[test]
fn test_get_all_paths_sorts() {
    let paths = vec![
        b"/r/b.txt".to_vec(),
        b"/r/a.txt".to_vec(),
        b"/r/sub/x.txt".to_vec(),
    ];
    let sorted = get_all_paths(paths);
    assert_eq!(
        sorted,
        vec![
            b"/r/a.txt".to_vec(),
            b"/r/b.txt".to_vec(),
            b"/r/sub/x.txt".to_vec(),
        ]
    );
}

#[test]
fn test_ignore_rules_filter_paths() {
    let paths = vec![
        b"/r/src/main.rs".to_vec(),
        b"/r/target/out.bin".to_vec(),
        b"/r/.git/config".to_vec(),
        b"/r/.nss/INDEX".to_vec(),
        b"/r/README.md".to_vec(),
        b"/r/target2/keep.txt".to_vec(),
    ];
    // one rule, one comment, one empty line
    let ignore = b"target\n# a comment\n\n";
    let kept = get_all_paths_ignore(b"/r", paths, ignore);
    assert_eq!(
        kept,
        vec![
            b"/r/README.md".to_vec(),
            b"/r/src/main.rs".to_vec(),
            b"/r/target2/keep.txt".to_vec(),
        ]
    );
}

#[test]
fn test_parent_and_depth() {
    assert_eq!(parent_bytes(b"/r/a/b.txt"), b"/r/a".to_vec());
    assert_eq!(parent_bytes(b"/r"), b"".to_vec());
    assert_eq!(parent_bytes(b"name"), b"".to_vec());
    assert_eq!(slash_count_of(&b"/r/a/b.txt".to_vec()), 3);
    assert_eq!(slash_count_of(&b"name".to_vec()), 0);
}

#[test]
fn test_index_2_tree_map_layout() {
    let index = Index {
        version: 1,
        filemetas: vec![
            meta(b"a.txt", 1),
            meta(b"sub/b.txt", 2),
            meta(b"sub/deep/c.txt", 3),
        ],
    };
    let tm = index_2_tree_map(b"/r", &index).unwrap();
    let dirs: Vec<Vec<u8>> = tm.iter().map(|e| e.0.clone()).collect();
    assert!(dirs.contains(&b"/r".to_vec()));
    assert!(dirs.contains(&b"/r/sub".to_vec()));
    assert!(dirs.contains(&b"/r/sub/deep".to_vec()));
    assert_eq!(dirs.len(), 3);
    // deepest first
    assert_eq!(dirs[0], b"/r/sub/deep".to_vec());
    assert_eq!(dirs[2], b"/r".to_vec());
    // each directory lists its own files and immediate subdirectories
    let deep = &tm[0];
    assert_eq!(deep.1, vec![b"/r/sub/deep/c.txt".to_vec()]);
    let sub = &tm[1];
    assert_eq!(sub.0, b"/r/sub".to_vec());
    assert_eq!(
        sub.1,
        vec![b"/r/sub/b.txt".to_vec(), b"/r/sub/deep".to_vec()]
    );
    let root = &tm[2];
    assert_eq!(root.1, vec![b"/r/a.txt".to_vec(), b"/r/sub".to_vec()]);
}
