use nss::object::Hashable;
use nss::Blob;

const SNIPPET: &[u8] = b"#[allow(dead_code)]
fn commit(message: &str) -> std::io::Result<()> {
    let tree_hash = write_tree()?;
    match commit_tree(&tree_hash, message)? {
        Some(c) => update_ref(&c)?,
        _ => println!(\"Nothing to commit\")
    };

    Ok(())
}";

#[test]
fn test_blob_from_rawobject() {
    let blob = Blob::from_rawobject(SNIPPET).unwrap();
    assert_eq!(blob.content, SNIPPET.to_vec());
}

#[test]
fn test_blob_as_bytes() {
    let blob = Blob {
        content: SNIPPET.to_vec(),
    };
    let bytes = blob.as_bytes();
    let expected_bytes = b"blob 250\0#[allow(dead_code)]
fn commit(message: &str) -> std::io::Result<()> {
    let tree_hash = write_tree()?;
    match commit_tree(&tree_hash, message)? {
        Some(c) => update_ref(&c)?,
        _ => println!(\"Nothing to commit\")
    };

    Ok(())
}";
    assert_eq!(bytes, expected_bytes.to_vec());
}

#[test]
fn test_blob_to_hash() {
    let blob = Blob {
        content: SNIPPET.to_vec(),
    };
    assert_eq!(
        blob.to_hash(),
        hex::decode("5c73008ba75573c20d6a8a6e557d0556d4a84133".as_bytes()).unwrap()
    );
}

#[test]
fn test_blob_display() {
    let blob = Blob {
        content: b"Hello, world!".to_vec(),
    };
    let display = blob.to_text().unwrap();
    assert_eq!(display, "Hello, world!");
}

#[test]
fn test_blob_debug() {
    let blob = Blob {
        content: b"hellow".to_vec(),
    };
    let debug = format!("{:?}", blob);
    let test_debug = "Blob { content: [104, 101, 108, 108, 111, 119] }";
    assert_eq!(debug, test_debug)
}

#[test]
fn test_blob_clone() {
    let blob = Blob {
        content: b"hellow".to_vec(),
    };
    assert_eq!(blob, blob.clone())
}

#[test]
fn test_empty_blob_framing_and_hash() {
    let blob = Blob::new(Vec::new());
    assert_eq!(blob.as_bytes(), b"blob 0\0".to_vec());
    assert_eq!(
        blob.to_hash(),
        hex::decode("e69de29bb2d1d6434b8b29ae775ad8c2e48c5391").unwrap()
    );
}

#[test]
fn test_short_blob_framing_and_hash() {
    let blob = Blob::new(b"hello\n".to_vec());
    assert_eq!(blob.as_bytes(), b"blob 6\0hello\n".to_vec());
    assert_eq!(
        blob.to_hash(),
        hex::decode("ce013625030ba8dba906f756967f9e9ca394464a").unwrap()
    );
}

#[test]
fn test_blob_text_rejects_invalid_utf8() {
    let blob = Blob::new(vec![0xff, 0xfe, 0xfd]);
    assert_eq!(blob.to_text(), Err(nss::Error::Encoding));
}
