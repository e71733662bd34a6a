use crypto::digest::Digest;

use minigit::gitobject::Entry;
use minigit::index::Index;
use minigit::workspace::MinigitMetadata;

fn meta() -> MinigitMetadata {
    MinigitMetadata {
        ctime: 100,
        ctime_nsec: 200,
        mtime: 300,
        mtime_nsec: 400,
        dev: 5,
        ino: 6,
        mode: 0o100644,
        uid: 7,
        gid: 8,
        size: 9,
    }
}

const OID: &str = "00aabbccddeeff0011223344556677889900aabb";

fn prepare_test_context(paths: &[&str]) -> Index {
    let mut index = Index::new();
    for path in paths {
        index.add(path, OID, meta());
    }
    index
}

fn entry_paths(index: &Index) -> Vec<String> {
    let mut out = Vec::new();
    let mut i = 0;
    while i < index.len() {
        out.push(String::from(index.entry_at(i).get_path_as_str()));
        i += 1;
    }
    out
}

#[test]
fn test_add_one_entry() {
    let index = prepare_test_context(&["alice.txt"]);
    assert_eq!(vec!["alice.txt"], entry_paths(&index));
}

#[test]
fn test_add_multiple_values() {
    let index = prepare_test_context(&["bob.txt", "alice.txt"]);
    assert_eq!(vec!["alice.txt", "bob.txt"], entry_paths(&index));
}

#[test]
fn index_test_add_multiple_inside_a_directory() {
    let index = prepare_test_context(&["nested/bob.txt", "nested/alice.txt"]);
    assert_eq!(vec!["nested/alice.txt", "nested/bob.txt"], entry_paths(&index));
}

#[test]
fn index_test_add_replace_file_by_directory() {
    let index = prepare_test_context(&["alice.txt", "bob.txt", "alice.txt/nested.txt"]);
    assert_eq!(vec!["alice.txt/nested.txt", "bob.txt"], entry_paths(&index));
}

#[test]
fn index_test_add_replace_directory_by_file() {
    let index = prepare_test_context(&["alice.txt", "nested/bob.txt", "nested"]);
    assert_eq!(vec!["alice.txt", "nested"], entry_paths(&index));
}

#[test]
fn index_test_add_replace_complex_directory_by_file() {
    let index = prepare_test_context(&["alice.txt", "nested/bob.txt", "nested/inner/claire.txt", "nested"]);
    assert_eq!(vec!["alice.txt", "nested"], entry_paths(&index));
}

#[test]
fn test_add_prefix_path_evicts_shorter() {
    let index = prepare_test_context(&["a", "a/b/c"]);
    assert_eq!(vec!["a/b/c"], entry_paths(&index));
}

#[test]
fn test_is_path_tracked() {
    let index = prepare_test_context(&["a/b/inner.txt"]);
    assert!(index.is_path_tracked("a/b/inner.txt"));
    assert!(index.is_path_tracked("a"));
    assert!(index.is_path_tracked("a/b"));
    assert!(!index.is_path_tracked("a/b/other.txt"));
    assert!(!index.is_path_tracked("a/bc"));
}

#[test]
fn test_entry_serialization_layout() {
    let entry = Entry::new("hello.txt", OID, meta());
    let data = entry.get_data();
    // 62 fixed bytes + 9 path bytes + 1 NUL = 72, already a multiple of 8
    assert_eq!(data.len(), 72);
    assert_eq!(&data[0..4], &[0, 0, 0, 100]);
    assert_eq!(&data[24..28], &[0, 0, 0o201, 0o244]);
    assert_eq!(&data[40..60], minigit::oid_to_compressed_u8_array(OID).as_slice());
    assert_eq!(&data[60..62], &[0, 9]);
    assert_eq!(&data[62..71], b"hello.txt");
    assert_eq!(data[71], 0);
}

#[test]
fn test_entry_padding_boundaries() {
    // flags clamp at 0xFFF and the 8-byte padding boundary
    for (len, expected_flags) in [(4088usize, 4088u16), (4089, 4089), (4095, 4095), (5000, 4095)] {
        let path: String = std::iter::repeat('x').take(len).collect();
        let entry = Entry::new(&path, OID, meta());
        let data = entry.get_data();
        assert_eq!(data.len() % 8, 0);
        assert!(data.len() > 62 + len);
        assert!(data.len() <= 62 + len + 8);
        let flags = ((data[60] as u16) << 8) | data[61] as u16;
        assert_eq!(flags, expected_flags);
    }
}

#[test]
fn test_write_updates_and_reload_round_trip() {
    let mut index = prepare_test_context(&["alice.txt", "nested/bob.txt"]);
    let bytes = index.write_updates().expect("changed index must serialize");
    // trailing 20 bytes are the SHA-1 of everything before them
    let mut hasher = crypto::sha1::Sha1::new();
    hasher.input(&bytes[..bytes.len() - 20]);
    let mut digest = [0u8; 20];
    hasher.result(&mut digest);
    assert_eq!(&bytes[bytes.len() - 20..], &digest);
    assert_eq!(&bytes[0..4], b"DIRC");
    assert_eq!(&bytes[4..8], &[0, 0, 0, 2]);
    assert_eq!(&bytes[8..12], &[0, 0, 0, 2]);

    let mut fresh = Index::new();
    fresh.load_for_update(Some(&bytes)).unwrap();
    assert_eq!(entry_paths(&fresh), vec!["alice.txt", "nested/bob.txt"]);
    assert_eq!(fresh.entry_at(0).get_mode(), 0o100644);
    assert_eq!(fresh.entry_at(0).get_oid().as_slice(), minigit::oid_to_compressed_u8_array(OID).as_slice());
    assert_eq!(fresh.entry_at(0).get_metadata(), meta());

    // writing the reloaded index after a no-op add produces identical bytes
    let mut again = Index::new();
    again.load_for_update(Some(&bytes)).unwrap();
    again.add("alice.txt", OID, meta());
    let bytes2 = again.write_updates().expect("changed");
    assert_eq!(bytes, bytes2);
}

#[test]
fn test_write_updates_unchanged_is_none() {
    let mut index = Index::new();
    assert!(index.write_updates().is_none());
    let mut loaded = prepare_test_context(&["a.txt"]);
    let bytes = loaded.write_updates().unwrap();
    let mut fresh = Index::new();
    fresh.load_for_update(Some(&bytes)).unwrap();
    assert!(fresh.write_updates().is_none());
}

#[test]
fn test_load_absent_index_is_empty() {
    let mut index = Index::new();
    index.load_for_update(None).unwrap();
    assert_eq!(index.len(), 0);
}

#[test]
fn test_corrupt_index_diagnoses() {
    let mut index = prepare_test_context(&["alice.txt"]);
    let bytes = index.write_updates().unwrap();

    let truncated_one = &bytes[..bytes.len() - 1];
    let mut i1 = Index::new();
    assert_eq!(
        i1.load_for_update(Some(truncated_one)).unwrap_err().message,
        "fatal: index was shorter than expected"
    );

    let truncated_hash = &bytes[..bytes.len() - 20];
    let mut i2 = Index::new();
    assert_eq!(
        i2.load_for_update(Some(truncated_hash)).unwrap_err().message,
        "fatal: index was shorter than expected"
    );

    let mut bad_magic = bytes.clone();
    bad_magic[0] = b'X';
    let mut i3 = Index::new();
    assert_eq!(
        i3.load_for_update(Some(&bad_magic)).unwrap_err().message,
        "Index signature: expected 'DIRC', got XIRC"
    );

    let mut bad_magic_bytes = bytes.clone();
    bad_magic_bytes[0] = 0xff;
    bad_magic_bytes[1] = 0xfe;
    let mut i4 = Index::new();
    assert_eq!(
        i4.load_for_update(Some(&bad_magic_bytes)).unwrap_err().message,
        "Index signature: expected 'DIRC', got incorrect utf8 bytes [255, 254, 82, 67]"
    );

    let mut version_one = bytes.clone();
    version_one[7] = 1;
    let mut i5 = Index::new();
    assert_eq!(
        i5.load_for_update(Some(&version_one)).unwrap_err().message,
        "Index version: expected 2, got 1"
    );

    let mut version_three = bytes.clone();
    version_three[7] = 3;
    let mut i6 = Index::new();
    assert_eq!(
        i6.load_for_update(Some(&version_three)).unwrap_err().message,
        "Index version: expected 2, got 3"
    );

    let mut flipped = bytes.clone();
    let k = flipped.len() - 25;
    flipped[k] ^= 0x01;
    let mut i7 = Index::new();
    assert_eq!(
        i7.load_for_update(Some(&flipped)).unwrap_err().message,
        "fatal: index file corrupt"
    );
}
