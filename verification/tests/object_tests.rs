use crypto::digest::Digest;
use std::io::Read;

use minigit::command::commit::CommitCommand;
use minigit::database::{Database, ObjectWrite};
use minigit::gitobject::{Author, Blob, Entry, GitObject, Tree};
use minigit::workspace::MinigitMetadata;

fn meta(mode: u32) -> MinigitMetadata {
    MinigitMetadata {
        ctime: 1,
        ctime_nsec: 2,
        mtime: 3,
        mtime_nsec: 4,
        dev: 5,
        ino: 6,
        mode,
        uid: 7,
        gid: 8,
        size: 9,
    }
}

fn sha1_hex(bytes: &[u8]) -> String {
    let mut hasher = crypto::sha1::Sha1::new();
    hasher.input(bytes);
    hasher.result_str()
}

fn decompress(bytes: &[u8]) -> Vec<u8> {
    let mut decoder = flate2::read::ZlibDecoder::new(bytes);
    let mut out = Vec::new();
    decoder.read_to_end(&mut out).unwrap();
    out
}

#[test]
fn test_store_blob_oid_and_content() {
    let database = Database::new(String::from("/tmp/objects"));
    let mut blob = Blob::new(b"Hello World".to_vec());
    let write = database.store(&mut blob);
    let content = b"blob 11\x00Hello World".to_vec();
    let expected_oid = sha1_hex(&content);
    assert_eq!(blob.get_oid(), expected_oid.as_str());
    assert_eq!(format!("{}{}", write.dir_name, write.file_name), expected_oid);
    assert_eq!(write.dir_name.len(), 2);
    assert_eq!(decompress(&write.compressed), content);
}

#[test]
fn test_store_same_object_twice_is_identical() {
    let database = Database::new(String::from("/tmp/objects"));
    let mut one = Blob::new(b"same bytes".to_vec());
    let mut two = Blob::new(b"same bytes".to_vec());
    let w1 = database.store(&mut one);
    let w2 = database.store(&mut two);
    assert_eq!(one.get_oid(), two.get_oid());
    assert_eq!(w1.dir_name, w2.dir_name);
    assert_eq!(w1.file_name, w2.file_name);
    assert_eq!(w1.compressed, w2.compressed);
}

#[test]
fn test_author_line_rendering() {
    let author = Author::new("Jane Doe", "jane@example.com", 1234567890, 3600);
    assert_eq!(author.to_string(), "Jane Doe <jane@example.com> 1234567890 +0100");
    let west = Author::new("A", "a@b", 0, -5 * 3600);
    assert_eq!(west.to_string(), "A <a@b> 0 -0500");
    let half = Author::new("A", "a@b", -12, 5 * 3600 + 30 * 60);
    assert_eq!(half.to_string(), "A <a@b> -12 +0530");
}

#[test]
fn test_tree_build_and_traverse() {
    let database = Database::new(String::from("/tmp/objects"));
    let oid_a = "aaaaaaaaaaaaaaaaaaaaaaaaaaaaaaaaaaaaaaaa";
    let oid_b = "bbbbbbbbbbbbbbbbbbbbbbbbbbbbbbbbbbbbbbbb";
    let entries = vec![
        Entry::new("alice.txt", oid_a, meta(0o100644)),
        Entry::new("nested/bob.txt", oid_b, meta(0o100755)),
    ];
    let mut tree = Tree::build(entries);
    let mut writes: Vec<ObjectWrite> = Vec::new();
    tree.traverse(&database, &mut writes);
    // one write for `nested`, one for the root
    assert_eq!(writes.len(), 2);

    let mut nested_payload = Vec::new();
    nested_payload.extend_from_slice(b"100755 bob.txt\x00");
    nested_payload.extend_from_slice(&oid_to_raw(oid_b));
    let nested_content = with_header("tree", &nested_payload);
    let nested_oid = sha1_hex(&nested_content);
    assert_eq!(decompress(&writes[0].compressed), nested_content);

    let mut root_payload = Vec::new();
    root_payload.extend_from_slice(b"100644 alice.txt\x00");
    root_payload.extend_from_slice(&oid_to_raw(oid_a));
    root_payload.extend_from_slice(b"40000 nested\x00");
    root_payload.extend_from_slice(&oid_to_raw(&nested_oid));
    let root_content = with_header("tree", &root_payload);
    assert_eq!(decompress(&writes[1].compressed), root_content);
    assert_eq!(tree.get_oid(), sha1_hex(&root_content).as_str());
}

fn oid_to_raw(oid: &str) -> Vec<u8> {
    minigit::oid_to_compressed_u8_array(oid)
}

fn with_header(kind: &str, payload: &[u8]) -> Vec<u8> {
    let mut content = Vec::new();
    content.extend_from_slice(kind.as_bytes());
    content.push(b' ');
    content.extend_from_slice(payload.len().to_string().as_bytes());
    content.push(0);
    content.extend_from_slice(payload);
    content
}

#[test]
fn test_commit_snapshot_payload() {
    let database = Database::new(String::from("/tmp/objects"));
    let entries = vec![Entry::new("hello.txt", "aaaaaaaaaaaaaaaaaaaaaaaaaaaaaaaaaaaaaaaa", meta(0o100644))];
    let author = Author::new("Jane", "jane@example.com", 100, 0);
    let outcome = CommitCommand::build_snapshot(entries, &None, author, "first commit\nbody\n", &database);
    // tree write + commit write
    assert_eq!(outcome.writes.len(), 2);
    let tree_content = decompress(&outcome.writes[0].compressed);
    let tree_oid = sha1_hex(&tree_content);
    let expected_payload = format!(
        "tree {}\nauthor Jane <jane@example.com> 100 +0000\ncommitter Jane <jane@example.com> 100 +0000\n\nfirst commit\nbody\n",
        tree_oid
    );
    let commit_content = with_header("commit", expected_payload.as_bytes());
    assert_eq!(decompress(&outcome.writes[1].compressed), commit_content);
    assert_eq!(outcome.commit_oid, sha1_hex(&commit_content));
    assert_eq!(
        outcome.announcement,
        format!("[(root-commit) {}] first commit\n", outcome.commit_oid)
    );
}

#[test]
fn test_commit_with_parent_announcement() {
    let database = Database::new(String::from("/tmp/objects"));
    let entries = vec![Entry::new("a.txt", "cccccccccccccccccccccccccccccccccccccccc", meta(0o100644))];
    let author = Author::new("J", "j@e", 0, 0);
    let parent = Some(String::from("dddddddddddddddddddddddddddddddddddddddd"));
    let outcome = CommitCommand::build_snapshot(entries, &parent, author, "msg", &database);
    assert!(outcome.announcement.starts_with('['));
    assert!(!outcome.announcement.contains("root-commit"));
    let commit_content = decompress(&outcome.writes[outcome.writes.len() - 1].compressed);
    let text = String::from_utf8(commit_content).unwrap();
    assert!(text.contains("\nparent dddddddddddddddddddddddddddddddddddddddd\n"));
}
