use minigit::command::status::{scan_workspace, StatusCommand, WsNode};
use minigit::index::Index;
use minigit::workspace::MinigitMetadata;

fn meta() -> MinigitMetadata {
    MinigitMetadata {
        ctime: 1,
        ctime_nsec: 1,
        mtime: 1,
        mtime_nsec: 1,
        dev: 1,
        ino: 1,
        mode: 0o100644,
        uid: 1,
        gid: 1,
        size: 1,
    }
}

const OID: &str = "0123456789abcdef0123456789abcdef01234567";

fn file(name: &str) -> WsNode {
    WsNode::File(String::from(name))
}

fn dir(name: &str, children: Vec<WsNode>) -> WsNode {
    WsNode::Dir(String::from(name), children)
}

fn status_of(index: &Index, nodes: Vec<WsNode>) -> String {
    let nodes = nodes;
    let untracked = StatusCommand::untracked_paths(index, &nodes);
    StatusCommand::render(&untracked)
}

#[test]
fn test_list_untracked_files_in_name_order() {
    let index = Index::new();
    let out = status_of(&index, vec![file("bob.txt"), file("alice.txt")]);
    assert_eq!(out, "?? alice.txt\n?? bob.txt\n");
}

#[test]
fn test_list_untracked_directory() {
    let index = Index::new();
    let out = status_of(&index, vec![file("alice.txt"), dir("dir", vec![file("bob.txt")])]);
    assert_eq!(out, "?? alice.txt\n?? dir/\n");
}

#[test]
fn test_list_untracked_files_inside_tracked_directories() {
    let mut index = Index::new();
    index.add("a/b/inner.txt", OID, meta());
    let out = status_of(
        &index,
        vec![dir(
            "a",
            vec![dir("b", vec![file("inner.txt"), dir("c", vec![file("file.txt")])]), file("outer.txt")],
        )],
    );
    assert_eq!(out, "?? a/b/c/\n?? a/outer.txt\n");
}

#[test]
fn test_do_not_list_untracked_directory() {
    let index = Index::new();
    let out = status_of(&index, vec![dir("dir", vec![])]);
    assert_eq!(out, "");
}

#[test]
fn test_list_untracked_directory_that_indirectly_contains_file() {
    let index = Index::new();
    let out = status_of(&index, vec![dir("outer", vec![dir("inner", vec![file("file.txt")])])]);
    assert_eq!(out, "?? outer/\n");
}

#[test]
fn test_scan_keeps_existing_entries_sorted() {
    let index = Index::new();
    let mut untracked: Vec<String> = Vec::new();
    let nodes = vec![file("b.txt")];
    scan_workspace(&index, &nodes, "", &mut untracked);
    let more = vec![file("a.txt")];
    scan_workspace(&index, &more, "", &mut untracked);
    assert_eq!(untracked, vec![String::from("a.txt"), String::from("b.txt")]);
}

#[test]
fn test_tracked_file_not_reported() {
    let mut index = Index::new();
    index.add("alice.txt", OID, meta());
    let out = status_of(&index, vec![file("alice.txt"), file("bob.txt")]);
    assert_eq!(out, "?? bob.txt\n");
}
