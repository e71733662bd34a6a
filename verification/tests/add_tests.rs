use minigit::command::add::{
    add_failure_message, nothing_to_add_message, store_in_database_and_update_index, StagedFile,
};
use minigit::database::Database;
use minigit::index::{lock_contention_message, Index};
use minigit::workspace::{canonical_mode, pathspec_error, MinigitMetadata, Workspace};

fn meta_with_mode(raw_mode: u32) -> MinigitMetadata {
    MinigitMetadata {
        ctime: 10,
        ctime_nsec: 0,
        mtime: 10,
        mtime_nsec: 0,
        dev: 1,
        ino: 2,
        mode: canonical_mode(raw_mode),
        uid: 0,
        gid: 0,
        size: 11,
    }
}

fn staged(path: &str, data: &[u8], raw_mode: u32) -> StagedFile {
    StagedFile {
        path: String::from(path),
        data: data.to_vec(),
        metadata: meta_with_mode(raw_mode),
    }
}

fn add_all(index: &mut Index, files: Vec<StagedFile>) {
    let database = Database::new(String::from("/tmp/objects"));
    let writes = store_in_database_and_update_index(files, &database, index);
    assert!(writes.iter().all(|w| w.dir_name.len() == 2 && w.file_name.len() == 38));
}

fn index_summary(index: &Index) -> Vec<(u32, String)> {
    let mut out = Vec::new();
    let mut i = 0;
    while i < index.len() {
        let e = index.entry_at(i);
        out.push((e.get_mode(), String::from(e.get_path_as_str())));
        i += 1;
    }
    out
}

#[test]
fn test_add_one_file() {
    let mut index = Index::new();
    add_all(&mut index, vec![staged("hello.txt", b"Hello World", 0o644)]);
    assert_eq!(index_summary(&index), vec![(0o100644, String::from("hello.txt"))]);
}

#[test]
fn test_add_one_executable_file() {
    let mut index = Index::new();
    add_all(&mut index, vec![staged("hello.txt", b"Hello World", 0o770)]);
    assert_eq!(index_summary(&index), vec![(0o100755, String::from("hello.txt"))]);
}

#[test]
fn test_add_multiple_files() {
    let mut index = Index::new();
    add_all(&mut index, vec![staged("bob.txt", b"Bob", 0o644), staged("alice.txt", b"Alice", 0o644)]);
    assert_eq!(
        index_summary(&index),
        vec![(0o100644, String::from("alice.txt")), (0o100644, String::from("bob.txt"))]
    );
}

#[test]
fn test_add_multiple_inside_a_directory() {
    let mut index = Index::new();
    add_all(
        &mut index,
        vec![staged("nested/alice.txt", b"Alice", 0o644), staged("nested/bob.txt", b"Bob", 0o644)],
    );
    assert_eq!(
        index_summary(&index),
        vec![
            (0o100644, String::from("nested/alice.txt")),
            (0o100644, String::from("nested/bob.txt")),
        ]
    );
}

#[test]
fn test_add_directory() {
    // adding a directory stages every file enumerated under it
    let mut index = Index::new();
    add_all(
        &mut index,
        vec![staged("nested/alice.txt", b"Alice", 0o644), staged("nested/bob.txt", b"Bob", 0o644)],
    );
    assert_eq!(
        index_summary(&index),
        vec![
            (0o100644, String::from("nested/alice.txt")),
            (0o100644, String::from("nested/bob.txt")),
        ]
    );
}

#[test]
fn add_test_add_replace_file_by_directory() {
    let mut index = Index::new();
    add_all(&mut index, vec![staged("alice.txt", b"Alice", 0o644)]);
    add_all(&mut index, vec![staged("alice.txt/bob.txt", b"Bob", 0o644)]);
    assert_eq!(index_summary(&index), vec![(0o100644, String::from("alice.txt/bob.txt"))]);
}

#[test]
fn add_test_add_replace_directory_by_file() {
    let mut index = Index::new();
    add_all(&mut index, vec![staged("nested/alice.txt", b"Alice", 0o644)]);
    add_all(&mut index, vec![staged("nested", b"Nested", 0o644)]);
    assert_eq!(index_summary(&index), vec![(0o100644, String::from("nested"))]);
}

#[test]
fn add_test_add_replace_complex_directory_by_file() {
    let mut index = Index::new();
    add_all(
        &mut index,
        vec![staged("nested/alice.txt", b"Alice", 0o644), staged("nested/inner/bob.txt", b"Bob", 0o644)],
    );
    add_all(&mut index, vec![staged("nested", b"Nested", 0o644)]);
    assert_eq!(index_summary(&index), vec![(0o100644, String::from("nested"))]);
}

#[test]
fn test_add_non_existent_file() {
    // `add bad_path.txt` in a repository at `repo_path` resolves the path
    // against the workspace root and, finding nothing on disk, fails with
    // the pathspec diagnostic before anything is staged.
    let repo_path = "/private/tmp/minigit_test/repo";
    let workspace = Workspace::new(String::from(repo_path));
    let resolved = workspace.resolve_path("bad_path.txt");
    let error = pathspec_error(&resolved);
    assert_eq!(
        error.message,
        format!("fatal: pathspec '{}/bad_path.txt' did not match any files", repo_path)
    );
}

#[test]
fn test_add_failure_wrapping() {
    assert_eq!(
        add_failure_message("error: trying to read file 'hello.txt': Permission denied (os error 13)"),
        "error: trying to read file 'hello.txt': Permission denied (os error 13)\nfatal: adding files failed"
    );
    assert_eq!(
        nothing_to_add_message(),
        "Nothing specified, nothing added.\nMaybe you wanted to say 'minigit add .'?"
    );
}

#[test]
fn test_lock_contention_message() {
    let inner = "Unable to create '/x/.git/index.lock': File exists (os error 17)";
    let message = lock_contention_message(inner);
    assert!(message.starts_with("fatal: Unable to create '/x/.git/index.lock'"));
    assert!(message.contains("\n\nAnother git process seems to be running in this repository.\n"));
    assert!(message.ends_with("remove the file manually to continue."));
}
