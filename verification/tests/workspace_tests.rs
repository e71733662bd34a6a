use minigit::workspace::Workspace;

#[test]
fn test_ignore_rules() {
    let workspace = Workspace::new(String::from("/repo"));
    assert!(workspace.is_dir_ignored("/repo/.git"));
    assert!(workspace.is_dir_ignored("/repo/a/target"));
    assert!(!workspace.is_dir_ignored("/repo/targets"));
    assert!(!workspace.is_dir_ignored("/repo/src"));
    assert!(workspace.is_file_ignored("/repo/.DS_Store"));
    assert!(workspace.is_file_ignored("/repo/a/project.iml"));
    assert!(!workspace.is_file_ignored("/repo/.iml"));
    assert!(!workspace.is_file_ignored("/repo/iml"));
    assert!(!workspace.is_file_ignored("/repo/notes.txt"));
}

#[test]
fn test_resolve_path() {
    let workspace = Workspace::new(String::from("/repo"));
    assert_eq!(workspace.resolve_path("a/b.txt"), "/repo/a/b.txt");
    assert_eq!(workspace.resolve_path("/abs/c.txt"), "/abs/c.txt");
}

#[test]
fn test_refs_head_path() {
    let refs = minigit::refs::Refs::new(String::from("/repo/.git"));
    assert_eq!(refs.get_head_path(), "/repo/.git/HEAD");
}
