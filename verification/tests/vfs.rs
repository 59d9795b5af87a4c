use memvfs::engine::{diagnostic, VfsError, VFS};
use memvfs::parser::Command;

fn cmd(line: &str) -> Command {
    Command::from_str(line).unwrap()
}

fn apply(vfs: &mut VFS, line: &str) -> Result<Vec<String>, VfsError> {
    vfs.apply_command(&cmd(line))
}

fn list(vfs: &mut VFS, line: &str) -> Vec<String> {
    apply(vfs, line).unwrap()
}

#[test]
pub fn it_parses() {
    let create_dir = Command::from_str("CREATE a/b/c").unwrap();
    assert_eq!(create_dir, Command::Create("a/b/c".into()));

    let move_dir = Command::from_str("MOVE a b").unwrap();
    assert_eq!(move_dir, Command::Move("a".into(), "b".into()));

    let list_dir_root = Command::from_str("LIST").unwrap();
    assert_eq!(list_dir_root, Command::List(None));

    let list_dir = Command::from_str("LIST /a").unwrap();
    assert_eq!(list_dir, Command::List(Some("/a".into())));

    let delete_dir = Command::from_str("DELETE /a").unwrap();
    assert_eq!(delete_dir, Command::Delete("/a".into()));
}

#[test]
fn it_rejects_unrecognized_lines() {
    assert!(Command::from_str("").is_err());
    assert!(Command::from_str("   ").is_err());
    assert!(Command::from_str("NOPE a").is_err());
    assert!(Command::from_str("create a").is_err());
    assert!(Command::from_str("CREATE").is_err());
    assert!(Command::from_str("CREATE a b").is_err());
    assert!(Command::from_str("LIST a b").is_err());
    assert!(Command::from_str("MOVE a").is_err());
    assert!(Command::from_str("MOVE a b c").is_err());
    assert!(Command::from_str("DELETE").is_err());
    assert!(Command::from_str("DELETE a b").is_err());
}

#[test]
fn it_tokenizes_on_any_blank_run() {
    assert_eq!(cmd("  MOVE   a\tb "), Command::Move("a".into(), "b".into()));
}

#[test]
fn create_is_additive_over_ancestors() {
    let mut vfs = VFS::new();
    assert_eq!(apply(&mut vfs, "CREATE a/b/c"), Ok(vec![]));
    let lines = list(&mut vfs, "LIST");
    assert_eq!(lines, vec!["a".to_string(), "  b".to_string(), "    c".to_string()]);
}

#[test]
fn create_is_idempotent() {
    let mut vfs = VFS::new();
    apply(&mut vfs, "CREATE a/b/c").unwrap();
    let once = list(&mut vfs, "LIST");
    apply(&mut vfs, "CREATE a/b/c").unwrap();
    let twice = list(&mut vfs, "LIST");
    assert_eq!(once, twice);
}

#[test]
fn create_reuses_existing_segments() {
    let mut vfs = VFS::new();
    apply(&mut vfs, "CREATE a/b").unwrap();
    apply(&mut vfs, "CREATE a/c").unwrap();
    let lines = list(&mut vfs, "LIST a");
    assert_eq!(lines, vec!["b".to_string(), "c".to_string()]);
}

#[test]
fn create_ignores_empty_segments() {
    let mut vfs = VFS::new();
    apply(&mut vfs, "CREATE /a//b/").unwrap();
    let lines = list(&mut vfs, "LIST");
    assert_eq!(lines, vec!["a".to_string(), "  b".to_string()]);
}

#[test]
fn move_preserves_basename_and_relocates_subtree() {
    let mut vfs = VFS::new();
    apply(&mut vfs, "CREATE a/b/c").unwrap();
    apply(&mut vfs, "CREATE a/d").unwrap();
    assert_eq!(apply(&mut vfs, "MOVE a/b a/d"), Ok(vec![]));
    let under_d = list(&mut vfs, "LIST a/d");
    assert_eq!(under_d, vec!["b".to_string(), "  c".to_string()]);
    let under_a = list(&mut vfs, "LIST a");
    assert_eq!(under_a, vec!["d".to_string(), "  b".to_string(), "    c".to_string()]);
}

#[test]
fn delete_removes_whole_subtree() {
    let mut vfs = VFS::new();
    apply(&mut vfs, "CREATE a/b/c").unwrap();
    assert_eq!(apply(&mut vfs, "DELETE a/b"), Ok(vec![]));
    let under_a = list(&mut vfs, "LIST a");
    assert_eq!(under_a, Vec::<String>::new());
    let all = list(&mut vfs, "LIST");
    assert_eq!(all, vec!["a".to_string()]);
}

#[test]
fn delete_on_missing_path_reports_and_continues() {
    let mut vfs = VFS::new();
    let delete = cmd("DELETE missing/x");
    let err = vfs.apply_command(&delete).unwrap_err();
    assert_eq!(err, VfsError::NotFound("missing/x".into()));
    let msg = diagnostic(&delete, &err);
    assert_eq!(msg, Some("Cannot delete missing/x - x does not exist".to_string()));

    // Processing goes on: the tree is untouched and usable.
    apply(&mut vfs, "CREATE a").unwrap();
    assert_eq!(list(&mut vfs, "LIST"), vec!["a".to_string()]);
}

#[test]
fn move_of_missing_source_reports_and_continues() {
    let mut vfs = VFS::new();
    apply(&mut vfs, "CREATE a").unwrap();
    let mv = cmd("MOVE missing/x a");
    let err = vfs.apply_command(&mv).unwrap_err();
    assert_eq!(err, VfsError::NotFound("missing/x".into()));
    let msg = diagnostic(&mv, &err);
    assert_eq!(msg, Some("Cannot move missing/x - x does not exist".to_string()));
    assert_eq!(list(&mut vfs, "LIST"), vec!["a".to_string()]);
}

#[test]
fn move_of_missing_destination_is_not_found() {
    let mut vfs = VFS::new();
    apply(&mut vfs, "CREATE a").unwrap();
    let err = apply(&mut vfs, "MOVE a missing").unwrap_err();
    assert_eq!(err, VfsError::NotFound("missing".into()));
}

#[test]
fn list_of_missing_path_has_no_friendly_message() {
    let mut vfs = VFS::new();
    let ls = cmd("LIST missing");
    let err = vfs.apply_command(&ls).unwrap_err();
    assert_eq!(err, VfsError::NotFound("missing".into()));
    assert_eq!(diagnostic(&ls, &err), None);
}

#[test]
fn move_onto_occupied_name_is_refused() {
    let mut vfs = VFS::new();
    apply(&mut vfs, "CREATE a/b/x").unwrap();
    apply(&mut vfs, "CREATE c/b").unwrap();
    let err = apply(&mut vfs, "MOVE a/b c").unwrap_err();
    assert_eq!(err, VfsError::Occupied("c".into()));
    // Nothing was merged or moved.
    assert_eq!(list(&mut vfs, "LIST c"), vec!["b".to_string()]);
    assert_eq!(list(&mut vfs, "LIST a"), vec!["b".to_string(), "  x".to_string()]);
}

#[test]
fn move_into_own_subtree_is_forbidden() {
    let mut vfs = VFS::new();
    apply(&mut vfs, "CREATE a/b").unwrap();
    let err = apply(&mut vfs, "MOVE a a/b").unwrap_err();
    assert_eq!(err, VfsError::Forbidden("a/b".into()));
    let err = apply(&mut vfs, "MOVE a a").unwrap_err();
    assert_eq!(err, VfsError::Forbidden("a".into()));
}

#[test]
fn root_is_never_detached() {
    let mut vfs = VFS::new();
    apply(&mut vfs, "CREATE a").unwrap();
    assert_eq!(apply(&mut vfs, "DELETE /").unwrap_err(), VfsError::Forbidden("/".into()));
    assert_eq!(apply(&mut vfs, "MOVE / a").unwrap_err(), VfsError::Forbidden("/".into()));
    assert_eq!(list(&mut vfs, "LIST"), vec!["a".to_string()]);
}

#[test]
fn listing_is_deterministic() {
    let mut vfs = VFS::new();
    apply(&mut vfs, "CREATE a/b").unwrap();
    apply(&mut vfs, "CREATE a/c/d").unwrap();
    apply(&mut vfs, "CREATE e").unwrap();
    let first = list(&mut vfs, "LIST");
    let second = list(&mut vfs, "LIST");
    assert_eq!(first, second);
    let first_a = vfs.print_hierarchy(&"a".to_string()).unwrap();
    let second_a = vfs.print_hierarchy(&"a".to_string()).unwrap();
    assert_eq!(first_a, second_a);
}

#[test]
fn print_hierarchy_matches_list() {
    let mut vfs = VFS::new();
    apply(&mut vfs, "CREATE a/b/c").unwrap();
    let direct = vfs.print_hierarchy(&"a".to_string()).unwrap();
    assert_eq!(direct, vec!["b".to_string(), "  c".to_string()]);
    assert_eq!(direct, list(&mut vfs, "LIST a"));
    let missing = vfs.print_hierarchy(&"nope".to_string()).unwrap_err();
    assert_eq!(missing, VfsError::NotFound("nope".into()));
}

#[test]
fn listing_an_empty_root_prints_nothing() {
    let mut vfs = VFS::new();
    assert_eq!(list(&mut vfs, "LIST"), Vec::<String>::new());
    // A path of separators alone still names the root.
    assert_eq!(list(&mut vfs, "LIST /"), Vec::<String>::new());
    apply(&mut vfs, "CREATE a").unwrap();
    assert_eq!(list(&mut vfs, "LIST /"), vec!["a".to_string()]);
}

#[test]
fn listing_keeps_insertion_order_of_siblings() {
    let mut vfs = VFS::new();
    apply(&mut vfs, "CREATE z").unwrap();
    apply(&mut vfs, "CREATE m/q").unwrap();
    apply(&mut vfs, "CREATE a").unwrap();
    let lines = list(&mut vfs, "LIST");
    assert_eq!(
        lines,
        vec!["z".to_string(), "m".to_string(), "  q".to_string(), "a".to_string()]
    );
}
