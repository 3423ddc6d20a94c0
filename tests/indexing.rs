use code_search::indexer::{
    event_needs_update, is_excluded_path, plan_reindex, update_for_chunks, update_for_path,
    FileUpdate, WatchEventKind,
};
use code_search::scanner::{
    chunk_paths, entry_for, exclusion_override, gitignore_edit, path_extension, should_process_file,
    FileChunk, FileEntry, GitignoreEdit,
};
use code_search::store::metadata_from_rows;

fn entry(path: &str, mtime: u64) -> FileEntry {
    FileEntry { path: path.to_string(), mtime }
}

#[test]
fn empty_repository_plans_nothing() {
    let plan = plan_reindex(&Vec::new(), &Vec::new());
    assert!(plan.reindex.is_empty());
    assert!(plan.remove.is_empty());
}

#[test]
fn only_the_modified_file_is_reindexed() {
    let indexed = vec![entry("a.rs", 100), entry("b.rs", 100), entry("c.rs", 100)];
    let walk = vec![entry("a.rs", 100), entry("b.rs", 200), entry("c.rs", 100)];
    let plan = plan_reindex(&walk, &indexed);
    assert_eq!(plan.reindex.len(), 1);
    assert_eq!(plan.reindex[0].path, "b.rs");
    assert_eq!(plan.reindex[0].mtime, 200);
    assert!(plan.remove.is_empty());
}

#[test]
fn older_mtime_also_reindexes() {
    let plan = plan_reindex(&vec![entry("a.rs", 50)], &vec![entry("a.rs", 100)]);
    assert_eq!(plan.reindex.len(), 1);
}

#[test]
fn deleted_file_is_removed() {
    let indexed = vec![entry("a.rs", 1), entry("b.rs", 1)];
    let walk = vec![entry("a.rs", 1), entry("new.py", 5)];
    let plan = plan_reindex(&walk, &indexed);
    assert_eq!(plan.remove, vec!["b.rs".to_string()]);
    assert_eq!(plan.reindex.len(), 1);
    assert_eq!(plan.reindex[0].path, "new.py");
}

#[test]
fn second_pass_after_sync_is_empty() {
    let indexed = vec![entry("a.rs", 1), entry("gone.rs", 1)];
    let walk = vec![entry("a.rs", 2), entry("b.rs", 3)];
    let plan = plan_reindex(&walk, &indexed);
    assert_eq!(plan.reindex.len(), 2);
    let mut after: Vec<FileEntry> = indexed
        .iter()
        .filter(|e| !plan.remove.contains(&e.path))
        .cloned()
        .collect();
    after.extend(plan.reindex.iter().cloned());
    let after = metadata_from_rows(&after);
    let again = plan_reindex(&walk, &after);
    assert!(again.reindex.is_empty());
    assert!(again.remove.is_empty());
    let mut paths: Vec<String> = after.iter().map(|e| e.path.clone()).collect();
    paths.sort();
    assert_eq!(paths, vec!["a.rs".to_string(), "b.rs".to_string()]);
}

#[test]
fn rows_fold_to_last_mtime_per_path() {
    let rows = vec![entry("a.rs", 1), entry("b.rs", 2), entry("a.rs", 3), entry("a.rs", 3)];
    let meta = metadata_from_rows(&rows);
    assert_eq!(meta.len(), 2);
    let a = meta.iter().find(|e| e.path == "a.rs").unwrap();
    assert_eq!(a.mtime, 3);
}

#[test]
fn allow_list_decides_by_extension() {
    assert!(should_process_file("src/main.rs"));
    assert!(should_process_file("docs/readme.md"));
    assert!(should_process_file("dir.v2/config.yaml"));
    assert!(!should_process_file("image.png"));
    assert!(!should_process_file("Makefile"));
    assert!(!should_process_file(".toml"));
    assert!(!should_process_file("a.rs/bin"));
    assert!(should_process_file("a.rs/"));
    assert!(should_process_file("dir/a.rs/."));
    assert!(should_process_file("dir/a.rs//./"));
    assert!(!should_process_file("a.rs/.."));
    assert!(!should_process_file("."));
    assert!(!should_process_file("/"));
}

#[test]
fn extension_is_after_last_dot_of_file_name() {
    assert_eq!(path_extension("a/b.tar.gz"), Some(vec!['g', 'z']));
    assert_eq!(path_extension("x.d/file"), None);
    assert_eq!(path_extension(".hidden"), None);
    assert_eq!(path_extension("a."), Some(vec![]));
}

#[test]
fn excluded_directories_are_recognised() {
    assert!(is_excluded_path("target/debug/x.rs"));
    assert!(is_excluded_path("./a/.git/config"));
    assert!(is_excluded_path("web/node_modules"));
    assert!(!is_excluded_path("src/targets/x.rs"));
    assert!(!is_excluded_path("my.git/x"));
}

#[test]
fn events_and_updates() {
    assert!(event_needs_update(WatchEventKind::Modify, "src/a.rs"));
    assert!(!event_needs_update(WatchEventKind::Other, "src/a.rs"));
    assert!(!event_needs_update(WatchEventKind::Create, "target/a.rs"));
    assert_eq!(update_for_path(false, true), FileUpdate::Delete);
    assert_eq!(update_for_path(true, false), FileUpdate::Delete);
    assert_eq!(update_for_path(true, true), FileUpdate::Replace);
    assert_eq!(update_for_chunks(None), FileUpdate::Keep);
    assert_eq!(update_for_chunks(Some(0)), FileUpdate::Delete);
    assert_eq!(update_for_chunks(Some(4)), FileUpdate::Replace);
}

#[test]
fn gitignore_gets_the_index_directory() {
    match gitignore_edit(None) {
        GitignoreEdit::Create(t) => assert_eq!(t, ".code-search/\n"),
        _ => panic!("expected a new file"),
    }
    match gitignore_edit(Some("target\n")) {
        GitignoreEdit::Append(t) => assert_eq!(t, "\n.code-search/\n"),
        _ => panic!("expected an append"),
    }
    assert!(matches!(gitignore_edit(Some("x\n.code-search/\n")), GitignoreEdit::Unchanged));
}

#[test]
fn exclusions_become_negated_overrides() {
    assert_eq!(exclusion_override("*.log"), "!*.log");
    assert_eq!(exclusion_override("!vendor/"), "!vendor/");
    assert_eq!(exclusion_override(""), "!");
}

#[test]
fn chunk_paths_are_distinct_in_first_order() {
    let c = |p: &str| FileChunk {
        file_path: p.to_string(),
        chunk_index: 0,
        content: String::new(),
        line_start: 1,
        line_end: 1,
        mtime: 0,
    };
    let paths = chunk_paths(&vec![c("b"), c("a"), c("b"), c("c")]);
    assert_eq!(paths, vec!["b".to_string(), "a".to_string(), "c".to_string()]);
}

#[test]
fn entries_are_relative_to_the_root() {
    let e = entry_for("/repo/src/lib.rs", "/repo", 42);
    assert_eq!(e.path, "src/lib.rs");
    assert_eq!(e.mtime, 42);
    assert_eq!(entry_for("/repo/a.py", "/repo/", 1).path, "a.py");
    assert_eq!(entry_for("a.py", "/repo", 1).path, "a.py");
}
