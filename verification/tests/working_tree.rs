use mox::clean::{clean_report, clean_untracked};
use mox::commit::FileEntry;
use mox::status::{is_internal_path, relative_path, show_status, tracked_blob, WalkedFile};

fn entry(path: &str, hash: &str) -> FileEntry {
    FileEntry { path: path.to_string(), blob_hash: hash.to_string() }
}

/// The components of a path written with `/` (or, on Windows, `\\`).
fn comps(path: &str) -> Vec<String> {
    path.split(|c| c == '/' || c == '\\').filter(|c| !c.is_empty()).map(|c| c.to_string()).collect()
}

fn walked(path: &str, hash: Option<&str>) -> WalkedFile {
    WalkedFile { components: comps(path), content_hash: hash.map(|h| h.to_string()) }
}

fn head() -> Vec<FileEntry> {
    vec![entry("a.package", "h1"), entry("Sub/b.package", "h2")]
}

#[test]
fn internal_folder_is_recognised() {
    assert!(is_internal_path(&comps("./.mox")));
    assert!(is_internal_path(&comps("./.mox/mox.db")));
    assert!(is_internal_path(&comps(".\\.mox\\mox.db")));
    assert!(!is_internal_path(&comps("./.moxignore")));
    assert!(!is_internal_path(&comps("./Mods/.mox")));
    assert!(!is_internal_path(&comps("./.mo")));
    assert!(!is_internal_path(&comps(".mox/x")));
}

#[test]
fn relative_path_strips_dot_slash() {
    assert_eq!(relative_path(&comps("./Sub/b.package")), "Sub/b.package");
    assert_eq!(relative_path(&comps(".\\Sub\\b.package")), "Sub/b.package");
    assert_eq!(relative_path(&comps("Sub/b.package")), "Sub/b.package");
    assert_eq!(relative_path(&comps(".")), "");
}

#[test]
fn tracked_blob_finds_committed_files() {
    let h = head();
    assert_eq!(tracked_blob(&h, &comps("./Sub/b.package")), Some("h2".to_string()));
    assert_eq!(tracked_blob(&h, &comps(".\\Sub\\b.package")), Some("h2".to_string()));
    assert_eq!(tracked_blob(&h, &comps("./c.package")), None);
    assert_eq!(tracked_blob(&h, &comps("./.mox/a.package")), None);
}

#[test]
fn later_duplicate_entry_wins() {
    let h = vec![entry("a", "old"), entry("a", "new")];
    assert_eq!(tracked_blob(&h, &comps("./a")), Some("new".to_string()));
}

#[test]
fn status_reports_modified_and_untracked() {
    let files = vec![
        walked("./a.package", Some("h1")),
        walked("./Sub/b.package", Some("changed")),
        walked("./c.package", None),
        walked("./.mox/mox.db", None),
    ];
    let lines = show_status(&head(), &files);
    assert_eq!(
        lines,
        vec![
            "On branch 'main'",
            "\nChanges not staged for commit:",
            "\tmodified:   Sub/b.package",
            "\nUntracked files:",
            "\tc.package",
        ]
    );
}

#[test]
fn status_of_clean_tree() {
    let files = vec![walked("./a.package", Some("h1")), walked("./Sub/b.package", Some("h2"))];
    let lines = show_status(&head(), &files);
    assert_eq!(lines, vec!["On branch 'main'", "\nnothing to commit, working tree clean"]);
}

#[test]
fn status_with_only_untracked() {
    let lines = show_status(&Vec::new(), &vec![walked("./new.package", None)]);
    assert_eq!(lines, vec!["On branch 'main'", "\nUntracked files:", "\tnew.package"]);
}

fn plan(head: &Vec<FileEntry>, files: &Vec<WalkedFile>) -> (Vec<String>, Vec<(String, String)>) {
    let p = clean_untracked(head, files);
    let restore = p.restore.iter().map(|e| (e.path.clone(), e.blob_hash.clone())).collect();
    (p.remove, restore)
}

#[test]
fn clean_targets_untracked_files() {
    let files = vec![
        walked("./a.package", Some("h1")),
        walked("./junk.txt", None),
        walked("./.mox/mox.db", None),
        walked("./Sub/b.package", Some("h2")),
        walked("./Sub/trash.package", None),
    ];
    let (remove, restore) = plan(&head(), &files);
    assert_eq!(remove, vec!["junk.txt", "Sub/trash.package"]);
    assert!(restore.is_empty());
}

#[test]
fn clean_restores_modified_and_deleted_files() {
    let files = vec![walked("./Sub/b.package", Some("changed")), walked("./x", None)];
    let (remove, restore) = plan(&head(), &files);
    assert_eq!(remove, vec!["x"]);
    assert_eq!(
        restore,
        vec![
            ("Sub/b.package".to_string(), "h2".to_string()),
            ("a.package".to_string(), "h1".to_string())
        ]
    );
}

#[test]
fn status_reports_deleted_files() {
    let files = vec![walked("./Sub/b.package", Some("h2"))];
    let lines = show_status(&head(), &files);
    assert_eq!(
        lines,
        vec!["On branch 'main'", "\nChanges not staged for commit:", "\tdeleted:    a.package"]
    );
    let lines = show_status(&head(), &Vec::new());
    assert_eq!(
        lines,
        vec![
            "On branch 'main'",
            "\nChanges not staged for commit:",
            "\tdeleted:    a.package",
            "\tdeleted:    Sub/b.package",
        ]
    );
}

#[test]
fn status_lists_modified_before_deleted() {
    let files = vec![walked("./Sub/b.package", Some("zz")), walked("./n", None)];
    let lines = show_status(&head(), &files);
    assert_eq!(
        lines,
        vec![
            "On branch 'main'",
            "\nChanges not staged for commit:",
            "\tmodified:   Sub/b.package",
            "\tdeleted:    a.package",
            "\nUntracked files:",
            "\tn",
        ]
    );
}

#[test]
fn clean_and_status_agree() {
    let h = head();
    let files = vec![
        walked("./a.package", Some("zz")),
        walked("./x", None),
        walked("./.mox", None),
        walked("./y/z", None),
    ];
    let status = show_status(&h, &files);
    let (remove, restore) = plan(&h, &files);
    assert_eq!(remove, vec!["x", "y/z"]);
    assert_eq!(
        restore,
        vec![("a.package".to_string(), "h1".to_string()), ("Sub/b.package".to_string(), "h2".to_string())]
    );
    assert_eq!(status[status.len() - 2], "\tx");
    assert_eq!(status[status.len() - 1], "\ty/z");
}

#[test]
fn windows_walk_paths_match_committed_files() {
    let files = vec![
        walked(".\\a.package", Some("h1")),
        walked(".\\Sub\\b.package", Some("h2")),
        walked(".\\.mox\\mox.db", None),
    ];
    let lines = show_status(&head(), &files);
    assert_eq!(lines, vec!["On branch 'main'", "\nnothing to commit, working tree clean"]);
    let (remove, restore) = plan(&head(), &files);
    assert!(remove.is_empty());
    assert!(restore.is_empty());
}

#[test]
fn clean_report_dry_run() {
    let files = vec![walked("./junk.txt", None), walked("./Sub/x", None), walked("./a.package", Some("h1"))];
    let p = clean_untracked(&head(), &files);
    assert_eq!(
        clean_report(&p, true),
        vec![
            "Cleaning untracked files...",
            "Would remove: junk.txt",
            "Would remove: Sub/x",
            "Would restore: Sub/b.package",
            "\nThis was a dry run. Use --force to actually delete files.",
        ]
    );
}

#[test]
fn clean_report_forced() {
    let files = vec![walked("./junk.txt", None), walked("./a.package", Some("h1")), walked("./Sub/b.package", Some("h2"))];
    let p = clean_untracked(&head(), &files);
    assert_eq!(clean_report(&p, false), vec!["Cleaning untracked files...", "Removing: junk.txt"]);
    let p = clean_untracked(&Vec::new(), &Vec::new());
    assert_eq!(clean_report(&p, false), vec!["Cleaning untracked files..."]);
}
