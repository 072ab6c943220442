use mox::branch::{first_seven_of, get_current_branch, list_branches, BranchRow};
use mox::checkout::{resolve_checkout, CheckoutTarget};
use mox::log::{log_entry, show_log, CommitRecord};
use mox::text::trimmed;

const H: &str = "af1349b9f5f9a1a6a0404dea36dcc9499bcb25c9adc112b7cc9a93cae41f3262";

fn row(name: &str, hash: Option<&str>) -> BranchRow {
    BranchRow { name: name.to_string(), last_commit_hash: hash.map(|h| h.to_string()) }
}

#[test]
fn head_defaults_to_main() {
    assert_eq!(get_current_branch(None), "main");
}

#[test]
fn head_is_trimmed() {
    assert_eq!(get_current_branch(Some("  TestingPack \r\n")), "TestingPack");
    assert_eq!(get_current_branch(Some("Chaos")), "Chaos");
}

#[test]
fn branch_list_marks_active_profile() {
    let rows = vec![row("Chaos", None), row("main", Some(H))];
    let lines = list_branches("main", &rows);
    assert_eq!(lines.len(), 3);
    assert_eq!(lines[0], "\x1b[1m--- Profiles ---\x1b[0m");
    assert_eq!(lines[1], "  Chaos (no comm)");
    assert_eq!(lines[2], "* \x1b[32mmain (af1349b)\x1b[0m");
}

#[test]
fn branch_list_short_hash_kept_when_short() {
    let rows = vec![row("x", Some("abc"))];
    let lines = list_branches("y", &rows);
    assert_eq!(lines[1], "  x (abc)");
}

#[test]
fn first_seven_bytes() {
    assert_eq!(first_seven_of("0123456789"), "0123456");
    assert_eq!(first_seven_of("0123456"), "0123456");
    assert_eq!(first_seven_of("ab"), "ab");
    assert_eq!(first_seven_of("abcdeé1"), "abcdeé");
}

#[test]
fn checkout_prefers_profile_names() {
    let rows = vec![row("main", Some(H)), row("Vanilla", None)];
    match resolve_checkout("main", &rows) {
        CheckoutTarget::Branch { name, last_commit_hash } => {
            assert_eq!(name, "main");
            assert_eq!(last_commit_hash.as_deref(), Some(H));
        }
        _ => panic!("expected a profile"),
    }
    match resolve_checkout("Vanilla", &rows) {
        CheckoutTarget::Branch { last_commit_hash, .. } => assert!(last_commit_hash.is_none()),
        _ => panic!("expected a profile"),
    }
    match resolve_checkout("af13", &rows) {
        CheckoutTarget::CommitPrefix(p) => assert_eq!(p, "af13"),
        _ => panic!("expected a commit prefix"),
    }
}

fn record(hash: &str, message: &str, created_at: &str) -> CommitRecord {
    CommitRecord {
        hash: hash.to_string(),
        message: message.to_string(),
        created_at: created_at.to_string(),
    }
}

#[test]
fn empty_history_has_hint() {
    let lines = show_log(&Vec::new());
    assert_eq!(
        lines,
        vec![
            "--- Commit History ---".to_string(),
            "No commits found. Use 'mox commit' to create one.".to_string()
        ]
    );
}

#[test]
fn history_shows_utc_dates() {
    let records = vec![
        record(H, "second", "2024-01-02T03:04:05.678Z"),
        record("1234567", "first", "2024-01-02T03:04:05+02:00"),
    ];
    let lines = show_log(&records);
    assert_eq!(lines.len(), 7);
    assert_eq!(lines[1], format!("\x1b[33mcommit {}\x1b[0m", H));
    assert_eq!(lines[2], "Date:    2024-01-02 03:04:05");
    assert_eq!(lines[3], "\n    second\n");
    assert_eq!(lines[5], "Date:    2024-01-02 01:04:05");
    assert_eq!(lines[6], "\n    first\n");
}

#[test]
fn unparsable_date_is_shown_as_stored() {
    let lines = show_log(&vec![record("h", "m", "yesterday")]);
    assert_eq!(lines[2], "Date:    yesterday");
}

#[test]
fn log_entry_uses_given_date() {
    let r = record("h", "msg", "raw");
    let lines = log_entry(&r, Some("2020-01-01 00:00:00".to_string()));
    assert_eq!(lines[1], "Date:    2020-01-01 00:00:00");
    let lines = log_entry(&r, None);
    assert_eq!(lines[1], "Date:    raw");
}

#[test]
fn trim_handles_unicode_whitespace() {
    assert_eq!(trimmed("\u{3000} x y \u{85}\u{2029}"), "x y");
    assert_eq!(trimmed(" \t\n"), "");
}
