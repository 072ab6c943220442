use mox::ignore::MoxIgnore;

#[test]
fn defaults_apply_without_ignore_file() {
    let rules = MoxIgnore::load(None);
    assert!(rules.is_ignored("./.mox/mox.db"));
    assert!(rules.is_ignored("./mox.exe"));
    assert!(rules.is_ignored("./cache/localthumbcache.package"));
    assert!(!rules.is_ignored("./Mods/Overlays/Tmex.package"));
}

#[test]
fn internal_folder_ignored_even_with_ignore_file() {
    let rules = MoxIgnore::load(Some("notify.glob\n"));
    assert!(rules.is_ignored("Mods/.mox/blobs/abc"));
    assert!(rules.is_ignored("Mods/notify.glob"));
}

#[test]
fn ignore_file_lines_are_trimmed_and_filtered() {
    let content = "# caches\n\n   lastException.txt  \r\n\t#notify.glob\nlocalsimtexturecache.package";
    let rules = MoxIgnore::load(Some(content));
    assert!(rules.is_ignored("./Mods/lastException.txt"));
    assert!(rules.is_ignored("./localsimtexturecache.package"));
    // a commented-out line is no pattern
    assert!(!rules.is_ignored("./notify.glob"));
    // the comment text itself is no pattern either
    assert!(!rules.is_ignored("./caches/a.package"));
}

#[test]
fn patterns_are_literal_text() {
    let rules = MoxIgnore::load(Some("*.log\n"));
    assert!(!rules.is_ignored("./Mods/error.log"));
    assert!(rules.is_ignored("./Mods/*.log"));
}

#[test]
fn unicode_whitespace_is_trimmed_from_patterns() {
    let rules = MoxIgnore::load(Some("\u{3000}thumbs.db\u{a0}\n"));
    assert!(rules.is_ignored("./thumbs.db"));
    assert!(!rules.is_ignored("./thumbs.d"));
}

#[test]
fn empty_path_is_not_ignored() {
    let rules = MoxIgnore::load(Some(""));
    assert!(!rules.is_ignored(""));
}

#[test]
fn pattern_may_end_the_path() {
    let rules = MoxIgnore::load(Some("Résumé.txt"));
    assert!(rules.is_ignored("./docs/Résumé.txt"));
    assert!(!rules.is_ignored("./docs/Resume.txt"));
}

#[test]
fn added_lines_keep_paths_ignored() {
    let first = MoxIgnore::load(Some("saves"));
    let more = MoxIgnore::load(Some("saves\n# later\ncache"));
    for p in ["./saves/slot1", "./Mods/saves.txt", "./.mox/x"] {
        assert!(first.is_ignored(p));
        assert!(more.is_ignored(p));
    }
    assert!(!first.is_ignored("./cache/a"));
    assert!(more.is_ignored("./cache/a"));
}

#[test]
fn paths_below_an_ignored_path_are_ignored() {
    let rules = MoxIgnore::load(Some("Tray"));
    assert!(rules.is_ignored("./Tray"));
    assert!(rules.is_ignored("./Tray/household.trayitem"));
}
