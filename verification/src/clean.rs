//! `mox clean`: bringing the working tree back to the last commit.

use vstd::prelude::*;
use vstd::string::*;
use crate::commit::{EntryView, FileEntry, entries_view};
use crate::status::{in_internal_dir, relative_to_root, head_lookup, status_scan, deleted_scan, walked_names, missing_entries,
    WalkedView, WalkedFile, walked_view, PathComponents, components_view, tracked_blob_of,
    scan_working_tree, entry_paths, paths_of, status_lines, status_report};

verus! {

/// The files to remove, in walk order: every walked path outside the
/// repository's folder whose relative path is not among `committed`.
pub open spec fn clean_scan(committed: Seq<Seq<char>>, walked: Seq<PathComponents>) -> Seq<Seq<char>>
    decreases walked.len(),
{
    if walked.len() == 0 {
        Seq::empty()
    } else {
        let before = clean_scan(committed, walked.drop_last());
        let p = walked.last();
        if in_internal_dir(p) || committed.contains(relative_to_root(p)) {
            before
        } else {
            before.push(relative_to_root(p))
        }
    }
}

/// The walked paths of walked files.
pub open spec fn walked_paths(walked: Seq<WalkedView>) -> Seq<PathComponents> {
    walked.map_values(|w: WalkedView| w.0)
}

/// The committed files to bring back, with the blob to restore each from:
/// the tracked files whose content differs (in walk order), then the
/// committed files the walk did not find (in commit order).
pub open spec fn restore_scan(head: Seq<EntryView>, walked: Seq<WalkedView>) -> Seq<EntryView> {
    status_scan(head, walked).0 + deleted_scan(head, walked)
}

/// What `mox clean` does to bring the working tree back to the last commit.
pub struct CleanPlan {
    /// Files to remove (relative to the root): those the last commit does
    /// not hold.
    pub remove: Vec<String>,
    /// Committed files to restore from their blob: modified or missing.
    pub restore: Vec<FileEntry>,
}

/// Plans `mox clean` for the working tree (`walked`, in walk order, by the
/// components of the paths the walk from `.` yields) against the last
/// commit (`head`): remove the files the commit does not hold, leaving out
/// the repository's own folder, and restore the committed files whose
/// content differs or which are missing. Every tracked file must come with
/// its content hash.
pub fn clean_untracked(head: &Vec<FileEntry>, walked: &Vec<WalkedFile>) -> (plan: CleanPlan)
    requires
        forall|i: int|
            0 <= i < walked@.len() ==> (tracked_blob_of(
                entries_view(head@),
                components_view((#[trigger] walked@[i]).components@),
            ) is Some ==> walked@[i].content_hash is Some),
    ensures
        plan.remove@.map_values(|s: String| s@) == clean_scan(
            entry_paths(entries_view(head@)),
            walked_paths(walked_view(walked@)),
        ),
        entries_view(plan.restore@) == restore_scan(entries_view(head@), walked_view(walked@)),
{
    let scan = scan_working_tree(head, walked);
    let ghost hv = entries_view(head@);
    let ghost wv = walked_view(walked@);
    proof {
        lemma_clean_removes_exactly_untracked(hv, wv);
    }
    let mut restore = scan.modified;
    let mut deleted = scan.deleted;
    let ghost m = entries_view(restore@);
    let ghost d = entries_view(deleted@);
    restore.append(&mut deleted);
    assert(entries_view(restore@) =~= m + d);
    CleanPlan { remove: scan.untracked, restore }
}

/// The line reported for one file removed (or, in a dry run, to be removed).
pub open spec fn clean_target_line(rel: Seq<char>, dry_run: bool) -> Seq<char> {
    if dry_run {
        "Would remove: "@ + rel
    } else {
        "Removing: "@ + rel
    }
}

/// The line reported for one file restored (or, in a dry run, to be
/// restored).
pub open spec fn restore_target_line(rel: Seq<char>, dry_run: bool) -> Seq<char> {
    if dry_run {
        "Would restore: "@ + rel
    } else {
        "Restoring: "@ + rel
    }
}

/// Everything `mox clean` prints for this plan.
pub open spec fn clean_report_lines(
    remove: Seq<Seq<char>>,
    restore: Seq<Seq<char>>,
    dry_run: bool,
) -> Seq<Seq<char>> {
    seq!["Cleaning untracked files..."@] + remove.map_values(
        |t: Seq<char>| clean_target_line(t, dry_run),
    ) + restore.map_values(|t: Seq<char>| restore_target_line(t, dry_run)) + (if dry_run {
        seq!["\nThis was a dry run. Use --force to actually delete files."@]
    } else {
        Seq::empty()
    })
}

fn push_lines(lines: &mut Vec<String>, items: &Vec<String>, restoring: bool, dry_run: bool)
    ensures
        final(lines)@.map_values(|s: String| s@) == old(lines)@.map_values(|s: String| s@)
            + items@.map_values(|s: String| s@).map_values(
            |t: Seq<char>|
                if restoring {
                    restore_target_line(t, dry_run)
                } else {
                    clean_target_line(t, dry_run)
                },
        ),
{
    let ghost start = lines@.map_values(|s: String| s@);
    let ghost tv = items@.map_values(|s: String| s@);
    let ghost f = |t: Seq<char>|
        if restoring {
            restore_target_line(t, dry_run)
        } else {
            clean_target_line(t, dry_run)
        };
    assert(lines@.map_values(|s: String| s@) =~= start + tv.take(0).map_values(f));
    for k in 0..items.len()
        invariant
            tv == items@.map_values(|s: String| s@),
            f == (|t: Seq<char>|
                if restoring {
                    restore_target_line(t, dry_run)
                } else {
                    clean_target_line(t, dry_run)
                }),
            lines@.map_values(|s: String| s@) == start + tv.take(k as int).map_values(f),
    {
        let ghost old_lines = lines@.map_values(|s: String| s@);
        let mut line = if restoring {
            if dry_run {
                String::from_str("Would restore: ")
            } else {
                String::from_str("Restoring: ")
            }
        } else {
            if dry_run {
                String::from_str("Would remove: ")
            } else {
                String::from_str("Removing: ")
            }
        };
        line.append(items[k].as_str());
        assert(line@ == f(tv[k as int]));
        lines.push(line);
        assert(lines@.map_values(|s: String| s@) =~= old_lines.push(f(tv[k as int])));
        assert(tv.take(k + 1).map_values(f) =~= tv.take(k as int).map_values(f).push(
            f(tv[k as int]),
        ));
    }
    assert(tv.take(items.len() as int) =~= tv);
}

/// The report of `mox clean`: a header, one line per file to remove
/// (`Would remove:` in a dry run, `Removing:` otherwise; line `k + 1` is
/// for `plan.remove[k]`), one per file to restore (`Would restore:` or
/// `Restoring:`, following), and a reminder after a dry run.
pub fn clean_report(plan: &CleanPlan, dry_run: bool) -> (lines: Vec<String>)
    ensures
        lines@.map_values(|s: String| s@) == clean_report_lines(
            plan.remove@.map_values(|s: String| s@),
            entry_paths(entries_view(plan.restore@)),
            dry_run,
        ),
{
    let restore_paths = paths_of(&plan.restore);
    let mut lines: Vec<String> = Vec::new();
    lines.push(String::from_str("Cleaning untracked files..."));
    push_lines(&mut lines, &plan.remove, false, dry_run);
    push_lines(&mut lines, &restore_paths, true, dry_run);
    if dry_run {
        let ghost old_lines = lines@.map_values(|s: String| s@);
        let footer = String::from_str("\nThis was a dry run. Use --force to actually delete files.");
        let ghost fv = footer@;
        lines.push(footer);
        assert(lines@.map_values(|s: String| s@) =~= old_lines.push(fv));
    }
    let ghost rv = plan.remove@.map_values(|s: String| s@);
    let ghost sv = restore_paths@.map_values(|s: String| s@);
    assert(rv.map_values(|t: Seq<char>| if false {
        restore_target_line(t, dry_run)
    } else {
        clean_target_line(t, dry_run)
    }) =~= rv.map_values(|t: Seq<char>| clean_target_line(t, dry_run)));
    assert(sv.map_values(|t: Seq<char>| if true {
        restore_target_line(t, dry_run)
    } else {
        clean_target_line(t, dry_run)
    }) =~= sv.map_values(|t: Seq<char>| restore_target_line(t, dry_run)));
    assert(lines@.map_values(|s: String| s@) =~= clean_report_lines(rv, sv, dry_run));
    lines
}

proof fn lemma_lookup_none_iff_untracked(head: Seq<EntryView>, rel: Seq<char>)
    ensures
        head_lookup(head, rel) is None <==> !entry_paths(head).contains(rel),
    decreases head.len(),
{
    let paths = entry_paths(head);
    if head.len() > 0 {
        let d = head.drop_last();
        lemma_lookup_none_iff_untracked(d, rel);
        let dp = d.map_values(|e: EntryView| e.0);
        assert(paths =~= dp.push(head.last().0));
        if dp.contains(rel) {
            let w = choose|w: int| 0 <= w < dp.len() && dp[w] == rel;
            assert(paths[w] == rel);
        }
        if head.last().0 == rel {
            assert(paths[head.len() - 1] == rel);
        }
        if paths.contains(rel) && head.last().0 != rel {
            let w = choose|w: int| 0 <= w < paths.len() && paths[w] == rel;
            assert(dp[w] == rel);
        }
    } else {
        assert(!paths.contains(rel));
    }
}

/// `mox clean --force` removes exactly the files that `mox status` lists as
/// untracked, when both look at the same walk and the same last commit.
pub proof fn lemma_clean_removes_exactly_untracked(head: Seq<EntryView>, walked: Seq<WalkedView>)
    ensures
        clean_scan(entry_paths(head), walked_paths(walked))
            == status_scan(head, walked).1,
    decreases walked.len(),
{
    if walked.len() > 0 {
        let d = walked.drop_last();
        lemma_clean_removes_exactly_untracked(head, d);
        assert(walked_paths(walked).drop_last() =~= walked_paths(d));
        lemma_lookup_none_iff_untracked(head, relative_to_root(walked.last().0));
    }
}

proof fn lemma_lookup_in_head(head: Seq<EntryView>, rel: Seq<char>)
    requires
        head_lookup(head, rel) is Some,
    ensures
        head.contains((rel, head_lookup(head, rel)->0)),
    decreases head.len(),
{
    if head.last().0 == rel {
        assert(head[head.len() - 1] == (rel, head_lookup(head, rel)->0));
    } else {
        let d = head.drop_last();
        lemma_lookup_in_head(d, rel);
        let w = choose|w: int| 0 <= w < d.len() && d[w] == (rel, head_lookup(d, rel)->0);
        assert(head[w] == d[w]);
    }
}

proof fn lemma_scan_covers_walk(head: Seq<EntryView>, walked: Seq<WalkedView>)
    ensures
        forall|i: int|
            0 <= i < walked.len() && !in_internal_dir((#[trigger] walked[i]).0) ==> {
                let rel = relative_to_root(walked[i].0);
                &&& head_lookup(head, rel) is None ==> status_scan(head, walked).1.contains(rel)
                &&& (head_lookup(head, rel) is Some && walked[i].1 != head_lookup(head, rel))
                    ==> status_scan(head, walked).0.contains((rel, head_lookup(head, rel)->0))
            },
        forall|x: EntryView| #[trigger] status_scan(head, walked).0.contains(x) ==> head.contains(x),
        forall|x: Seq<char>| #[trigger] status_scan(head, walked).1.contains(x) ==> !entry_paths(
            head,
        ).contains(x),
    decreases walked.len(),
{
    if walked.len() > 0 {
        let d = walked.drop_last();
        lemma_scan_covers_walk(head, d);
        let (m0, u0) = status_scan(head, d);
        let (m, u) = status_scan(head, walked);
        let w = walked.last();
        let rel = relative_to_root(w.0);
        assert(m0.is_prefix_of(m) && u0.is_prefix_of(u)) by {
            if !in_internal_dir(w.0) {
                match head_lookup(head, rel) {
                    Some(old) => {
                        if w.1 != Some(old) {
                            assert(m0.is_prefix_of(m0.push((rel, old))));
                        }
                    },
                    None => {
                        assert(u0.is_prefix_of(u0.push(rel)));
                    },
                }
            }
        }
        assert forall|i: int|
            0 <= i < walked.len() && !in_internal_dir((#[trigger] walked[i]).0) implies {
                let r = relative_to_root(walked[i].0);
                &&& head_lookup(head, r) is None ==> u.contains(r)
                &&& (head_lookup(head, r) is Some && walked[i].1 != head_lookup(head, r))
                    ==> m.contains((r, head_lookup(head, r)->0))
            } by {
            let r = relative_to_root(walked[i].0);
            if i < d.len() {
                assert(walked[i] == d[i]);
                if head_lookup(head, r) is None {
                    let j = choose|j: int| 0 <= j < u0.len() && u0[j] == r;
                    assert(u[j] == r);
                }
                if head_lookup(head, r) is Some && walked[i].1 != head_lookup(head, r) {
                    let j = choose|j: int|
                        0 <= j < m0.len() && m0[j] == (r, head_lookup(head, r)->0);
                    assert(m[j] == m0[j]);
                }
            } else {
                assert(walked[i] == w);
                if head_lookup(head, r) is None {
                    assert(u[u.len() - 1] == r);
                } else if walked[i].1 != head_lookup(head, r) {
                    assert(m[m.len() - 1] == (r, head_lookup(head, r)->0));
                }
            }
        }
        assert forall|x: EntryView| #[trigger] m.contains(x) implies head.contains(x) by {
            let j = choose|j: int| 0 <= j < m.len() && m[j] == x;
            if j < m0.len() {
                assert(m0[j] == x);
                assert(m0.contains(x));
            } else {
                assert(!in_internal_dir(w.0) && head_lookup(head, rel) is Some);
                assert(m == m0.push((rel, head_lookup(head, rel)->0)));
                assert(x == (rel, head_lookup(head, rel)->0));
                lemma_lookup_in_head(head, rel);
            }
        }
        assert forall|x: Seq<char>| #[trigger] u.contains(x) implies !entry_paths(head).contains(
            x,
        ) by {
            let j = choose|j: int| 0 <= j < u.len() && u[j] == x;
            if j < u0.len() {
                assert(u0[j] == x);
                assert(u0.contains(x));
            } else {
                assert(!in_internal_dir(w.0) && head_lookup(head, rel) is None);
                assert(u == u0.push(rel));
                assert(x == rel);
                lemma_lookup_none_iff_untracked(head, rel);
            }
        }
    }
}

proof fn lemma_missing_covers_head(head: Seq<EntryView>, names: Seq<Seq<char>>)
    ensures
        forall|k: int|
            0 <= k < head.len() ==> names.contains((#[trigger] head[k]).0) || missing_entries(
                head,
                names,
            ).contains(head[k]),
        forall|x: EntryView| #[trigger] missing_entries(head, names).contains(x) ==> head.contains(
            x,
        ),
    decreases head.len(),
{
    if head.len() > 0 {
        let d = head.drop_last();
        lemma_missing_covers_head(d, names);
        let m0 = missing_entries(d, names);
        let m = missing_entries(head, names);
        assert forall|k: int|
            0 <= k < head.len() implies names.contains((#[trigger] head[k]).0) || m.contains(
                head[k],
            ) by {
            if k < d.len() {
                assert(head[k] == d[k]);
                if !names.contains(d[k].0) {
                    let j = choose|j: int| 0 <= j < m0.len() && m0[j] == d[k];
                    assert(m[j] == m0[j]);
                }
            } else if !names.contains(head[k].0) {
                assert(m[m.len() - 1] == head[k]);
            }
        }
        assert forall|x: EntryView| #[trigger] m.contains(x) implies head.contains(x) by {
            let j = choose|j: int| 0 <= j < m.len() && m[j] == x;
            if j < m0.len() {
                assert(m0[j] == x);
                assert(m0.contains(x));
                assert(d.contains(x));
                let w = choose|w: int| 0 <= w < d.len() && d[w] == x;
                assert(head[w] == d[w]);
            } else {
                assert(m == m0.push(head.last()));
                assert(head[head.len() - 1] == x);
            }
        }
    }
}

/// `mox clean --force` brings the working tree back to the last commit:
/// every walked file outside the repository's folder is removed (when the
/// commit does not hold it), left as it is (when its content is the
/// committed one) or restored from its committed blob; every committed file
/// the walk did not find is restored; only committed files are restored,
/// and no committed path is removed.
pub proof fn lemma_clean_reaches_last_commit(head: Seq<EntryView>, walked: Seq<WalkedView>)
    ensures
        forall|i: int|
            0 <= i < walked.len() && !in_internal_dir((#[trigger] walked[i]).0) ==> {
                let rel = relative_to_root(walked[i].0);
                ||| clean_scan(entry_paths(head), walked_paths(walked)).contains(rel)
                ||| walked[i].1 == head_lookup(head, rel)
                ||| restore_scan(head, walked).contains((rel, head_lookup(head, rel)->0))
            },
        forall|k: int|
            0 <= k < head.len() ==> walked_names(walked).contains((#[trigger] head[k]).0)
                || restore_scan(head, walked).contains(head[k]),
        forall|x: EntryView| #[trigger] restore_scan(head, walked).contains(x) ==> head.contains(x),
        forall|x: Seq<char>|
            #[trigger] clean_scan(entry_paths(head), walked_paths(walked)).contains(x)
                ==> !entry_paths(head).contains(x),
{
    lemma_clean_removes_exactly_untracked(head, walked);
    lemma_scan_covers_walk(head, walked);
    lemma_missing_covers_head(head, walked_names(walked));
    let m = status_scan(head, walked).0;
    let dl = deleted_scan(head, walked);
    let r = restore_scan(head, walked);
    assert forall|i: int|
        0 <= i < walked.len() && !in_internal_dir((#[trigger] walked[i]).0) implies {
            let rel = relative_to_root(walked[i].0);
            ||| clean_scan(entry_paths(head), walked_paths(walked)).contains(rel)
            ||| walked[i].1 == head_lookup(head, rel)
            ||| r.contains((rel, head_lookup(head, rel)->0))
        } by {
        let rel = relative_to_root(walked[i].0);
        if head_lookup(head, rel) is Some && walked[i].1 != head_lookup(head, rel) {
            let j = choose|j: int| 0 <= j < m.len() && m[j] == (rel, head_lookup(head, rel)->0);
            assert(r[j] == m[j]);
        }
    }
    assert forall|k: int|
        0 <= k < head.len() implies walked_names(walked).contains((#[trigger] head[k]).0)
            || r.contains(head[k]) by {
        if !walked_names(walked).contains(head[k].0) {
            let j = choose|j: int| 0 <= j < dl.len() && dl[j] == head[k];
            assert(r[m.len() + j] == dl[j]);
        }
    }
    assert forall|x: EntryView| #[trigger] r.contains(x) implies head.contains(x) by {
        let j = choose|j: int| 0 <= j < r.len() && r[j] == x;
        if j < m.len() {
            assert(m[j] == x);
            assert(m.contains(x));
        } else {
            assert(dl[j - m.len()] == x);
            assert(dl.contains(x));
        }
    }
}

proof fn lemma_mapped_contains(s: Seq<Seq<char>>, prefix: Seq<char>, x: Seq<char>)
    requires
        s.contains(x),
    ensures
        s.map_values(|p: Seq<char>| prefix + p).contains(prefix + x),
{
    let j = choose|j: int| 0 <= j < s.len() && s[j] == x;
    assert(s.map_values(|p: Seq<char>| prefix + p)[j] == prefix + x);
}

proof fn lemma_entry_path_listed(es: Seq<EntryView>, x: EntryView)
    requires
        es.contains(x),
    ensures
        entry_paths(es).contains(x.0),
{
    let j = choose|j: int| 0 <= j < es.len() && es[j] == x;
    assert(entry_paths(es)[j] == x.0);
}

proof fn lemma_concat_contains(a: Seq<Seq<char>>, b: Seq<Seq<char>>, x: Seq<char>)
    ensures
        a.contains(x) ==> (a + b).contains(x),
        b.contains(x) ==> (a + b).contains(x),
{
    if a.contains(x) {
        let j = choose|j: int| 0 <= j < a.len() && a[j] == x;
        assert((a + b)[j] == x);
    }
    if b.contains(x) {
        let j = choose|j: int| 0 <= j < b.len() && b[j] == x;
        assert((a + b)[a.len() + j] == x);
    }
}

/// `mox status` reports every change: a line `\tmodified:   p` for each
/// walked file whose content differs from the committed one, a line
/// `\tdeleted:    p` for each committed file the walk did not find, and a
/// line `\tp` for each walked file the commit does not hold.
pub proof fn lemma_status_reports_every_change(head: Seq<EntryView>, walked: Seq<WalkedView>)
    ensures
        forall|i: int|
            0 <= i < walked.len() && !in_internal_dir((#[trigger] walked[i]).0) ==> {
                let rel = relative_to_root(walked[i].0);
                &&& head_lookup(head, rel) is None ==> status_report(head, walked).contains(
                    "\t"@ + rel,
                )
                &&& (head_lookup(head, rel) is Some && walked[i].1 != head_lookup(head, rel))
                    ==> status_report(head, walked).contains("\tmodified:   "@ + rel)
            },
        forall|k: int|
            0 <= k < head.len() && !walked_names(walked).contains((#[trigger] head[k]).0)
                ==> status_report(head, walked).contains("\tdeleted:    "@ + head[k].0),
{
    lemma_scan_covers_walk(head, walked);
    lemma_missing_covers_head(head, walked_names(walked));
    let m = entry_paths(status_scan(head, walked).0);
    let d = entry_paths(deleted_scan(head, walked));
    let u = status_scan(head, walked).1;
    let first = seq!["On branch 'main'"@];
    let changes = if m.len() > 0 || d.len() > 0 {
        seq!["\nChanges not staged for commit:"@] + m.map_values(
            |p: Seq<char>| "\tmodified:   "@ + p,
        ) + d.map_values(|p: Seq<char>| "\tdeleted:    "@ + p)
    } else {
        Seq::empty()
    };
    let untracked = if u.len() > 0 {
        seq!["\nUntracked files:"@] + u.map_values(|p: Seq<char>| "\t"@ + p)
    } else {
        Seq::empty()
    };
    let last = if m.len() == 0 && d.len() == 0 && u.len() == 0 {
        seq!["\nnothing to commit, working tree clean"@]
    } else {
        Seq::empty()
    };
    let report = status_report(head, walked);
    assert(report == first + changes + untracked + last);
    assert forall|i: int|
        0 <= i < walked.len() && !in_internal_dir((#[trigger] walked[i]).0) implies {
            let rel = relative_to_root(walked[i].0);
            &&& head_lookup(head, rel) is None ==> report.contains("\t"@ + rel)
            &&& (head_lookup(head, rel) is Some && walked[i].1 != head_lookup(head, rel))
                ==> report.contains("\tmodified:   "@ + rel)
        } by {
        let rel = relative_to_root(walked[i].0);
        if head_lookup(head, rel) is None {
            lemma_mapped_contains(u, "\t"@, rel);
            let um = u.map_values(|p: Seq<char>| "\t"@ + p);
            lemma_concat_contains(seq!["\nUntracked files:"@], um, "\t"@ + rel);
            lemma_concat_contains(first + changes, untracked, "\t"@ + rel);
            lemma_concat_contains(first + changes + untracked, last, "\t"@ + rel);
        }
        if head_lookup(head, rel) is Some && walked[i].1 != head_lookup(head, rel) {
            let x = (rel, head_lookup(head, rel)->0);
            lemma_entry_path_listed(status_scan(head, walked).0, x);
            lemma_mapped_contains(m, "\tmodified:   "@, rel);
            let mm = m.map_values(|p: Seq<char>| "\tmodified:   "@ + p);
            let dm = d.map_values(|p: Seq<char>| "\tdeleted:    "@ + p);
            lemma_concat_contains(seq!["\nChanges not staged for commit:"@], mm, "\tmodified:   "@ + rel);
            lemma_concat_contains(seq!["\nChanges not staged for commit:"@] + mm, dm, "\tmodified:   "@ + rel);
            lemma_concat_contains(first, changes, "\tmodified:   "@ + rel);
            lemma_concat_contains(first + changes, untracked, "\tmodified:   "@ + rel);
            lemma_concat_contains(first + changes + untracked, last, "\tmodified:   "@ + rel);
        }
    }
    assert forall|k: int|
        0 <= k < head.len() && !walked_names(walked).contains((#[trigger] head[k]).0) implies report.contains(
            "\tdeleted:    "@ + head[k].0,
        ) by {
        let p = head[k].0;
        lemma_entry_path_listed(deleted_scan(head, walked), head[k]);
        lemma_mapped_contains(d, "\tdeleted:    "@, p);
        let mm = m.map_values(|q: Seq<char>| "\tmodified:   "@ + q);
        let dm = d.map_values(|q: Seq<char>| "\tdeleted:    "@ + q);
        lemma_concat_contains(seq!["\nChanges not staged for commit:"@] + mm, dm, "\tdeleted:    "@ + p);
        lemma_concat_contains(first, changes, "\tdeleted:    "@ + p);
        lemma_concat_contains(first + changes, untracked, "\tdeleted:    "@ + p);
        lemma_concat_contains(first + changes + untracked, last, "\tdeleted:    "@ + p);
    }
}

} // verus!
