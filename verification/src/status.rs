//! The working tree against the last commit: which files are modified and
//! which are untracked, and how that is reported.

use vstd::prelude::*;
use vstd::string::*;
use crate::commit::{FileEntry, EntryView, entries_view};

verus! {

/// A path given by its components, as `Path::components` yields them: `.`
/// for the current directory, then each name. Working on components makes
/// the separator (`/`, or `\` on Windows) irrelevant.
pub type PathComponents = Seq<Seq<char>>;

/// The values of a list of components.
pub open spec fn components_view(v: Seq<String>) -> PathComponents {
    v.map_values(|c: String| c@)
}

/// The current-directory component `.`.
pub open spec fn cur_dir() -> Seq<char> {
    seq!['.']
}

/// The name of the repository's own folder.
pub open spec fn internal_name() -> Seq<char> {
    seq!['.', 'm', 'o', 'x']
}

/// A walked path lies in the repository's own folder: its components begin
/// with those of `./.mox` (`Path::starts_with("./.mox")`).
pub open spec fn in_internal_dir(path: PathComponents) -> bool {
    path.len() >= 2 && path[0] == cur_dir() && path[1] == internal_name()
}

/// Components joined with `/`, the separator in which the library names
/// files relative to the repository root (whatever the platform's).
pub open spec fn join_components(cs: PathComponents) -> Seq<char>
    decreases cs.len(),
{
    if cs.len() == 0 {
        Seq::empty()
    } else if cs.len() == 1 {
        cs[0]
    } else {
        join_components(cs.drop_last()) + seq!['/'] + cs.last()
    }
}

/// The components of a walked path after its leading `.`
/// (`strip_prefix("./")`, or all of them when there is no such component).
pub open spec fn relative_components(path: PathComponents) -> PathComponents {
    if path.len() >= 1 && path[0] == cur_dir() {
        path.skip(1)
    } else {
        path
    }
}

/// The name of a walked file relative to the repository root.
pub open spec fn relative_to_root(path: PathComponents) -> Seq<char> {
    join_components(relative_components(path))
}

/// The blob hash the last commit records for `rel`, if any; when the
/// commit lists a path twice, the later entry wins (as building a map
/// from the rows does).
pub open spec fn head_lookup(head: Seq<EntryView>, rel: Seq<char>) -> Option<Seq<char>>
    decreases head.len(),
{
    if head.len() == 0 {
        None
    } else if head.last().0 == rel {
        Some(head.last().1)
    } else {
        head_lookup(head.drop_last(), rel)
    }
}

/// The blob the last commit holds for a walked path, when the path is
/// outside the repository's folder and tracked.
pub open spec fn tracked_blob_of(head: Seq<EntryView>, path: PathComponents) -> Option<Seq<char>> {
    if in_internal_dir(path) {
        None
    } else {
        head_lookup(head, relative_to_root(path))
    }
}

/// A file found by walking the working tree from `.`, by the components
/// of its path, with the hash of its content when it is tracked (`None`
/// otherwise).
pub struct WalkedFile {
    pub components: Vec<String>,
    pub content_hash: Option<String>,
}

/// The value of a walked file.
pub type WalkedView = (PathComponents, Option<Seq<char>>);

impl View for WalkedFile {
    type V = WalkedView;

    open spec fn view(&self) -> WalkedView {
        (
            components_view(self.components@),
            match self.content_hash {
                Some(h) => Some(h@),
                None => None,
            },
        )
    }
}

/// The values of walked files.
pub open spec fn walked_view(v: Seq<WalkedFile>) -> Seq<WalkedView> {
    v.map_values(|w: WalkedFile| w@)
}

/// The modified files and the untracked files, in walk order: a tracked
/// file is modified when its content hash differs from the committed one
/// (it is listed with its name and the committed blob); a file the last
/// commit does not hold is untracked; the repository's own folder is
/// skipped.
pub open spec fn status_scan(head: Seq<EntryView>, walked: Seq<WalkedView>) -> (
    Seq<EntryView>,
    Seq<Seq<char>>,
)
    decreases walked.len(),
{
    if walked.len() == 0 {
        (Seq::empty(), Seq::empty())
    } else {
        let (modified, untracked) = status_scan(head, walked.drop_last());
        let w = walked.last();
        if in_internal_dir(w.0) {
            (modified, untracked)
        } else {
            let rel = relative_to_root(w.0);
            match head_lookup(head, rel) {
                Some(old) => if w.1 != Some(old) {
                    (modified.push((rel, old)), untracked)
                } else {
                    (modified, untracked)
                },
                None => (modified, untracked.push(rel)),
            }
        }
    }
}

/// The names, relative to the root, of the walked files outside the
/// repository's folder, in walk order.
pub open spec fn walked_names(walked: Seq<WalkedView>) -> Seq<Seq<char>>
    decreases walked.len(),
{
    if walked.len() == 0 {
        Seq::empty()
    } else {
        let before = walked_names(walked.drop_last());
        if in_internal_dir(walked.last().0) {
            before
        } else {
            before.push(relative_to_root(walked.last().0))
        }
    }
}

/// The entries of `head`, in order, whose path is not among `names`.
pub open spec fn missing_entries(head: Seq<EntryView>, names: Seq<Seq<char>>) -> Seq<EntryView>
    decreases head.len(),
{
    if head.len() == 0 {
        Seq::empty()
    } else {
        let before = missing_entries(head.drop_last(), names);
        if names.contains(head.last().0) {
            before
        } else {
            before.push(head.last())
        }
    }
}

/// The committed files that the walk did not find: removed since the last
/// commit, in commit order.
pub open spec fn deleted_scan(head: Seq<EntryView>, walked: Seq<WalkedView>) -> Seq<EntryView> {
    missing_entries(head, walked_names(walked))
}

/// The paths of a list of entries.
pub open spec fn entry_paths(es: Seq<EntryView>) -> Seq<Seq<char>> {
    es.map_values(|e: EntryView| e.0)
}

/// The lines `mox status` prints for these lists: the modified and the
/// deleted files under "Changes not staged for commit", then the untracked
/// files, or the clean-tree line when all three are empty.
pub open spec fn status_lines(
    modified: Seq<Seq<char>>,
    deleted: Seq<Seq<char>>,
    untracked: Seq<Seq<char>>,
) -> Seq<Seq<char>> {
    seq!["On branch 'main'"@] + (if modified.len() > 0 || deleted.len() > 0 {
        seq!["\nChanges not staged for commit:"@] + modified.map_values(
            |p: Seq<char>| "\tmodified:   "@ + p,
        ) + deleted.map_values(|p: Seq<char>| "\tdeleted:    "@ + p)
    } else {
        Seq::empty()
    }) + (if untracked.len() > 0 {
        seq!["\nUntracked files:"@] + untracked.map_values(|p: Seq<char>| "\t"@ + p)
    } else {
        Seq::empty()
    }) + (if modified.len() == 0 && deleted.len() == 0 && untracked.len() == 0 {
        seq!["\nnothing to commit, working tree clean"@]
    } else {
        Seq::empty()
    })
}

/// The report of `mox status` for a walk against the last commit.
pub open spec fn status_report(head: Seq<EntryView>, walked: Seq<WalkedView>) -> Seq<Seq<char>> {
    status_lines(
        entry_paths(status_scan(head, walked).0),
        entry_paths(deleted_scan(head, walked)),
        status_scan(head, walked).1,
    )
}

/// Whether a walked path lies in the repository's own folder.
pub fn is_internal_path(components: &Vec<String>) -> (b: bool)
    ensures
        b == in_internal_dir(components_view(components@)),
{
    if components.len() < 2 {
        return false;
    }
    let dot = String::from_str(".");
    let name = String::from_str(".mox");
    proof {
        reveal_strlit(".");
        reveal_strlit(".mox");
        assert(dot@ =~= cur_dir());
        assert(name@ =~= internal_name());
    }
    components[0] == dot && components[1] == name
}

/// The name of a walked file relative to the repository root: its
/// components after a leading `.`, joined with `/`.
pub fn relative_path(components: &Vec<String>) -> (r: String)
    ensures
        r@ == relative_to_root(components_view(components@)),
{
    let ghost cv = components_view(components@);
    let dot = String::from_str(".");
    proof {
        reveal_strlit(".");
        assert(dot@ =~= cur_dir());
    }
    let start: usize = if components.len() >= 1 && components[0] == dot {
        1
    } else {
        0
    };
    let ghost rc = relative_components(cv);
    assert(rc =~= cv.subrange(start as int, cv.len() as int));
    let mut r = String::new();
    let mut i: usize = start;
    assert(cv.subrange(start as int, i as int) =~= Seq::<Seq<char>>::empty());
    while i < components.len()
        invariant
            cv == components_view(components@),
            start <= i <= components@.len(),
            r@ == join_components(cv.subrange(start as int, i as int)),
        decreases components@.len() - i,
    {
        let ghost part = cv.subrange(start as int, i + 1);
        assert(part.drop_last() =~= cv.subrange(start as int, i as int));
        assert(part.last() == components@[i as int]@);
        if i > start {
            r.append("/");
            proof {
                reveal_strlit("/");
            }
        }
        r.append(components[i].as_str());
        proof {
            if i == start {
                assert(r@ =~= part[0]);
            } else {
                assert(r@ =~= join_components(part.drop_last()) + seq!['/'] + part.last());
            }
        }
        i = i + 1;
    }
    r
}

/// The blob hash the last commit records for `rel`, if any.
pub fn head_blob(head: &Vec<FileEntry>, rel: &String) -> (r: Option<String>)
    ensures
        match r {
            Some(h) => head_lookup(entries_view(head@), rel@) == Some(h@),
            None => head_lookup(entries_view(head@), rel@) is None,
        },
{
    let ghost hv = entries_view(head@);
    let mut i: usize = head.len();
    assert(hv.take(i as int) =~= hv);
    while i > 0
        invariant
            i <= head@.len(),
            hv == entries_view(head@),
            head_lookup(hv, rel@) == head_lookup(hv.take(i as int), rel@),
        decreases i,
    {
        let ghost t = hv.take(i as int);
        assert(t.drop_last() =~= hv.take(i - 1));
        assert(t.last() == head@[i - 1]@);
        if head[i - 1].path == *rel {
            return Some(head[i - 1].blob_hash.clone());
        }
        i = i - 1;
    }
    None
}

/// The blob the last commit holds for a walked path, when that path is
/// tracked: the files whose content has to be hashed for the status.
pub fn tracked_blob(head: &Vec<FileEntry>, path: &Vec<String>) -> (r: Option<String>)
    ensures
        match r {
            Some(h) => tracked_blob_of(entries_view(head@), components_view(path@)) == Some(h@),
            None => tracked_blob_of(entries_view(head@), components_view(path@)) is None,
        },
{
    if is_internal_path(path) {
        return None;
    }
    let rel = relative_path(path);
    head_blob(head, &rel)
}

fn push_prefixed(lines: &mut Vec<String>, prefix: &str, items: &Vec<String>)
    ensures
        final(lines)@.map_values(|s: String| s@) == old(lines)@.map_values(|s: String| s@)
            + items@.map_values(|s: String| s@).map_values(|p: Seq<char>| prefix@ + p),
{
    let ghost start = lines@.map_values(|s: String| s@);
    let ghost iv = items@.map_values(|s: String| s@);
    assert(iv.take(0).map_values(|p: Seq<char>| prefix@ + p) =~= Seq::<Seq<char>>::empty());
    assert(lines@.map_values(|s: String| s@) =~= start + iv.take(0).map_values(
        |p: Seq<char>| prefix@ + p,
    ));
    for k in 0..items.len()
        invariant
            iv == items@.map_values(|s: String| s@),
            lines@.map_values(|s: String| s@) == start + iv.take(k as int).map_values(
                |p: Seq<char>| prefix@ + p,
            ),
    {
        let ghost old_lines = lines@.map_values(|s: String| s@);
        let mut item = String::from_str(prefix);
        item.append(items[k].as_str());
        assert(item@ == prefix@ + iv[k as int]);
        lines.push(item);
        assert(lines@.map_values(|s: String| s@) =~= old_lines.push(prefix@ + iv[k as int]));
        assert(iv.take(k + 1).map_values(|p: Seq<char>| prefix@ + p) =~= iv.take(
            k as int,
        ).map_values(|p: Seq<char>| prefix@ + p).push(prefix@ + iv[k as int]));
    }
    assert(iv.take(items.len() as int) =~= iv);
}

pub fn paths_of(entries: &Vec<FileEntry>) -> (r: Vec<String>)
    ensures
        r@.map_values(|s: String| s@) == entry_paths(entries_view(entries@)),
{
    let mut r: Vec<String> = Vec::new();
    for k in 0..entries.len()
        invariant
            r@.map_values(|s: String| s@) == entry_paths(entries_view(entries@)).take(k as int),
    {
        let ghost old_r = r@.map_values(|s: String| s@);
        let ghost ep = entry_paths(entries_view(entries@));
        let p = entries[k].path.clone();
        assert(p@ == ep[k as int]);
        r.push(p);
        assert(r@.map_values(|s: String| s@) =~= old_r.push(ep[k as int]));
        assert(ep.take(k + 1) =~= ep.take(k as int).push(ep[k as int]));
        assert(r@.map_values(|s: String| s@) =~= entry_paths(entries_view(entries@)).take(k + 1));
    }
    assert(entry_paths(entries_view(entries@)).take(entries.len() as int) =~= entry_paths(
        entries_view(entries@),
    ));
    r
}

fn contains_name(names: &Vec<String>, name: &String) -> (b: bool)
    ensures
        b == names@.map_values(|x: String| x@).contains(name@),
{
    let ghost v = names@.map_values(|x: String| x@);
    let mut i: usize = 0;
    while i < names.len()
        invariant
            v == names@.map_values(|x: String| x@),
            i <= names@.len(),
            forall|k: int| 0 <= k < i ==> v[k] != name@,
        decreases names@.len() - i,
    {
        if names[i] == *name {
            assert(v[i as int] == name@);
            return true;
        }
        i = i + 1;
    }
    false
}

/// The working tree compared with the last commit.
pub struct TreeScan {
    /// Tracked files whose content differs, with their committed blob.
    pub modified: Vec<FileEntry>,
    /// Files the last commit does not hold.
    pub untracked: Vec<String>,
    /// Committed files the walk did not find.
    pub deleted: Vec<FileEntry>,
}

/// Compares the working tree (`walked`, in walk order) with the last commit
/// (`head`). Every tracked file must come with its content hash.
pub fn scan_working_tree(head: &Vec<FileEntry>, walked: &Vec<WalkedFile>) -> (r: TreeScan)
    requires
        forall|i: int|
            0 <= i < walked@.len() ==> (tracked_blob_of(
                entries_view(head@),
                components_view((#[trigger] walked@[i]).components@),
            ) is Some ==> walked@[i].content_hash is Some),
    ensures
        entries_view(r.modified@) == status_scan(entries_view(head@), walked_view(walked@)).0,
        r.untracked@.map_values(|s: String| s@) == status_scan(
            entries_view(head@),
            walked_view(walked@),
        ).1,
        entries_view(r.deleted@) == deleted_scan(entries_view(head@), walked_view(walked@)),
{
    let ghost hv = entries_view(head@);
    let ghost wv = walked_view(walked@);
    let mut modified: Vec<FileEntry> = Vec::new();
    let mut untracked: Vec<String> = Vec::new();
    let mut names: Vec<String> = Vec::new();
    assert(wv.take(0) =~= Seq::<WalkedView>::empty());
    for i in 0..walked.len()
        invariant
            hv == entries_view(head@),
            wv == walked_view(walked@),
            forall|k: int|
                0 <= k < walked@.len() ==> (tracked_blob_of(
                    hv,
                    components_view((#[trigger] walked@[k]).components@),
                ) is Some ==> walked@[k].content_hash is Some),
            entries_view(modified@) == status_scan(hv, wv.take(i as int)).0,
            untracked@.map_values(|s: String| s@) == status_scan(hv, wv.take(i as int)).1,
            names@.map_values(|s: String| s@) == walked_names(wv.take(i as int)),
    {
        let w = &walked[i];
        let ghost before = status_scan(hv, wv.take(i as int));
        let ghost names_before = names@.map_values(|s: String| s@);
        proof {
            assert(wv.take(i + 1).drop_last() =~= wv.take(i as int));
            assert(wv.take(i + 1).last() == w@);
        }
        if !is_internal_path(&w.components) {
            let rel = relative_path(&w.components);
            let ghost rel_v = rel@;
            match head_blob(head, &rel) {
                Some(old) => {
                    let differs = match &w.content_hash {
                        Some(h) => *h != old,
                        None => true,
                    };
                    if differs {
                        let ghost ov = old@;
                        modified.push(FileEntry { path: rel.clone(), blob_hash: old });
                        assert(entries_view(modified@) =~= before.0.push((rel_v, ov)));
                    }
                },
                None => {
                    untracked.push(rel.clone());
                    assert(untracked@.map_values(|s: String| s@) =~= before.1.push(rel_v));
                },
            }
            names.push(rel);
            assert(names@.map_values(|s: String| s@) =~= names_before.push(rel_v));
        }
    }
    assert(wv.take(walked.len() as int) =~= wv);
    let ghost nv = walked_names(wv);
    let mut deleted: Vec<FileEntry> = Vec::new();
    assert(hv.take(0) =~= Seq::<EntryView>::empty());
    for k in 0..head.len()
        invariant
            hv == entries_view(head@),
            nv == names@.map_values(|s: String| s@),
            entries_view(deleted@) == missing_entries(hv.take(k as int), nv),
    {
        let ghost before = entries_view(deleted@);
        proof {
            assert(hv.take(k + 1).drop_last() =~= hv.take(k as int));
            assert(hv.take(k + 1).last() == head@[k as int]@);
        }
        if !contains_name(&names, &head[k].path) {
            deleted.push(head[k].duplicate());
            assert(entries_view(deleted@) =~= before.push(head@[k as int]@));
        }
    }
    assert(hv.take(head.len() as int) =~= hv);
    TreeScan { modified, untracked, deleted }
}

/// Compares the working tree (`walked`, in walk order) with the last commit
/// (`head`) and gives the lines of the report: the modified and the deleted
/// files, then the untracked ones. Every tracked file must come with its
/// content hash.
pub fn show_status(head: &Vec<FileEntry>, walked: &Vec<WalkedFile>) -> (lines: Vec<String>)
    requires
        forall|i: int|
            0 <= i < walked@.len() ==> (tracked_blob_of(
                entries_view(head@),
                components_view((#[trigger] walked@[i]).components@),
            ) is Some ==> walked@[i].content_hash is Some),
    ensures
        lines@.map_values(|s: String| s@) == status_report(
            entries_view(head@),
            walked_view(walked@),
        ),
{
    let scan = scan_working_tree(head, walked);
    let modified = paths_of(&scan.modified);
    let deleted = paths_of(&scan.deleted);
    let untracked = scan.untracked;
    let ghost m = modified@.map_values(|s: String| s@);
    let ghost d = deleted@.map_values(|s: String| s@);
    let ghost u = untracked@.map_values(|s: String| s@);
    let mut lines: Vec<String> = Vec::new();
    lines.push(String::from_str("On branch 'main'"));
    let ghost mut expected: Seq<Seq<char>> = seq!["On branch 'main'"@];
    assert(lines@.map_values(|s: String| s@) =~= expected);
    if modified.len() > 0 || deleted.len() > 0 {
        lines.push(String::from_str("\nChanges not staged for commit:"));
        push_prefixed(&mut lines, "\tmodified:   ", &modified);
        push_prefixed(&mut lines, "\tdeleted:    ", &deleted);
        proof {
            expected = expected.push("\nChanges not staged for commit:"@) + m.map_values(
                |p: Seq<char>| "\tmodified:   "@ + p,
            ) + d.map_values(|p: Seq<char>| "\tdeleted:    "@ + p);
        }
        assert(lines@.map_values(|s: String| s@) =~= expected);
    }
    if untracked.len() > 0 {
        lines.push(String::from_str("\nUntracked files:"));
        push_prefixed(&mut lines, "\t", &untracked);
        proof {
            expected = expected.push("\nUntracked files:"@) + u.map_values(
                |p: Seq<char>| "\t"@ + p,
            );
        }
        assert(lines@.map_values(|s: String| s@) =~= expected);
    }
    if modified.len() == 0 && deleted.len() == 0 && untracked.len() == 0 {
        lines.push(String::from_str("\nnothing to commit, working tree clean"));
        proof {
            expected = expected.push("\nnothing to commit, working tree clean"@);
        }
        assert(lines@.map_values(|s: String| s@) =~= expected);
    }
    assert(expected =~= status_lines(m, d, u));
    lines
}

proof fn lemma_scan_clean_when_files_match(head: Seq<EntryView>, walked: Seq<WalkedView>)
    requires
        forall|i: int|
            0 <= i < walked.len() && !in_internal_dir((#[trigger] walked[i]).0) ==> {
                &&& head_lookup(head, relative_to_root(walked[i].0)) is Some
                &&& walked[i].1 == head_lookup(head, relative_to_root(walked[i].0))
            },
    ensures
        status_scan(head, walked).0 == Seq::<EntryView>::empty(),
        status_scan(head, walked).1 == Seq::<Seq<char>>::empty(),
    decreases walked.len(),
{
    if walked.len() > 0 {
        let d = walked.drop_last();
        assert forall|i: int|
            0 <= i < d.len() && !in_internal_dir((#[trigger] d[i]).0) implies {
                &&& head_lookup(head, relative_to_root(d[i].0)) is Some
                &&& d[i].1 == head_lookup(head, relative_to_root(d[i].0))
            } by {
            assert(d[i] == walked[i]);
        }
        lemma_scan_clean_when_files_match(head, d);
        assert(walked.last() == walked[walked.len() - 1]);
    }
}

proof fn lemma_nothing_missing(head: Seq<EntryView>, names: Seq<Seq<char>>)
    requires
        forall|k: int| 0 <= k < head.len() ==> names.contains((#[trigger] head[k]).0),
    ensures
        missing_entries(head, names) == Seq::<EntryView>::empty(),
    decreases head.len(),
{
    if head.len() > 0 {
        let d = head.drop_last();
        assert forall|k: int| 0 <= k < d.len() implies names.contains((#[trigger] d[k]).0) by {
            assert(d[k] == head[k]);
        }
        lemma_nothing_missing(d, names);
        assert(names.contains(head[head.len() - 1].0));
    }
}

/// When every walked file outside the repository's folder is one the last
/// commit holds, with the committed content, and every committed file is
/// among the walked ones (as right after adding and committing the whole
/// tree), the status lists nothing and reports a clean working tree.
pub proof fn lemma_status_clean_when_tree_matches_commit(
    head: Seq<EntryView>,
    walked: Seq<WalkedView>,
)
    requires
        forall|i: int|
            0 <= i < walked.len() && !in_internal_dir((#[trigger] walked[i]).0) ==> {
                &&& head_lookup(head, relative_to_root(walked[i].0)) is Some
                &&& walked[i].1 == head_lookup(head, relative_to_root(walked[i].0))
            },
        forall|k: int| 0 <= k < head.len() ==> walked_names(walked).contains((#[trigger] head[k]).0),
    ensures
        status_scan(head, walked).0 == Seq::<EntryView>::empty(),
        status_scan(head, walked).1 == Seq::<Seq<char>>::empty(),
        deleted_scan(head, walked) == Seq::<EntryView>::empty(),
        status_report(head, walked) == seq![
            "On branch 'main'"@,
            "\nnothing to commit, working tree clean"@,
        ],
{
    lemma_scan_clean_when_files_match(head, walked);
    lemma_nothing_missing(head, walked_names(walked));
    assert(entry_paths(Seq::<EntryView>::empty()) =~= Seq::<Seq<char>>::empty());
    assert(status_report(head, walked) =~= seq![
        "On branch 'main'"@,
        "\nnothing to commit, working tree clean"@,
    ]);
}

/// A name walked from the root `.` is the name of the same components
/// staged by `add` from `.`: both are the components joined with `/`.
pub proof fn lemma_walked_name_is_staged_name(cs: PathComponents)
    ensures
        relative_to_root(seq![cur_dir()] + cs) == join_components(cs),
        (cs.len() == 0 || cs[0] != cur_dir()) ==> relative_to_root(cs) == join_components(cs),
{
    assert((seq![cur_dir()] + cs).skip(1) =~= cs);
}

/// The pieces of `s` between the separators `sep`, in order.
pub open spec fn split_on(s: Seq<char>, sep: char) -> Seq<Seq<char>>
    decreases s.len(),
{
    if s.len() == 0 {
        seq![Seq::<char>::empty()]
    } else {
        let before = split_on(s.drop_last(), sep);
        if s.last() == sep {
            before.push(Seq::<char>::empty())
        } else {
            before.update(before.len() - 1, before.last().push(s.last()))
        }
    }
}

proof fn lemma_split_on_nonempty(s: Seq<char>, sep: char)
    ensures
        split_on(s, sep).len() >= 1,
    decreases s.len(),
{
    if s.len() > 0 {
        lemma_split_on_nonempty(s.drop_last(), sep);
    }
}

proof fn lemma_split_on_without_sep(s: Seq<char>, sep: char)
    requires
        !s.contains(sep),
    ensures
        split_on(s, sep) == seq![s],
    decreases s.len(),
{
    if s.len() > 0 {
        let d = s.drop_last();
        assert(!d.contains(sep)) by {
            if d.contains(sep) {
                let j = choose|j: int| 0 <= j < d.len() && d[j] == sep;
                assert(s[j] == sep);
            }
        }
        lemma_split_on_without_sep(d, sep);
        if s[s.len() - 1] == sep {
            assert(s.contains(sep));
        }
        assert(d.push(s.last()) =~= s);
        assert(seq![d].update(0, d.push(s.last())) =~= seq![s]);
    } else {
        assert(s =~= Seq::<char>::empty());
    }
}

proof fn lemma_split_on_joined(a: Seq<char>, b: Seq<char>, sep: char)
    ensures
        split_on(a + seq![sep] + b, sep) == split_on(a, sep) + split_on(b, sep),
    decreases b.len(),
{
    let whole = a + seq![sep] + b;
    if b.len() == 0 {
        assert(whole.drop_last() =~= a);
        assert(split_on(a, sep).push(Seq::<char>::empty()) =~= split_on(a, sep) + split_on(
            b,
            sep,
        ));
    } else {
        assert(whole.drop_last() =~= a + seq![sep] + b.drop_last());
        assert(whole.last() == b.last());
        lemma_split_on_joined(a, b.drop_last(), sep);
        lemma_split_on_nonempty(b.drop_last(), sep);
        let x = split_on(a, sep);
        let y = split_on(b.drop_last(), sep);
        if b.last() == sep {
            assert((x + y).push(Seq::<char>::empty()) =~= x + y.push(Seq::<char>::empty()));
        } else {
            let xy = x + y;
            assert(xy.update(xy.len() - 1, xy.last().push(b.last())) =~= x + y.update(
                y.len() - 1,
                y.last().push(b.last()),
            ));
        }
    }
}

/// Joining components that hold no `/` can be undone: splitting the joined
/// name at each `/` gives back exactly the components. So each pair of
/// neighbouring components is separated by exactly one `/`.
pub proof fn lemma_join_components_round_trip(cs: PathComponents)
    requires
        cs.len() >= 1,
        forall|i: int| 0 <= i < cs.len() ==> !(#[trigger] cs[i]).contains('/'),
    ensures
        split_on(join_components(cs), '/') == cs,
    decreases cs.len(),
{
    if cs.len() == 1 {
        lemma_split_on_without_sep(cs[0], '/');
        assert(seq![cs[0]] =~= cs);
    } else {
        let d = cs.drop_last();
        assert forall|i: int| 0 <= i < d.len() implies !(#[trigger] d[i]).contains('/') by {
            assert(d[i] == cs[i]);
        }
        lemma_join_components_round_trip(d);
        assert(!cs[cs.len() - 1].contains('/'));
        assert(cs.last() == cs[cs.len() - 1]);
        lemma_split_on_without_sep(cs.last(), '/');
        lemma_split_on_joined(join_components(d), cs.last(), '/');
        assert(d + seq![cs.last()] =~= cs);
    }
}

/// The name of a walked file, relative to the root, is its components after
/// the leading `.`, each separated from the next by one `/`: splitting the
/// name at `/` gives back those components.
pub proof fn lemma_relative_name_lists_components(cs: PathComponents)
    requires
        cs.len() >= 1,
        forall|i: int| 0 <= i < cs.len() ==> !(#[trigger] cs[i]).contains('/'),
    ensures
        split_on(relative_to_root(seq![cur_dir()] + cs), '/') == cs,
{
    lemma_walked_name_is_staged_name(cs);
    lemma_join_components_round_trip(cs);
}

} // verus!
