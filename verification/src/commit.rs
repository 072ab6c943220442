//! Committing the staging area: the staged files are put in path order,
//! compared with the files of the branch's last commit, and hashed with
//! the message into the commit's identity.

use vstd::prelude::*;
use vstd::utf8::encode_utf8;
use vstd::string::*;
use crate::text::{lex_le, bytes_le, lemma_lex_le_total, lemma_lex_le_transitive,
    lemma_lex_le_antisymmetric};
use crate::hashing::{BlobHasher, content_id};
use vstd::utf8::encode_utf8_decode_utf8;

verus! {

/// A file of a snapshot: its path relative to the repository root and the
/// identity of its content.
pub struct FileEntry {
    pub path: String,
    pub blob_hash: String,
}

/// The value of a `FileEntry`: `(path, blob_hash)`.
pub type EntryView = (Seq<char>, Seq<char>);

impl View for FileEntry {
    type V = EntryView;

    open spec fn view(&self) -> EntryView {
        (self.path@, self.blob_hash@)
    }
}

impl FileEntry {
    /// A copy of this entry.
    pub fn duplicate(&self) -> (r: FileEntry)
        ensures
            r@ == self@,
    {
        FileEntry { path: self.path.clone(), blob_hash: self.blob_hash.clone() }
    }
}

/// The values of a sequence of entries.
pub open spec fn entries_view(v: Seq<FileEntry>) -> Seq<EntryView> {
    v.map_values(|e: FileEntry| e@)
}

/// Entries are ordered by path, as strings compare: byte-wise on UTF-8.
pub open spec fn path_le(a: EntryView, b: EntryView) -> bool {
    lex_le(encode_utf8(a.0), encode_utf8(b.0))
}

/// Inserts `e` into `s` after every entry whose path is not greater, so
/// that entries with equal paths keep their relative order.
pub open spec fn insert_by_path(s: Seq<EntryView>, e: EntryView) -> Seq<EntryView>
    decreases s.len(),
{
    if s.len() == 0 {
        seq![e]
    } else if path_le(s.last(), e) {
        s.push(e)
    } else {
        insert_by_path(s.drop_last(), e).push(s.last())
    }
}

/// The stable sort of `s` by path (what `sort_by` on the path gives).
pub open spec fn sort_by_path(s: Seq<EntryView>) -> Seq<EntryView>
    decreases s.len(),
{
    if s.len() == 0 {
        s
    } else {
        insert_by_path(sort_by_path(s.drop_last()), s.last())
    }
}

/// `s` is in path order.
pub open spec fn is_path_sorted(s: Seq<EntryView>) -> bool {
    forall|i: int, j: int| 0 <= i < j < s.len() ==> path_le(#[trigger] s[i], #[trigger] s[j])
}

/// No two entries of `s` have the same path.
pub open spec fn has_distinct_paths(s: Seq<EntryView>) -> bool {
    forall|i: int, j: int| 0 <= i < j < s.len() ==> (#[trigger] s[i]).0 != (#[trigger] s[j]).0
}

/// The bytes a commit's hash is taken over for these entries: each path
/// followed by its blob hash.
pub open spec fn entries_bytes(es: Seq<EntryView>) -> Seq<u8>
    decreases es.len(),
{
    if es.len() == 0 {
        Seq::empty()
    } else {
        entries_bytes(es.drop_last()) + encode_utf8(es.last().0) + encode_utf8(es.last().1)
    }
}

/// The identity of a commit: the hash of its message, then of its entries
/// in the order given.
pub open spec fn commit_id(message: Seq<char>, entries: Seq<EntryView>) -> Seq<char> {
    content_id(encode_utf8(message) + entries_bytes(entries))
}

/// A commit that `create_commit` is to record: its identity and its files,
/// in path order.
pub struct CommitPlan {
    pub hash: String,
    pub entries: Vec<FileEntry>,
}

/// Why a commit is refused.
#[derive(PartialEq, Eq, Structural)]
pub enum CommitError {
    /// The staging area is identical to the branch's last commit.
    NoChanges,
}

impl CommitError {
    /// The message shown for this error.
    pub fn message(&self) -> (s: String)
        ensures
            s@ == commit_error_text(),
    {
        let t = "No changes detected. The staging area is identical to the last commit.";
        proof {
            reveal_strlit("No changes detected. The staging area is identical to the last commit.");
        }
        String::from_str(t)
    }
}

/// The text of the `NoChanges` error.
pub open spec fn commit_error_text() -> Seq<char> {
    "No changes detected. The staging area is identical to the last commit."@
}

proof fn lemma_insert_at(s: Seq<EntryView>, e: EntryView, j: int)
    requires
        0 <= j <= s.len(),
        j == 0 || path_le(s[j - 1], e),
        forall|k: int| j <= k < s.len() ==> !path_le(#[trigger] s[k], e),
    ensures
        insert_by_path(s, e) == s.insert(j, e),
    decreases s.len(),
{
    if s.len() == 0 {
        assert(s.insert(j, e) =~= seq![e]);
    } else if j == s.len() {
        assert(s.insert(j, e) =~= s.push(e));
    } else {
        assert(!path_le(s[s.len() - 1], e));
        let d = s.drop_last();
        lemma_insert_at(d, e, j);
        assert(d.insert(j, e).push(s.last()) =~= s.insert(j, e));
    }
}

/// Sorts entries by path, keeping the order of entries with equal paths.
pub fn sort_entries(entries: &Vec<FileEntry>) -> (r: Vec<FileEntry>)
    ensures
        entries_view(r@) == sort_by_path(entries_view(entries@)),
{
    let mut out: Vec<FileEntry> = Vec::new();
    let ghost ev = entries_view(entries@);
    assert(ev.take(0) =~= Seq::<EntryView>::empty());
    for i in 0..entries.len()
        invariant
            ev == entries_view(entries@),
            entries_view(out@) == sort_by_path(ev.take(i as int)),
    {
        let e = entries[i].duplicate();
        let ghost s = entries_view(out@);
        let mut j: usize = out.len();
        while j > 0 && !bytes_le(out[j - 1].path.as_str().as_bytes(), e.path.as_str().as_bytes())
            invariant
                j <= out@.len(),
                s == entries_view(out@),
                forall|k: int| j <= k < s.len() ==> !path_le(#[trigger] s[k], e@),
            decreases j,
        {
            j = j - 1;
        }
        proof {
            lemma_insert_at(s, e@, j as int);
            assert(ev.take(i + 1).drop_last() =~= ev.take(i as int));
            assert(ev.take(i + 1).last() == e@);
        }
        let ghost ev_e = e@;
        out.insert(j, e);
        assert(entries_view(out@) =~= s.insert(j as int, ev_e));
    }
    assert(ev.take(entries.len() as int) =~= ev);
    out
}

/// Whether two entry lists are identical, entry by entry.
pub fn same_entries(a: &Vec<FileEntry>, b: &Vec<FileEntry>) -> (r: bool)
    ensures
        r == (entries_view(a@) == entries_view(b@)),
{
    if a.len() != b.len() {
        assert(entries_view(a@).len() != entries_view(b@).len());
        return false;
    }
    let mut i: usize = 0;
    while i < a.len()
        invariant
            a@.len() == b@.len(),
            i <= a@.len(),
            forall|k: int| 0 <= k < i ==> a@[k]@ == b@[k]@,
        decreases a@.len() - i,
    {
        if a[i].path != b[i].path || a[i].blob_hash != b[i].blob_hash {
            assert(entries_view(a@)[i as int] != entries_view(b@)[i as int]);
            return false;
        }
        i = i + 1;
    }
    assert(entries_view(a@) =~= entries_view(b@));
    true
}

/// The identity of a commit with this message and these entries, hashed in
/// the order given.
pub fn commit_hash(message: &str, entries: &Vec<FileEntry>) -> (h: String)
    ensures
        h@ == commit_id(message@, entries_view(entries@)),
        h@.len() == 64,
{
    let mut hasher = BlobHasher::new();
    hasher.update(message.as_bytes());
    let ghost ev = entries_view(entries@);
    assert(ev.take(0) =~= Seq::<EntryView>::empty());
    assert(encode_utf8(message@) + entries_bytes(ev.take(0)) =~= encode_utf8(message@));
    for i in 0..entries.len()
        invariant
            ev == entries_view(entries@),
            hasher.absorbed() == encode_utf8(message@) + entries_bytes(ev.take(i as int)),
    {
        hasher.update(entries[i].path.as_str().as_bytes());
        hasher.update(entries[i].blob_hash.as_str().as_bytes());
        proof {
            assert(ev.take(i + 1).drop_last() =~= ev.take(i as int));
            assert(ev.take(i + 1).last() == entries@[i as int]@);
        }
        assert(hasher.absorbed() =~= encode_utf8(message@) + entries_bytes(ev.take(i + 1)));
    }
    assert(ev.take(entries.len() as int) =~= ev);
    hasher.finalize_hex()
}

/// Decides a commit of the staging area (`staged`, in any order) on a branch
/// whose last commit holds `previous` (empty when the branch has no commit):
/// refused when, both sorted by path, they are identical; otherwise the
/// sorted staged files and the hash of the message and those files.
pub fn create_commit(message: &str, staged: &Vec<FileEntry>, previous: &Vec<FileEntry>) -> (r:
    Result<CommitPlan, CommitError>)
    ensures
        match r {
            Ok(plan) => {
                &&& sort_by_path(entries_view(staged@)) != sort_by_path(entries_view(previous@))
                &&& entries_view(plan.entries@) == sort_by_path(entries_view(staged@))
                &&& plan.hash@ == commit_id(message@, sort_by_path(entries_view(staged@)))
                &&& plan.hash@.len() == 64
            },
            Err(e) => {
                &&& e == CommitError::NoChanges
                &&& sort_by_path(entries_view(staged@)) == sort_by_path(entries_view(previous@))
            },
        },
{
    let staged_files = sort_entries(staged);
    let old_files = sort_entries(previous);
    if same_entries(&staged_files, &old_files) {
        return Err(CommitError::NoChanges);
    }
    let hash = commit_hash(message, &staged_files);
    Ok(CommitPlan { hash, entries: staged_files })
}

proof fn lemma_path_le_total(a: EntryView, b: EntryView)
    ensures
        path_le(a, b) || path_le(b, a),
{
    lemma_lex_le_total(encode_utf8(a.0), encode_utf8(b.0));
}

proof fn lemma_path_le_transitive(a: EntryView, b: EntryView, c: EntryView)
    requires
        path_le(a, b),
        path_le(b, c),
    ensures
        path_le(a, c),
{
    lemma_lex_le_transitive(encode_utf8(a.0), encode_utf8(b.0), encode_utf8(c.0));
}

proof fn lemma_path_le_antisymmetric(a: EntryView, b: EntryView)
    requires
        path_le(a, b),
        path_le(b, a),
    ensures
        a.0 == b.0,
{
    lemma_lex_le_antisymmetric(encode_utf8(a.0), encode_utf8(b.0));
    encode_utf8_decode_utf8(a.0);
    encode_utf8_decode_utf8(b.0);
}

proof fn lemma_insert_by_path(s: Seq<EntryView>, e: EntryView)
    requires
        is_path_sorted(s),
    ensures
        is_path_sorted(insert_by_path(s, e)),
        insert_by_path(s, e).to_multiset() == s.to_multiset().insert(e),
    decreases s.len(),
{
    broadcast use vstd::seq_lib::group_to_multiset_ensures;

    if s.len() == 0 {
        assert(seq![e] =~= s.push(e));
    } else if path_le(s.last(), e) {
        let r = s.push(e);
        assert forall|i: int, j: int| 0 <= i < j < r.len() implies path_le(
            #[trigger] r[i],
            #[trigger] r[j],
        ) by {
            if j == r.len() - 1 && i < s.len() - 1 {
                lemma_path_le_transitive(s[i], s.last(), e);
            }
        }
    } else {
        let d = s.drop_last();
        assert(is_path_sorted(d));
        lemma_insert_by_path(d, e);
        let m = insert_by_path(d, e);
        let r = m.push(s.last());
        lemma_path_le_total(s.last(), e);
        assert forall|k: int| 0 <= k < m.len() implies path_le(#[trigger] m[k], s.last()) by {
            assert(m.contains(m[k]));
            assert(m.to_multiset().count(m[k]) > 0);
            if m[k] != e {
                assert(d.to_multiset().count(m[k]) > 0);
                assert(d.contains(m[k]));
                let w = choose|w: int| 0 <= w < d.len() && d[w] == m[k];
                assert(s[w] == d[w]);
            }
        }
        assert forall|i: int, j: int| 0 <= i < j < r.len() implies path_le(
            #[trigger] r[i],
            #[trigger] r[j],
        ) by {
            if j == r.len() - 1 {
                assert(r[i] == m[i]);
            } else {
                assert(r[i] == m[i] && r[j] == m[j]);
            }
        }
        assert(s =~= d.push(s.last()));
        assert(r.to_multiset() =~= s.to_multiset().insert(e));
    }
}

/// Sorting by path gives entries in path order that are a rearrangement of
/// the entries sorted.
pub proof fn lemma_sort_by_path(s: Seq<EntryView>)
    ensures
        is_path_sorted(sort_by_path(s)),
        sort_by_path(s).to_multiset() == s.to_multiset(),
    decreases s.len(),
{
    broadcast use vstd::seq_lib::group_to_multiset_ensures;

    if s.len() == 0 {
    } else {
        lemma_sort_by_path(s.drop_last());
        lemma_insert_by_path(sort_by_path(s.drop_last()), s.last());
        assert(s =~= s.drop_last().push(s.last()));
    }
}

/// Entries already in path order are left as they are by sorting.
pub proof fn lemma_sort_sorted_is_identity(s: Seq<EntryView>)
    requires
        is_path_sorted(s),
    ensures
        sort_by_path(s) == s,
    decreases s.len(),
{
    if s.len() > 0 {
        let d = s.drop_last();
        assert(is_path_sorted(d));
        lemma_sort_sorted_is_identity(d);
        if d.len() > 0 {
            assert(path_le(s[d.len() - 1], s[s.len() - 1]));
        }
        assert(d.push(s.last()) =~= s);
    }
}

proof fn lemma_sorted_rearrangements_equal(a: Seq<EntryView>, b: Seq<EntryView>)
    requires
        is_path_sorted(a),
        is_path_sorted(b),
        a.to_multiset() == b.to_multiset(),
        has_distinct_paths(a),
    ensures
        a == b,
    decreases a.len(),
{
    broadcast use vstd::seq_lib::group_to_multiset_ensures;

    assert(a.len() == a.to_multiset().len());
    assert(b.len() == b.to_multiset().len());
    if a.len() > 0 {
        let n = a.len() - 1;
        let x = a[n];
        let y = b[n];
        assert(b.contains(y));
        assert(a.to_multiset().count(y) > 0);
        assert(a.contains(y));
        let i = choose|i: int| 0 <= i < a.len() && a[i] == y;
        assert(a.contains(x));
        assert(b.to_multiset().count(x) > 0);
        assert(b.contains(x));
        let k = choose|k: int| 0 <= k < b.len() && b[k] == x;
        if i != n {
            assert(path_le(a[i], x));
            if k != n {
                assert(path_le(b[k], y));
            }
            lemma_path_le_antisymmetric(a[i], x);
            assert(a[i].0 != a[n].0);
        }
        assert(x == y);
        let ad = a.drop_last();
        let bd = b.drop_last();
        assert(a.remove(n) =~= ad);
        assert(b.remove(n) =~= bd);
        assert(ad.to_multiset() == bd.to_multiset());
        assert(is_path_sorted(ad));
        assert(is_path_sorted(bd));
        assert(has_distinct_paths(ad));
        lemma_sorted_rearrangements_equal(ad, bd);
        assert(a =~= ad.push(x));
        assert(b =~= bd.push(y));
    }
}

/// Staged files whose paths are all different give the same sorted list,
/// and so the same commit, whatever order they are read in.
pub proof fn lemma_commit_independent_of_staging_order(
    message: Seq<char>,
    s1: Seq<EntryView>,
    s2: Seq<EntryView>,
)
    requires
        s1.to_multiset() == s2.to_multiset(),
        has_distinct_paths(s1),
    ensures
        sort_by_path(s1) == sort_by_path(s2),
        commit_id(message, sort_by_path(s1)) == commit_id(message, sort_by_path(s2)),
{
    broadcast use vstd::seq_lib::group_to_multiset_ensures;

    lemma_sort_by_path(s1);
    lemma_sort_by_path(s2);
    let t = sort_by_path(s1);
    assert forall|i: int, j: int| 0 <= i < j < t.len() implies (#[trigger] t[i]).0 != (
    #[trigger] t[j]).0 by {
        assert(t.contains(t[i]) && t.contains(t[j]));
        assert(s1.to_multiset().count(t[i]) > 0);
        assert(s1.to_multiset().count(t[j]) > 0);
        assert(s1.contains(t[i]) && s1.contains(t[j]));
        let p = choose|p: int| 0 <= p < s1.len() && s1[p] == t[i];
        let q = choose|q: int| 0 <= q < s1.len() && s1[q] == t[j];
        if t[i].0 == t[j].0 {
            if p == q {
                // two positions of the sorted list hold the same entry
                lemma_count_two_positions(t, i, j);
                lemma_count_le_one_when_distinct(s1, t[i]);
            } else {
                if p < q {
                    assert(s1[p].0 != s1[q].0);
                } else {
                    assert(s1[q].0 != s1[p].0);
                }
            }
        }
    }
    lemma_sorted_rearrangements_equal(t, sort_by_path(s2));
}

proof fn lemma_count_two_positions(t: Seq<EntryView>, i: int, j: int)
    requires
        0 <= i < j < t.len(),
        t[i] == t[j],
    ensures
        t.to_multiset().count(t[i]) >= 2,
{
    broadcast use vstd::seq_lib::group_to_multiset_ensures;

    let r = t.remove(j);
    assert(r[i] == t[i]);
    assert(r.contains(t[i]));
    assert(r.to_multiset().count(t[i]) > 0);
}

proof fn lemma_count_le_one_when_distinct(s: Seq<EntryView>, x: EntryView)
    requires
        has_distinct_paths(s),
    ensures
        s.to_multiset().count(x) <= 1,
    decreases s.len(),
{
    broadcast use vstd::seq_lib::group_to_multiset_ensures;

    if s.len() > 0 {
        let d = s.drop_last();
        assert(has_distinct_paths(d));
        lemma_count_le_one_when_distinct(d, x);
        assert(s =~= d.push(s.last()));
        if x == s.last() && d.to_multiset().count(x) > 0 {
            assert(d.contains(x));
            let w = choose|w: int| 0 <= w < d.len() && d[w] == x;
            assert(s[w].0 != s[s.len() - 1].0);
        }
    }
}

/// A commit leaves the branch's last commit equal, as a sorted list, to the
/// staging area; committing the same staging area again is refused.
pub proof fn lemma_recommit_is_refused(staged: Seq<EntryView>)
    ensures
        sort_by_path(staged) == sort_by_path(sort_by_path(staged)),
{
    lemma_sort_by_path(staged);
    lemma_sort_sorted_is_identity(sort_by_path(staged));
}

/// The bytes of a commit's entries are those of the first entries followed
/// by those of the rest.
pub proof fn lemma_entries_bytes_split(a: Seq<EntryView>, b: Seq<EntryView>)
    ensures
        entries_bytes(a + b) == entries_bytes(a) + entries_bytes(b),
    decreases b.len(),
{
    if b.len() == 0 {
        assert(a + b =~= a);
        assert(entries_bytes(a) + entries_bytes(b) =~= entries_bytes(a));
    } else {
        lemma_entries_bytes_split(a, b.drop_last());
        assert((a + b).drop_last() =~= a + b.drop_last());
        assert((a + b).last() == b.last());
        assert(entries_bytes(a + b) =~= entries_bytes(a) + entries_bytes(b));
    }
}

/// Every entry, whatever its position, contributes its path and then its
/// blob hash to the bytes a commit's hash is taken over: for entries
/// `e1 .. en` they are `p1 b1 p2 b2 .. pn bn`.
pub proof fn lemma_every_entry_is_hashed(es: Seq<EntryView>, k: int)
    requires
        0 <= k < es.len(),
    ensures
        entries_bytes(es) == entries_bytes(es.take(k)) + encode_utf8(es[k].0) + encode_utf8(
            es[k].1,
        ) + entries_bytes(es.skip(k + 1)),
        entries_bytes(es.push(es[k])) == entries_bytes(es) + encode_utf8(es[k].0) + encode_utf8(
            es[k].1,
        ),
{
    let a = es.take(k);
    let b = es.skip(k + 1);
    assert(es =~= a.push(es[k]) + b);
    lemma_entries_bytes_split(a.push(es[k]), b);
    assert(a.push(es[k]).drop_last() =~= a);
    assert(es.push(es[k]).drop_last() =~= es);
}

/// Two commits over the same paths whose entries differ only in the blob
/// hash of one file (any file, at any position) are hashed over different
/// bytes: changing the content of any file changes what the commit id is
/// computed from.
pub proof fn lemma_blob_change_changes_commit_input(
    message: Seq<char>,
    es: Seq<EntryView>,
    k: int,
    blob: Seq<char>,
)
    requires
        0 <= k < es.len(),
        blob != es[k].1,
    ensures
        encode_utf8(message) + entries_bytes(es) != encode_utf8(message) + entries_bytes(
            es.update(k, (es[k].0, blob)),
        ),
{
    let es2 = es.update(k, (es[k].0, blob));
    lemma_every_entry_is_hashed(es, k);
    lemma_every_entry_is_hashed(es2, k);
    assert(es2.take(k) =~= es.take(k));
    assert(es2.skip(k + 1) =~= es.skip(k + 1));
    let pre = encode_utf8(message) + entries_bytes(es.take(k)) + encode_utf8(es[k].0);
    let post = entries_bytes(es.skip(k + 1));
    let u = encode_utf8(es[k].1);
    let v = encode_utf8(blob);
    let x = encode_utf8(message) + entries_bytes(es);
    let y = encode_utf8(message) + entries_bytes(es2);
    assert(x =~= pre + u + post);
    assert(y =~= pre + v + post);
    if x == y {
        assert(u.len() == v.len());
        assert(u =~= x.subrange(pre.len() as int, (pre.len() + u.len()) as int));
        assert(v =~= y.subrange(pre.len() as int, (pre.len() + v.len()) as int));
        encode_utf8_decode_utf8(es[k].1);
        encode_utf8_decode_utf8(blob);
    }
}

/// The message goes into what the commit id is computed from: over the same
/// entries, two different messages are hashed over different bytes.
pub proof fn lemma_message_changes_commit_input(m1: Seq<char>, m2: Seq<char>, es: Seq<EntryView>)
    requires
        m1 != m2,
    ensures
        encode_utf8(m1) + entries_bytes(es) != encode_utf8(m2) + entries_bytes(es),
{
    let x = encode_utf8(m1) + entries_bytes(es);
    let y = encode_utf8(m2) + entries_bytes(es);
    if x == y {
        assert(x.len() == encode_utf8(m1).len() + entries_bytes(es).len());
        assert(y.len() == encode_utf8(m2).len() + entries_bytes(es).len());
        assert(encode_utf8(m1).len() == encode_utf8(m2).len());
        assert(encode_utf8(m1) =~= x.take(encode_utf8(m1).len() as int));
        assert(encode_utf8(m2) =~= y.take(encode_utf8(m2).len() as int));
        assert(encode_utf8(m1) == encode_utf8(m2));
        encode_utf8_decode_utf8(m1);
        encode_utf8_decode_utf8(m2);
    }
}

} // verus!
