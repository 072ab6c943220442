//! `mox log`: the commit history, newest first, as it is printed.

use vstd::prelude::*;
use vstd::string::*;

verus! {

/// A row of the `commits` table, as the history shows it.
pub struct CommitRecord {
    pub hash: String,
    pub message: String,
    pub created_at: String,
}

/// The value of a commit record: `(hash, message, created_at)`.
pub type RecordView = (Seq<char>, Seq<char>, Seq<char>);

impl View for CommitRecord {
    type V = RecordView;

    open spec fn view(&self) -> RecordView {
        (self.hash@, self.message@, self.created_at@)
    }
}

/// The values of a sequence of records.
pub open spec fn records_view(v: Seq<CommitRecord>) -> Seq<RecordView> {
    v.map_values(|r: CommitRecord| r@)
}

/// The `strftime` pattern dates are shown with.
pub open spec fn log_date_pattern() -> Seq<char> {
    "%Y-%m-%d %H:%M:%S"@
}

/// The text chrono gives for an RFC 3339 timestamp converted to UTC and
/// formatted with a `strftime` pattern, or `None` when the text is not
/// RFC 3339.
pub uninterp spec fn rfc3339_in_utc(text: Seq<char>, pattern: Seq<char>) -> Option<Seq<char>>;

/// `chrono::DateTime::parse_from_rfc3339`, then `with_timezone(&Utc)`, then
/// `format(pattern).to_string()`. The result is named, not stated; only the
/// one pattern the history uses is passed (a malformed pattern makes
/// `to_string` panic).
#[verifier::external_body]
fn rfc3339_to_utc_text(text: &str, pattern: &str) -> (r: Option<String>)
    requires
        pattern@ == log_date_pattern(),
    ensures
        match r {
            Some(s) => rfc3339_in_utc(text@, pattern@) == Some(s@),
            None => rfc3339_in_utc(text@, pattern@) is None,
        },
{
    match chrono::DateTime::parse_from_rfc3339(text) {
        Ok(dt) => Some(dt.with_timezone(&chrono::Utc).format(pattern).to_string()),
        Err(_) => None,
    }
}

/// The date line shows the UTC date when the stored text is RFC 3339, and
/// the stored text unchanged otherwise.
pub open spec fn date_display(created_at: Seq<char>, utc: Option<Seq<char>>) -> Seq<char> {
    match utc {
        Some(d) => d,
        None => created_at,
    }
}

/// The three lines that show one commit, given its date as displayed.
pub open spec fn entry_lines(r: RecordView, date: Seq<char>) -> Seq<Seq<char>> {
    seq![
        "\x1b[33mcommit "@ + r.0 + "\x1b[0m"@,
        "Date:    "@ + date,
        "\n    "@ + r.1 + "\n"@,
    ]
}

/// The lines of all the given commits, in order.
pub open spec fn history_lines(records: Seq<RecordView>) -> Seq<Seq<char>>
    decreases records.len(),
{
    if records.len() == 0 {
        Seq::empty()
    } else {
        let r = records.last();
        history_lines(records.drop_last()) + entry_lines(
            r,
            date_display(r.2, rfc3339_in_utc(r.2, log_date_pattern())),
        )
    }
}

/// Everything `mox log` prints for these commits (given newest first).
pub open spec fn log_lines(records: Seq<RecordView>) -> Seq<Seq<char>> {
    seq!["--- Commit History ---"@] + history_lines(records) + (if records.len() == 0 {
        seq!["No commits found. Use 'mox commit' to create one."@]
    } else {
        Seq::empty()
    })
}

fn joined(a: &str, b: &str, c: &str) -> (r: String)
    ensures
        r@ == a@ + b@ + c@,
{
    let mut r = String::from_str(a);
    r.append(b);
    r.append(c);
    r
}

/// The lines that show one commit, given what converting its timestamp to
/// UTC gave (`None` when the stored text is not RFC 3339).
pub fn log_entry(record: &CommitRecord, utc_date: Option<String>) -> (lines: Vec<String>)
    ensures
        lines@.map_values(|s: String| s@) == entry_lines(
            record@,
            date_display(
                record@.2,
                match utc_date {
                    Some(d) => Some(d@),
                    None => None,
                },
            ),
        ),
{
    let mut lines: Vec<String> = Vec::new();
    lines.push(joined("\x1b[33mcommit ", record.hash.as_str(), "\x1b[0m"));
    let date = match utc_date {
        Some(d) => d,
        None => record.created_at.clone(),
    };
    lines.push(joined("Date:    ", date.as_str(), ""));
    lines.push(joined("\n    ", record.message.as_str(), "\n"));
    proof {
        assert(""@ =~= Seq::<char>::empty()) by {
            reveal_strlit("");
        }
    }
    assert(lines@.map_values(|s: String| s@) =~= entry_lines(
        record@,
        date_display(
            record@.2,
            match utc_date {
                Some(d) => Some(d@),
                None => None,
            },
        ),
    ));
    lines
}

/// The lines of the commit history (`records`, newest first): a header,
/// then each commit with its hash, its date in UTC and its message, or a
/// hint when there is none.
pub fn show_log(records: &Vec<CommitRecord>) -> (lines: Vec<String>)
    ensures
        lines@.map_values(|s: String| s@) == log_lines(records_view(records@)),
{
    let ghost rv = records_view(records@);
    let mut lines: Vec<String> = Vec::new();
    lines.push(String::from_str("--- Commit History ---"));
    let pattern = "%Y-%m-%d %H:%M:%S";
    assert(rv.take(0) =~= Seq::<RecordView>::empty());
    assert(lines@.map_values(|s: String| s@) =~= seq!["--- Commit History ---"@] + history_lines(
        rv.take(0),
    ));
    for i in 0..records.len()
        invariant
            rv == records_view(records@),
            pattern@ == log_date_pattern(),
            lines@.map_values(|s: String| s@) == seq!["--- Commit History ---"@] + history_lines(
                rv.take(i as int),
            ),
    {
        let record = &records[i];
        let utc = rfc3339_to_utc_text(record.created_at.as_str(), pattern);
        let entry = log_entry(record, utc);
        let ghost before = lines@.map_values(|s: String| s@);
        let mut k: usize = 0;
        while k < entry.len()
            invariant
                k <= entry@.len(),
                lines@.map_values(|s: String| s@) == before + entry@.take(k as int).map_values(
                    |s: String| s@,
                ),
            decreases entry@.len() - k,
        {
            let ghost old_lines = lines@.map_values(|s: String| s@);
            let item = entry[k].clone();
            lines.push(item);
            assert(lines@.map_values(|s: String| s@) =~= old_lines.push(entry@[k as int]@));
            assert(entry@.take(k + 1).map_values(|s: String| s@) =~= entry@.take(
                k as int,
            ).map_values(|s: String| s@).push(entry@[k as int]@));
            assert(lines@.map_values(|s: String| s@) =~= before + entry@.take(k + 1).map_values(
                |s: String| s@,
            ));
            k = k + 1;
        }
        proof {
            assert(entry@.take(entry@.len() as int) =~= entry@);
            assert(rv.take(i + 1).drop_last() =~= rv.take(i as int));
            assert(rv.take(i + 1).last() == record@);
        }
        assert(lines@.map_values(|s: String| s@) =~= seq!["--- Commit History ---"@]
            + history_lines(rv.take(i + 1)));
    }
    assert(rv.take(records.len() as int) =~= rv);
    if records.len() == 0 {
        lines.push(String::from_str("No commits found. Use 'mox commit' to create one."));
    }
    assert(lines@.map_values(|s: String| s@) =~= log_lines(rv));
    lines
}

proof fn lemma_history_shape(records: Seq<RecordView>)
    ensures
        history_lines(records).len() == 3 * records.len(),
        forall|k: int|
            0 <= k < history_lines(records).len() ==> {
                let c = (#[trigger] history_lines(records)[k])[0];
                c == '\x1b' || c == 'D' || c == '\n'
            },
    decreases records.len(),
{
    reveal_strlit("\x1b[33mcommit ");
    reveal_strlit("Date:    ");
    reveal_strlit("\n    ");
    if records.len() > 0 {
        let d = records.drop_last();
        lemma_history_shape(d);
        let r = records.last();
        let e = entry_lines(r, date_display(r.2, rfc3339_in_utc(r.2, log_date_pattern())));
        let h = history_lines(records);
        let hd = history_lines(d);
        assert forall|k: int| 0 <= k < h.len() implies {
            let c = (#[trigger] h[k])[0];
            c == '\x1b' || c == 'D' || c == '\n'
        } by {
            if k < hd.len() {
                assert(h[k] == hd[k]);
            } else {
                let m = k - hd.len();
                assert(h[k] == e[m]);
                if m == 0 {
                    assert(e[0][0] == "\x1b[33mcommit "@[0]);
                } else if m == 1 {
                    assert(e[1][0] == "Date:    "@[0]);
                } else {
                    assert(e[2][0] == "\n    "@[0]);
                }
            }
        }
    }
}

/// The history shows three lines per commit after its header, and the
/// no-commits hint appears exactly when there are no commits.
pub proof fn lemma_hint_only_without_commits(records: Seq<RecordView>)
    ensures
        records.len() == 0 ==> log_lines(records) == seq![
            "--- Commit History ---"@,
            "No commits found. Use 'mox commit' to create one."@,
        ],
        records.len() > 0 ==> log_lines(records).len() == 1 + 3 * records.len(),
        records.len() > 0 ==> !log_lines(records).contains(
            "No commits found. Use 'mox commit' to create one."@,
        ),
        log_lines(records)[0] == "--- Commit History ---"@,
{
    lemma_history_shape(records);
    reveal_strlit("No commits found. Use 'mox commit' to create one.");
    reveal_strlit("--- Commit History ---");
    let hint = "No commits found. Use 'mox commit' to create one."@;
    let lines = log_lines(records);
    if records.len() == 0 {
        assert(history_lines(records) =~= Seq::<Seq<char>>::empty());
        assert(lines =~= seq!["--- Commit History ---"@, hint]);
    } else {
        let h = history_lines(records);
        assert(lines =~= seq!["--- Commit History ---"@] + h);
        if lines.contains(hint) {
            let k = choose|k: int| 0 <= k < lines.len() && lines[k] == hint;
            if k == 0 {
                assert(lines[0][0] == '-');
                assert(hint[0] == 'N');
            } else {
                assert(lines[k] == h[k - 1]);
                assert(hint[0] == 'N');
                let c = h[k - 1][0];
                assert(c == '\x1b' || c == 'D' || c == '\n');
            }
        }
    }
}

} // verus!
