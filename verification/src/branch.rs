//! Profiles (branches): which one is active, and how the list is shown.

use vstd::prelude::*;
use vstd::string::*;
use vstd::utf8::{encode_utf8, decode_utf8, is_char_boundary, is_ascii_chars,
    is_ascii_chars_encode_utf8, encode_utf8_decode_utf8};
use crate::text::{trim, trimmed, is_space};

verus! {

/// The branch a repository starts on, and the one in force when `HEAD` is
/// missing.
pub open spec fn default_branch() -> Seq<char> {
    seq!['m', 'a', 'i', 'n']
}

/// The active branch, given the text of `.mox/HEAD` (`None` when the file
/// does not exist): that text without surrounding whitespace.
pub open spec fn current_branch(head_file: Option<Seq<char>>) -> Seq<char> {
    match head_file {
        Some(content) => trim(content),
        None => default_branch(),
    }
}

/// Reads the active branch from the text of `.mox/HEAD`, falling back to
/// `main` when there is no such file.
pub fn get_current_branch(head_file: Option<&str>) -> (name: String)
    ensures
        name@ == current_branch(
            match head_file {
                Some(s) => Some(s@),
                None => None,
            },
        ),
{
    match head_file {
        Some(content) => trimmed(content),
        None => {
            let m = "main";
            proof {
                reveal_strlit("main");
            }
            assert(m@ =~= default_branch());
            String::from_str(m)
        },
    }
}

/// A name with no whitespace at either end is left as it is by trimming.
pub proof fn lemma_trim_of_clean_name(name: Seq<char>)
    requires
        name.len() > 0 ==> !is_space(name[0]) && !is_space(name.last()),
    ensures
        trim(name) == name,
{
}

/// Writing a branch name to `HEAD` and reading it back gives the name, for
/// every name without whitespace at either end.
pub proof fn lemma_head_roundtrip(name: Seq<char>)
    requires
        name.len() > 0 ==> !is_space(name[0]) && !is_space(name.last()),
    ensures
        current_branch(Some(name)) == name,
{
    lemma_trim_of_clean_name(name);
}

/// A row of the `branches` table.
pub struct BranchRow {
    pub name: String,
    pub last_commit_hash: Option<String>,
}

/// The value of a branch row: its name and the hash of its last commit.
pub type BranchView = (Seq<char>, Option<Seq<char>>);

impl View for BranchRow {
    type V = BranchView;

    open spec fn view(&self) -> BranchView {
        (
            self.name@,
            match self.last_commit_hash {
                Some(h) => Some(h@),
                None => None,
            },
        )
    }
}

/// The values of a sequence of rows.
pub open spec fn rows_view(v: Seq<BranchRow>) -> Seq<BranchView> {
    v.map_values(|r: BranchRow| r@)
}

/// The first seven bytes of `text` when it is longer than that (the slice
/// `&text[..7]`), else `text`.
pub open spec fn first_seven(text: Seq<char>) -> Seq<char> {
    if encode_utf8(text).len() > 7 {
        decode_utf8(encode_utf8(text).take(7))
    } else {
        text
    }
}

/// `&text[..7]` does not split a character.
pub open spec fn sliceable_at_seven(text: Seq<char>) -> bool {
    encode_utf8(text).len() > 7 ==> is_char_boundary(encode_utf8(text), 7)
}

/// What a branch's commit is shown as: the first seven bytes of its hash,
/// or of the words "no commits".
pub open spec fn short_commit_display(hash: Option<Seq<char>>) -> Seq<char> {
    match hash {
        Some(h) => first_seven(h),
        None => first_seven("no commits"@),
    }
}

/// The line listing a branch: the active one starred and in green.
pub open spec fn branch_line(row: BranchView, current: Seq<char>) -> Seq<char> {
    if row.0 == current {
        "* \x1b[32m"@ + row.0 + " ("@ + short_commit_display(row.1) + ")\x1b[0m"@
    } else {
        "  "@ + row.0 + " ("@ + short_commit_display(row.1) + ")"@
    }
}

/// The header of the branch list.
pub open spec fn branch_list_header() -> Seq<char> {
    "\x1b[1m--- Profiles ---\x1b[0m"@
}

/// `&text[..7]` when `text` is longer than seven bytes, else `text`.
pub fn first_seven_of(text: &str) -> (r: String)
    requires
        sliceable_at_seven(text@),
    ensures
        r@ == first_seven(text@),
{
    if text.as_bytes().len() > 7 {
        let (head, _tail) = text.split_at(7);
        proof {
            encode_utf8_decode_utf8(head@);
            assert(head.spec_bytes() =~= encode_utf8(text@).take(7));
        }
        String::from_str(head)
    } else {
        String::from_str(text)
    }
}

fn short_commit_of(hash: &Option<String>) -> (r: String)
    requires
        match hash {
            Some(h) => sliceable_at_seven(h@),
            None => true,
        },
    ensures
        r@ == short_commit_display(
            match hash {
                Some(h) => Some(h@),
                None => None,
            },
        ),
{
    match hash {
        Some(h) => first_seven_of(h.as_str()),
        None => {
            let full = "no commits";
            let short = "no comm";
            proof {
                reveal_strlit("no commits");
                reveal_strlit("no comm");
                assert(is_ascii_chars(full@));
                assert(is_ascii_chars(short@));
                is_ascii_chars_encode_utf8(full@);
                is_ascii_chars_encode_utf8(short@);
                assert(encode_utf8(full@).take(7) =~= encode_utf8(short@));
                encode_utf8_decode_utf8(short@);
            }
            String::from_str(short)
        },
    }
}

/// Lists the branches (in the order given) for display, the active one
/// (`current`) marked: the header line, then one line per branch.
pub fn list_branches(current: &str, rows: &Vec<BranchRow>) -> (lines: Vec<String>)
    requires
        forall|i: int|
            0 <= i < rows@.len() ==> match (#[trigger] rows@[i]).last_commit_hash {
                Some(h) => sliceable_at_seven(h@),
                None => true,
            },
    ensures
        lines@.len() == rows@.len() + 1,
        lines@[0]@ == branch_list_header(),
        forall|i: int|
            0 <= i < rows@.len() ==> (#[trigger] lines@[i + 1])@ == branch_line(
                rows@[i]@,
                current@,
            ),
{
    let mut lines: Vec<String> = Vec::new();
    let current_name = String::from_str(current);
    lines.push(String::from_str("\x1b[1m--- Profiles ---\x1b[0m"));
    for i in 0..rows.len()
        invariant
            current_name@ == current@,
            lines@.len() == i + 1,
            lines@[0]@ == branch_list_header(),
            forall|k: int|
                0 <= k < rows@.len() ==> match (#[trigger] rows@[k]).last_commit_hash {
                    Some(h) => sliceable_at_seven(h@),
                    None => true,
                },
            forall|k: int|
                0 <= k < i ==> (#[trigger] lines@[k + 1])@ == branch_line(rows@[k]@, current@),
    {
        let row = &rows[i];
        let short = short_commit_of(&row.last_commit_hash);
        let mut line: String;
        if row.name == current_name {
            line = String::from_str("* \x1b[32m");
            line.append(row.name.as_str());
            line.append(" (");
            line.append(short.as_str());
            line.append(")\x1b[0m");
        } else {
            line = String::from_str("  ");
            line.append(row.name.as_str());
            line.append(" (");
            line.append(short.as_str());
            line.append(")");
        }
        lines.push(line);
    }
    lines
}

/// A branch's line is starred exactly when its name equals the active
/// branch's name: it then begins with `* `, and otherwise with two spaces.
pub proof fn lemma_only_active_branch_starred(row: BranchView, current: Seq<char>)
    ensures
        branch_line(row, current).len() >= 2,
        (branch_line(row, current)[0] == '*') <==> (row.0 == current),
        row.0 == current ==> branch_line(row, current)[1] == ' ',
        row.0 != current ==> branch_line(row, current).take(2) == seq![' ', ' '],
{
    reveal_strlit("* \x1b[32m");
    reveal_strlit("  ");
    let line = branch_line(row, current);
    if row.0 == current {
        let p = "* \x1b[32m"@;
        assert(line[0] == p[0] && line[1] == p[1]);
    } else {
        let p = "  "@;
        assert(line[0] == p[0] && line[1] == p[1]);
        assert(line.take(2) =~= seq![' ', ' ']);
    }
}

/// When branch names are all different, at most one line of the list is
/// starred.
pub proof fn lemma_at_most_one_active_branch(rows: Seq<BranchView>, current: Seq<char>, i: int, j: int)
    requires
        0 <= i < rows.len(),
        0 <= j < rows.len(),
        i != j,
        rows[i].0 != rows[j].0,
    ensures
        !(branch_line(rows[i], current)[0] == '*' && branch_line(rows[j], current)[0] == '*'),
{
    lemma_only_active_branch_starred(rows[i], current);
    lemma_only_active_branch_starred(rows[j], current);
}

} // verus!
