//! The `.moxignore` rules: which paths `mox add` leaves out.

use vstd::prelude::*;
use vstd::string::*;
use vstd::utf8::encode_utf8;
use crate::text::{occurs_at, chars_of, contains_bytes, ends_with_bytes, split_newlines, trim, trim_bounds, bytes_contain, bytes_end_with};

verus! {

/// The patterns every repository ignores, whatever `.moxignore` says:
/// the internal `.mox` folder, the tool itself and the Sims 4 thumbnail cache.
pub open spec fn default_patterns() -> Seq<Seq<char>> {
    seq![
        seq!['.', 'm', 'o', 'x'],
        seq!['m', 'o', 'x', '.', 'e', 'x', 'e'],
        seq![
            'l', 'o', 'c', 'a', 'l', 't', 'h', 'u', 'm', 'b', 'c', 'a', 'c', 'h', 'e', '.', 'p',
            'a', 'c', 'k', 'a', 'g', 'e',
        ],
    ]
}

/// A trimmed line of `.moxignore` becomes a pattern when it is neither
/// blank nor a `#` comment.
pub open spec fn is_pattern_line(trimmed: Seq<char>) -> bool {
    trimmed.len() > 0 && trimmed[0] != '#'
}

/// The patterns that the given lines contribute, in file order.
pub open spec fn patterns_from_lines(lines: Seq<Seq<char>>) -> Seq<Seq<char>>
    decreases lines.len(),
{
    if lines.len() == 0 {
        Seq::empty()
    } else {
        let before = patterns_from_lines(lines.drop_last());
        let t = trim(lines.last());
        if is_pattern_line(t) {
            before.push(t)
        } else {
            before
        }
    }
}

/// All patterns in force, given the text of `.moxignore` (`None` when the
/// file does not exist or cannot be read).
pub open spec fn ignore_patterns(file: Option<Seq<char>>) -> Seq<Seq<char>> {
    match file {
        Some(content) => default_patterns() + patterns_from_lines(split_newlines(content)),
        None => default_patterns(),
    }
}

/// `path` is matched by `pattern`: the pattern occurs in it, or ends it.
pub open spec fn pattern_matches(path: Seq<char>, pattern: Seq<char>) -> bool {
    contains_bytes(encode_utf8(path), encode_utf8(pattern)) || ends_with_bytes(
        encode_utf8(path),
        encode_utf8(pattern),
    )
}

/// `path` is matched by some pattern of `patterns`.
pub open spec fn ignored_by(patterns: Seq<Seq<char>>, path: Seq<char>) -> bool {
    exists|k: int| 0 <= k < patterns.len() && pattern_matches(path, #[trigger] patterns[k])
}

/// The ignore rules of a repository.
pub struct MoxIgnore {
    patterns: Vec<String>,
}

impl View for MoxIgnore {
    type V = Seq<Seq<char>>;

    closed spec fn view(&self) -> Seq<Seq<char>> {
        self.patterns@.map_values(|p: String| p@)
    }
}

proof fn lemma_split_step(c: Seq<char>, i: int, done: Seq<Seq<char>>, start: int)
    requires
        0 <= start <= i < c.len(),
        split_newlines(c.take(i)) == done.push(c.subrange(start, i)),
    ensures
        c[i] == '\n' ==> split_newlines(c.take(i + 1)) == done.push(c.subrange(start, i)).push(
            Seq::<char>::empty(),
        ),
        c[i] != '\n' ==> split_newlines(c.take(i + 1)) == done.push(c.subrange(start, i + 1)),
{
    let t = c.take(i + 1);
    assert(t.drop_last() =~= c.take(i));
    assert(t.last() == c[i]);
    if c[i] != '\n' {
        let before = split_newlines(c.take(i));
        assert(before.update(before.len() - 1, before.last().push(c[i])) =~= done.push(
            c.subrange(start, i + 1),
        )) by {
            assert(c.subrange(start, i).push(c[i]) =~= c.subrange(start, i + 1));
        }
    }
}

impl MoxIgnore {
    /// Builds the rules from the text of `.moxignore` (`None` when there is
    /// no such file): the default patterns, then every line that, trimmed
    /// of whitespace, is neither empty nor starts with `#`.
    pub fn load(ignore_file: Option<&str>) -> (r: MoxIgnore)
        ensures
            r@ == ignore_patterns(
                match ignore_file {
                    Some(s) => Some(s@),
                    None => None,
                },
            ),
    {
        let mut patterns: Vec<String> = Vec::new();
        let s1 = ".mox";
        let s2 = "mox.exe";
        let s3 = "localthumbcache.package";
        proof {
            reveal_strlit(".mox");
            reveal_strlit("mox.exe");
            reveal_strlit("localthumbcache.package");
        }
        patterns.push(String::from_str(s1));
        patterns.push(String::from_str(s2));
        patterns.push(String::from_str(s3));
        assert(s1@ =~= default_patterns()[0]);
        assert(s2@ =~= default_patterns()[1]);
        assert(s3@ =~= default_patterns()[2]);
        assert(patterns@.map_values(|p: String| p@) =~= default_patterns());
        match ignore_file {
            None => MoxIgnore { patterns },
            Some(content) => {
                let cs = chars_of(content);
                let n = cs.len();
                let ghost c = cs@;
                let ghost mut done: Seq<Seq<char>> = Seq::empty();
                let mut start: usize = 0;
                let mut i: usize = 0;
                assert(c.take(0) =~= Seq::<char>::empty());
                assert(split_newlines(c.take(0)) =~= done.push(c.subrange(0, 0)));
                while i < n
                    invariant
                        c == cs@,
                        c == content@,
                        n == c.len(),
                        start <= i <= n,
                        split_newlines(c.take(i as int)) == done.push(
                            c.subrange(start as int, i as int),
                        ),
                        patterns@.map_values(|p: String| p@) == default_patterns()
                            + patterns_from_lines(done),
                    decreases n - i,
                {
                    proof {
                        lemma_split_step(c, i as int, done, start as int);
                    }
                    if cs[i] == '\n' {
                        let (a, b) = trim_bounds(&cs, start, i);
                        let ghost piece = c.subrange(start as int, i as int);
                        let ghost t = trim(piece);
                        let ghost old_pats = patterns@.map_values(|p: String| p@);
                        assert(done.push(piece).drop_last() =~= done);
                        if a < b && cs[a] != '#' {
                            patterns.push(String::from_str(content.substring_char(a, b)));
                            assert(patterns@.map_values(|p: String| p@) =~= old_pats.push(t));
                        }
                        proof {
                            done = done.push(piece);
                        }
                        start = i + 1;
                        assert(c.subrange(start as int, i + 1) =~= Seq::<char>::empty());
                    }
                    i = i + 1;
                }
                let (a, b) = trim_bounds(&cs, start, n);
                let ghost piece = c.subrange(start as int, n as int);
                let ghost old_pats = patterns@.map_values(|p: String| p@);
                assert(c.take(n as int) =~= c);
                assert(done.push(piece).drop_last() =~= done);
                if a < b && cs[a] != '#' {
                    patterns.push(String::from_str(content.substring_char(a, b)));
                    assert(patterns@.map_values(|p: String| p@) =~= old_pats.push(trim(piece)));
                }
                assert(patterns@.map_values(|p: String| p@) =~= default_patterns()
                    + patterns_from_lines(done.push(piece)));
                MoxIgnore { patterns }
            },
        }
    }

    /// Whether `path` (as text; a path that is not valid UTF-8 is passed as
    /// the empty string) is ignored: some pattern occurs in it or ends it.
    pub fn is_ignored(&self, path: &str) -> (b: bool)
        ensures
            b == ignored_by(self@, path@),
    {
        let text = path.as_bytes();
        let mut k: usize = 0;
        while k < self.patterns.len()
            invariant
                k <= self.patterns@.len(),
                text@ == encode_utf8(path@),
                forall|j: int|
                    0 <= j < k ==> !pattern_matches(path@, #[trigger] self@[j]),
            decreases self.patterns@.len() - k,
        {
            let pat = self.patterns[k].as_str().as_bytes();
            assert(self@[k as int] == self.patterns@[k as int]@);
            if bytes_contain(text, pat) || bytes_end_with(text, pat) {
                assert(pattern_matches(path@, self@[k as int]));
                return true;
            }
            k = k + 1;
        }
        false
    }
}

/// The repository's own folder is always ignored: any path in which
/// `.mox` occurs is ignored, whatever `.moxignore` holds.
pub proof fn lemma_internal_folder_always_ignored(file: Option<Seq<char>>, path: Seq<char>)
    requires
        contains_bytes(encode_utf8(path), encode_utf8(seq!['.', 'm', 'o', 'x'])),
    ensures
        ignored_by(ignore_patterns(file), path),
{
    let pats = ignore_patterns(file);
    assert(pats[0] == default_patterns()[0]);
    assert(pattern_matches(path, pats[0]));
}

/// Every pattern read from `.moxignore` is a trimmed line of the file that
/// is neither blank nor a comment; the defaults always come first.
pub proof fn lemma_file_patterns_are_kept_lines(lines: Seq<Seq<char>>)
    ensures
        forall|k: int|
            0 <= k < patterns_from_lines(lines).len() ==> {
                &&& (#[trigger] patterns_from_lines(lines)[k]).len() > 0
                &&& patterns_from_lines(lines)[k][0] != '#'
                &&& exists|j: int|
                    0 <= j < lines.len() && patterns_from_lines(lines)[k] == trim(
                        #[trigger] lines[j],
                    )
            },
    decreases lines.len(),
{
    if lines.len() > 0 {
        let d = lines.drop_last();
        lemma_file_patterns_are_kept_lines(d);
        let before = patterns_from_lines(d);
        let pats = patterns_from_lines(lines);
        assert forall|k: int| 0 <= k < pats.len() implies {
            &&& (#[trigger] pats[k]).len() > 0
            &&& pats[k][0] != '#'
            &&& exists|j: int| 0 <= j < lines.len() && pats[k] == trim(#[trigger] lines[j])
        } by {
            if k < before.len() {
                assert(pats[k] == before[k]);
                let j = choose|j: int| 0 <= j < d.len() && before[k] == trim(#[trigger] d[j]);
                assert(lines[j] == d[j]);
            } else {
                assert(pats[k] == trim(lines[lines.len() - 1]));
            }
        }
    }
}

/// The rules in force always begin with the defaults.
pub proof fn lemma_defaults_always_in_force(file: Option<Seq<char>>)
    ensures
        ignore_patterns(file).take(3) == default_patterns(),
{
    assert(ignore_patterns(file).take(3) =~= default_patterns());
}

proof fn lemma_split_nonempty(s: Seq<char>)
    ensures
        split_newlines(s).len() >= 1,
    decreases s.len(),
{
    if s.len() > 0 {
        lemma_split_nonempty(s.drop_last());
    }
}

/// Splitting text made of two parts joined by a newline gives the pieces of
/// the first part, then those of the second.
pub proof fn lemma_split_joined(s: Seq<char>, t: Seq<char>)
    ensures
        split_newlines(s + seq!['\n'] + t) == split_newlines(s) + split_newlines(t),
    decreases t.len(),
{
    let whole = s + seq!['\n'] + t;
    if t.len() == 0 {
        assert(whole.drop_last() =~= s);
        assert(split_newlines(s).push(Seq::<char>::empty()) =~= split_newlines(s) + split_newlines(
            t,
        ));
    } else {
        assert(whole.drop_last() =~= s + seq!['\n'] + t.drop_last());
        assert(whole.last() == t.last());
        lemma_split_joined(s, t.drop_last());
        lemma_split_nonempty(t.drop_last());
        let a = split_newlines(s);
        let b = split_newlines(t.drop_last());
        if t.last() == '\n' {
            assert((a + b).push(Seq::<char>::empty()) =~= a + b.push(Seq::<char>::empty()));
        } else {
            let ab = a + b;
            assert(ab.update(ab.len() - 1, ab.last().push(t.last())) =~= a + b.update(
                b.len() - 1,
                b.last().push(t.last()),
            ));
        }
    }
}

proof fn lemma_patterns_of_joined_lines(a: Seq<Seq<char>>, b: Seq<Seq<char>>)
    ensures
        patterns_from_lines(a + b) == patterns_from_lines(a) + patterns_from_lines(b),
    decreases b.len(),
{
    if b.len() == 0 {
        assert(a + b =~= a);
        assert(patterns_from_lines(a) + patterns_from_lines(b) =~= patterns_from_lines(a));
    } else {
        assert((a + b).drop_last() =~= a + b.drop_last());
        assert((a + b).last() == b.last());
        lemma_patterns_of_joined_lines(a, b.drop_last());
        let pa = patterns_from_lines(a);
        let pb = patterns_from_lines(b.drop_last());
        let t = trim(b.last());
        if is_pattern_line(t) {
            assert((pa + pb).push(t) =~= pa + pb.push(t));
        }
    }
}

proof fn lemma_more_patterns_never_unignore(
    pats: Seq<Seq<char>>,
    more: Seq<Seq<char>>,
    path: Seq<char>,
)
    requires
        ignored_by(pats, path),
    ensures
        ignored_by(pats + more, path),
{
    let k = choose|k: int| 0 <= k < pats.len() && pattern_matches(path, #[trigger] pats[k]);
    assert((pats + more)[k] == pats[k]);
}

/// Having a `.moxignore` file never un-ignores a path the defaults ignore.
pub proof fn lemma_ignore_file_never_unignores(content: Seq<char>, path: Seq<char>)
    requires
        ignored_by(ignore_patterns(None), path),
    ensures
        ignored_by(ignore_patterns(Some(content)), path),
{
    lemma_more_patterns_never_unignore(
        default_patterns(),
        patterns_from_lines(split_newlines(content)),
        path,
    );
}

/// Adding lines to the end of `.moxignore` never un-ignores a path.
pub proof fn lemma_added_lines_never_unignore(first: Seq<char>, added: Seq<char>, path: Seq<char>)
    requires
        ignored_by(ignore_patterns(Some(first)), path),
    ensures
        ignored_by(ignore_patterns(Some(first + seq!['\n'] + added)), path),
{
    lemma_split_joined(first, added);
    let a = split_newlines(first);
    let b = split_newlines(added);
    lemma_patterns_of_joined_lines(a, b);
    let pa = patterns_from_lines(a);
    let pb = patterns_from_lines(b);
    lemma_more_patterns_never_unignore(default_patterns() + pa, pb, path);
    assert(default_patterns() + pa + pb =~= default_patterns() + patterns_from_lines(a + b));
}

proof fn lemma_encode_joined(a: Seq<char>, b: Seq<char>)
    ensures
        encode_utf8(a + b) == encode_utf8(a) + encode_utf8(b),
    decreases a.len(),
{
    if a.len() == 0 {
        assert(a + b =~= b);
        assert(encode_utf8(a) =~= Seq::<u8>::empty());
        assert(encode_utf8(a) + encode_utf8(b) =~= encode_utf8(b));
    } else {
        assert((a + b).drop_first() =~= a.drop_first() + b);
        assert((a + b)[0] == a[0]);
        lemma_encode_joined(a.drop_first(), b);
        assert(encode_utf8(a + b) =~= encode_utf8(a) + encode_utf8(b));
    }
}

/// Everything below an ignored path is ignored: a path that extends an
/// ignored one (such as the ignored path joined with more components) is
/// ignored too.
pub proof fn lemma_extension_stays_ignored(pats: Seq<Seq<char>>, path: Seq<char>, rest: Seq<char>)
    requires
        ignored_by(pats, path),
    ensures
        ignored_by(pats, path + rest),
{
    let k = choose|k: int| 0 <= k < pats.len() && pattern_matches(path, #[trigger] pats[k]);
    let text = encode_utf8(path);
    let pat = encode_utf8(pats[k]);
    let i = if contains_bytes(text, pat) {
        choose|i: int| occurs_at(text, pat, i)
    } else {
        text.len() - pat.len()
    };
    assert(occurs_at(text, pat, i));
    lemma_encode_joined(path, rest);
    let longer = encode_utf8(path + rest);
    assert(longer.subrange(i, i + pat.len()) =~= text.subrange(i, i + pat.len()));
    assert(occurs_at(longer, pat, i));
    assert(pattern_matches(path + rest, pats[k]));
}

proof fn lemma_kept_line_among_patterns(lines: Seq<Seq<char>>, j: int)
    requires
        0 <= j < lines.len(),
        trim(lines[j]).len() > 0,
        trim(lines[j])[0] != '#',
    ensures
        patterns_from_lines(lines).contains(trim(lines[j])),
    decreases lines.len(),
{
    let d = lines.drop_last();
    let pats = patterns_from_lines(lines);
    if j == lines.len() - 1 {
        assert(pats[pats.len() - 1] == trim(lines[j]));
    } else {
        assert(d[j] == lines[j]);
        lemma_kept_line_among_patterns(d, j);
        let before = patterns_from_lines(d);
        let w = choose|w: int| 0 <= w < before.len() && before[w] == trim(lines[j]);
        assert(pats[w] == before[w]);
    }
}

/// Every line of `.moxignore` whose trimmed text is not empty and does not
/// begin with `#` is a pattern in force, whatever else the text holds.
pub proof fn lemma_every_kept_line_is_a_pattern(content: Seq<char>, j: int)
    requires
        0 <= j < split_newlines(content).len(),
        trim(split_newlines(content)[j]).len() > 0,
        trim(split_newlines(content)[j])[0] != '#',
    ensures
        ignore_patterns(Some(content)).contains(trim(split_newlines(content)[j])),
{
    let lines = split_newlines(content);
    lemma_kept_line_among_patterns(lines, j);
    let user = patterns_from_lines(lines);
    let w = choose|w: int| 0 <= w < user.len() && user[w] == trim(lines[j]);
    assert(ignore_patterns(Some(content))[3 + w] == user[w]);
}

/// A path in which the trimmed text of such a line occurs is ignored.
pub proof fn lemma_path_matching_a_kept_line_is_ignored(content: Seq<char>, j: int, path: Seq<char>)
    requires
        0 <= j < split_newlines(content).len(),
        trim(split_newlines(content)[j]).len() > 0,
        trim(split_newlines(content)[j])[0] != '#',
        contains_bytes(encode_utf8(path), encode_utf8(trim(split_newlines(content)[j]))),
    ensures
        ignored_by(ignore_patterns(Some(content)), path),
{
    let pats = ignore_patterns(Some(content));
    let t = trim(split_newlines(content)[j]);
    lemma_every_kept_line_is_a_pattern(content, j);
    let k = choose|k: int| 0 <= k < pats.len() && pats[k] == t;
    assert(pattern_matches(path, pats[k]));
}

} // verus!
