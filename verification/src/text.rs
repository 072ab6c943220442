//! Character- and byte-level string operations used by the rest of the
//! library, each with the specification that the standard library's
//! documentation gives for the corresponding `str` method.

use vstd::prelude::*;
use vstd::string::*;

verus! {

/// Unicode `White_Space` property, which is what `char::is_whitespace` tests.
pub open spec fn is_space(c: char) -> bool {
    let v = c as u32;
    ||| (0x09 <= v && v <= 0x0D)
    ||| v == 0x20
    ||| v == 0x85
    ||| v == 0xA0
    ||| v == 0x1680
    ||| (0x2000 <= v && v <= 0x200A)
    ||| v == 0x2028
    ||| v == 0x2029
    ||| v == 0x202F
    ||| v == 0x205F
    ||| v == 0x3000
}

/// `s` without its leading whitespace (`str::trim_start`).
pub open spec fn trim_start(s: Seq<char>) -> Seq<char>
    decreases s.len(),
{
    if s.len() > 0 && is_space(s[0]) {
        trim_start(s.drop_first())
    } else {
        s
    }
}

/// `s` without its trailing whitespace (`str::trim_end`).
pub open spec fn trim_end(s: Seq<char>) -> Seq<char>
    decreases s.len(),
{
    if s.len() > 0 && is_space(s.last()) {
        trim_end(s.drop_last())
    } else {
        s
    }
}

/// `s` without leading and trailing whitespace (`str::trim`).
pub open spec fn trim(s: Seq<char>) -> Seq<char> {
    trim_end(trim_start(s))
}

/// The pieces of `s` between `'\n'` separators, in order (`str::split('\n')`).
pub open spec fn split_newlines(s: Seq<char>) -> Seq<Seq<char>>
    decreases s.len(),
{
    if s.len() == 0 {
        seq![Seq::<char>::empty()]
    } else {
        let before = split_newlines(s.drop_last());
        if s.last() == '\n' {
            before.push(Seq::<char>::empty())
        } else {
            before.update(before.len() - 1, before.last().push(s.last()))
        }
    }
}

/// `pat` occurs in `text` at byte offset `i`.
pub open spec fn occurs_at(text: Seq<u8>, pat: Seq<u8>, i: int) -> bool {
    0 <= i && i + pat.len() <= text.len() && text.subrange(i, i + pat.len()) == pat
}

/// `text` contains `pat` as a contiguous run of bytes (`str::contains`).
pub open spec fn contains_bytes(text: Seq<u8>, pat: Seq<u8>) -> bool {
    exists|i: int| occurs_at(text, pat, i)
}

/// `text` begins with `pat` (`str::starts_with`).
pub open spec fn starts_with_bytes(text: Seq<u8>, pat: Seq<u8>) -> bool {
    occurs_at(text, pat, 0)
}

/// `text` ends with `pat` (`str::ends_with`).
pub open spec fn ends_with_bytes(text: Seq<u8>, pat: Seq<u8>) -> bool {
    occurs_at(text, pat, text.len() - pat.len())
}

/// Byte-wise lexicographic `<=`, the order of `str`'s `Ord`.
pub open spec fn lex_le(a: Seq<u8>, b: Seq<u8>) -> bool
    decreases a.len(),
{
    if a.len() == 0 {
        true
    } else if b.len() == 0 {
        false
    } else if a[0] < b[0] {
        true
    } else if a[0] > b[0] {
        false
    } else {
        lex_le(a.drop_first(), b.drop_first())
    }
}

pub proof fn lemma_lex_le_total(a: Seq<u8>, b: Seq<u8>)
    ensures
        lex_le(a, b) || lex_le(b, a),
    decreases a.len(),
{
    if a.len() > 0 && b.len() > 0 && a[0] == b[0] {
        lemma_lex_le_total(a.drop_first(), b.drop_first());
    }
}

pub proof fn lemma_lex_le_reflexive(a: Seq<u8>)
    ensures
        lex_le(a, a),
    decreases a.len(),
{
    if a.len() > 0 {
        lemma_lex_le_reflexive(a.drop_first());
    }
}

pub proof fn lemma_lex_le_transitive(a: Seq<u8>, b: Seq<u8>, c: Seq<u8>)
    requires
        lex_le(a, b),
        lex_le(b, c),
    ensures
        lex_le(a, c),
    decreases a.len(),
{
    if a.len() > 0 && b.len() > 0 && c.len() > 0 && a[0] == b[0] && b[0] == c[0] {
        lemma_lex_le_transitive(a.drop_first(), b.drop_first(), c.drop_first());
    }
}

pub proof fn lemma_lex_le_antisymmetric(a: Seq<u8>, b: Seq<u8>)
    requires
        lex_le(a, b),
        lex_le(b, a),
    ensures
        a == b,
    decreases a.len(),
{
    if a.len() > 0 && b.len() > 0 {
        lemma_lex_le_antisymmetric(a.drop_first(), b.drop_first());
        assert(a =~= seq![a[0]] + a.drop_first());
        assert(b =~= seq![b[0]] + b.drop_first());
    }
}

/// The characters of `s`, in order.
pub fn chars_of(s: &str) -> (out: Vec<char>)
    ensures
        out@ == s@,
{
    let mut out: Vec<char> = Vec::new();
    for c in it: s.chars()
        invariant
            it.seq() == s@,
            out@ == it.seq().take(it.index() as int),
    {
        out.push(c);
    }
    out
}

/// Tests `is_space` on one character.
pub fn char_is_space(c: char) -> (b: bool)
    ensures
        b == is_space(c),
{
    let v = c as u32;
    (0x09 <= v && v <= 0x0D) || v == 0x20 || v == 0x85 || v == 0xA0 || v == 0x1680 || (0x2000
        <= v && v <= 0x200A) || v == 0x2028 || v == 0x2029 || v == 0x202F || v == 0x205F || v
        == 0x3000
}

proof fn lemma_trim_start_skip(s: Seq<char>, i: int)
    requires
        0 <= i <= s.len(),
        forall|k: int| 0 <= k < i ==> is_space(#[trigger] s[k]),
    ensures
        trim_start(s) == trim_start(s.subrange(i, s.len() as int)),
    decreases i,
{
    if i > 0 {
        assert(s.drop_first() =~= s.subrange(1, s.len() as int));
        lemma_trim_start_skip(s.drop_first(), i - 1);
        assert(s.drop_first().subrange(i - 1, s.drop_first().len() as int) =~= s.subrange(
            i,
            s.len() as int,
        ));
    } else {
        assert(s.subrange(0, s.len() as int) =~= s);
    }
}

proof fn lemma_trim_end_drop(s: Seq<char>, j: int)
    requires
        0 <= j <= s.len(),
        forall|k: int| j <= k < s.len() ==> is_space(#[trigger] s[k]),
    ensures
        trim_end(s) == trim_end(s.subrange(0, j)),
    decreases s.len() - j,
{
    if j < s.len() {
        assert(s.drop_last() =~= s.subrange(0, s.len() - 1));
        lemma_trim_end_drop(s.drop_last(), j);
        assert(s.drop_last().subrange(0, j) =~= s.subrange(0, j));
    } else {
        assert(s.subrange(0, j) =~= s);
    }
}

/// Bounds `(a, b)` such that `trim` of `s@[lo..hi]` is `s@[a..b]`.
pub fn trim_bounds(s: &Vec<char>, lo: usize, hi: usize) -> (r: (usize, usize))
    requires
        lo <= hi <= s@.len(),
    ensures
        lo <= r.0 <= r.1 <= hi,
        trim(s@.subrange(lo as int, hi as int)) == s@.subrange(r.0 as int, r.1 as int),
{
    let ghost piece = s@.subrange(lo as int, hi as int);
    let mut a: usize = lo;
    while a < hi && char_is_space(s[a])
        invariant
            lo <= a <= hi <= s@.len(),
            piece == s@.subrange(lo as int, hi as int),
            forall|k: int| 0 <= k < a - lo ==> is_space(#[trigger] piece[k]),
        decreases hi - a,
    {
        assert(piece[a - lo] == s@[a as int]);
        a = a + 1;
    }
    let ghost rest = s@.subrange(a as int, hi as int);
    proof {
        lemma_trim_start_skip(piece, a - lo);
        assert(piece.subrange(a - lo, piece.len() as int) =~= rest);
        if rest.len() > 0 {
            assert(rest[0] == s@[a as int]);
        }
    }
    assert(trim_start(piece) == rest);
    let mut b: usize = hi;
    while b > a && char_is_space(s[b - 1])
        invariant
            lo <= a <= b <= hi <= s@.len(),
            rest == s@.subrange(a as int, hi as int),
            forall|k: int| b - a <= k < rest.len() ==> is_space(#[trigger] rest[k]),
        decreases b,
    {
        b = b - 1;
        assert(rest[b - a] == s@[b as int]);
    }
    proof {
        lemma_trim_end_drop(rest, b - a);
        let r2 = rest.subrange(0, b - a);
        if r2.len() > 0 {
            assert(r2.last() == s@[b - 1]);
        }
        assert(r2 =~= s@.subrange(a as int, b as int));
    }
    (a, b)
}

/// `str::trim`, returning an owned string.
pub fn trimmed(s: &str) -> (r: String)
    ensures
        r@ == trim(s@),
{
    let cs = chars_of(s);
    let (a, b) = trim_bounds(&cs, 0, cs.len());
    assert(cs@.subrange(0, cs@.len() as int) =~= s@);
    String::from_str(s.substring_char(a, b))
}

/// Whether `pat` occurs in `text` at byte offset `i`.
pub fn bytes_occur_at(text: &[u8], pat: &[u8], i: usize) -> (b: bool)
    ensures
        b == occurs_at(text@, pat@, i as int),
{
    if i > text.len() || pat.len() > text.len() - i {
        return false;
    }
    let mut k: usize = 0;
    while k < pat.len()
        invariant
            i + pat@.len() <= text@.len(),
            text@.len() == text.len(),
            k <= pat@.len(),
            forall|m: int| 0 <= m < k ==> text@[i + m] == pat@[m],
        decreases pat@.len() - k,
    {
        if text[i + k] != pat[k] {
            assert(text@.subrange(i as int, i + pat@.len())[k as int] != pat@[k as int]);
            return false;
        }
        k = k + 1;
    }
    assert(text@.subrange(i as int, i + pat@.len()) =~= pat@);
    true
}

/// `str::contains` on byte strings.
pub fn bytes_contain(text: &[u8], pat: &[u8]) -> (b: bool)
    ensures
        b == contains_bytes(text@, pat@),
{
    if pat.len() > text.len() {
        assert forall|i: int| !occurs_at(text@, pat@, i) by {}
        return false;
    }
    let last = text.len() - pat.len();
    let mut i: usize = 0;
    while i <= last
        invariant
            last == text@.len() - pat@.len(),
            i <= last,
            forall|j: int| 0 <= j < i ==> !occurs_at(text@, pat@, j),
        ensures
            forall|j: int| 0 <= j <= last ==> !occurs_at(text@, pat@, j),
        decreases last - i,
    {
        if bytes_occur_at(text, pat, i) {
            return true;
        }
        if i == last {
            break;
        }
        i = i + 1;
    }
    assert forall|j: int| !occurs_at(text@, pat@, j) by {
        if 0 <= j <= last {
        }
    }
    false
}

/// `str::ends_with` on byte strings.
pub fn bytes_end_with(text: &[u8], pat: &[u8]) -> (b: bool)
    ensures
        b == ends_with_bytes(text@, pat@),
{
    if pat.len() > text.len() {
        return false;
    }
    bytes_occur_at(text, pat, text.len() - pat.len())
}

/// Byte-wise lexicographic `<=` (the order `str`'s `cmp` gives).
pub fn bytes_le(a: &[u8], b: &[u8]) -> (r: bool)
    ensures
        r == lex_le(a@, b@),
{
    let mut i: usize = 0;
    assert(a@.skip(0) =~= a@ && b@.skip(0) =~= b@);
    while i < a.len() && i < b.len() && a[i] == b[i]
        invariant
            i <= a@.len(),
            i <= b@.len(),
            lex_le(a@, b@) == lex_le(a@.skip(i as int), b@.skip(i as int)),
        decreases a@.len() - i,
    {
        proof {
            let sa = a@.skip(i as int);
            let sb = b@.skip(i as int);
            assert(sa.drop_first() =~= a@.skip(i + 1));
            assert(sb.drop_first() =~= b@.skip(i + 1));
        }
        i = i + 1;
    }
    let ghost sa = a@.skip(i as int);
    let ghost sb = b@.skip(i as int);
    if i == a.len() {
        assert(sa.len() == 0);
        true
    } else if i == b.len() {
        assert(sb.len() == 0);
        false
    } else {
        assert(sa[0] == a@[i as int] && sb[0] == b@[i as int]);
        a[i] < b[i]
    }
}

} // verus!
