//! Lines of text and the character tests that the document logic relies on.

use regex::Regex;
use vstd::prelude::*;

verus! {

/// A character of the Unicode `White_Space` property, which is what `\s`
/// stands for in a Unicode-aware regular expression.
pub open spec fn is_ws(c: char) -> bool {
    let u = c as u32;
    (0x09 <= u && u <= 0x0d) || u == 0x20 || u == 0x85 || u == 0xa0 || u == 0x1680 || (0x2000
        <= u && u <= 0x200a) || u == 0x2028 || u == 0x2029 || u == 0x202f || u == 0x205f || u
        == 0x3000
}

/// A line made of white space alone (or of nothing).
pub open spec fn is_blank(l: Seq<char>) -> bool {
    forall|i: int| 0 <= i < l.len() ==> is_ws(#[trigger] l[i])
}

/// Relies on regex's `Regex::is_match` for the pattern `^\s*$`: the whole
/// haystack is white space. It holds only on text without a line feed.
#[verifier::external_body]
pub(crate) fn blank_line(line: &str) -> (r: bool)
    requires
        !line@.contains('\n'),
    ensures
        r == is_blank(line@),
{
    Regex::new(r"(^\s*$)").unwrap().is_match(line)
}

/// Relies on regex's `Regex::is_match` for the pattern `\S`: some character of
/// the haystack is not white space.
#[verifier::external_body]
pub(crate) fn has_visible_char(line: &str) -> (r: bool)
    ensures
        r == !is_blank(line@),
{
    Regex::new(r"\S").unwrap().is_match(line)
}

/// End of the run of characters `c1` or `c2` that starts at `i`.
pub open spec fn run_end(l: Seq<char>, i: int, c1: char, c2: char) -> int
    decreases l.len() - i,
{
    if 0 <= i < l.len() && (l[i] == c1 || l[i] == c2) {
        run_end(l, i + 1, c1, c2)
    } else {
        i
    }
}

/// The two groups that the pattern `^[ \t]*(#*)[ \t](.*)$` captures in a line
/// (the `#` characters, then the heading's text), where it matches. The
/// leading run of blanks is taken whole first; where no blank follows the
/// `#` run, the match falls back to one blank fewer and an empty `#` group.
pub open spec fn heading_match(l: Seq<char>) -> Option<(Seq<char>, Seq<char>)> {
    let k = run_end(l, 0, ' ', '\t');
    let e = run_end(l, k, '#', '#');
    if e < l.len() && (l[e] == ' ' || l[e] == '\t') {
        Some((l.subrange(k, e), l.subrange(e + 1, l.len() as int)))
    } else if k > 0 {
        Some((seq![], l.subrange(k, l.len() as int)))
    } else {
        None
    }
}

/// Relies on regex's `Regex::captures` for the pattern `^[ \t]*(#*)[ \t](.*)$`
/// (leftmost-first, as a backtracking engine would choose) on a line without a
/// line feed: the text of groups 1 and 2.
#[verifier::external_body]
pub(crate) fn heading_parts(line: &str) -> (r: Option<(String, String)>)
    requires
        !line@.contains('\n'),
    ensures
        match r {
            Some((a, b)) => heading_match(line@) == Some((a@, b@)),
            None => heading_match(line@) is None,
        },
{
    match Regex::new(r"^[ \t]*(#*)[ \t](.*)$").unwrap().captures(line) {
        Some(caps) => Some((caps[1].to_owned(), caps[2].to_owned())),
        None => None,
    }
}

/// Index of the first line feed at or after `i`, or the length of `s`.
pub open spec fn next_nl(s: Seq<char>, i: int) -> int
    decreases s.len() - i,
{
    if i >= s.len() {
        s.len() as int
    } else if s[i] == '\n' {
        i
    } else {
        next_nl(s, i + 1)
    }
}

/// The lines of `s` from position `i` on, split at each line feed (the line
/// feeds themselves are dropped; a text ending in one ends in an empty line).
pub open spec fn lines_from(s: Seq<char>, i: int) -> Seq<Seq<char>>
    decreases s.len() - i,
{
    let j = next_nl(s, i);
    if i < 0 || i > s.len() || j < i || j >= s.len() {
        seq![s.subrange(i, s.len() as int)]
    } else {
        seq![s.subrange(i, j)] + lines_from(s, j + 1)
    }
}

/// The lines of `s`: there is always at least one.
pub open spec fn lines_of(s: Seq<char>) -> Seq<Seq<char>> {
    lines_from(s, 0)
}

/// Lines put back together with a line feed between each two.
pub open spec fn join_lines(ls: Seq<Seq<char>>) -> Seq<char>
    decreases ls.len(),
{
    if ls.len() == 0 {
        seq![]
    } else if ls.len() == 1 {
        ls[0]
    } else {
        join_lines(ls.drop_last()) + seq!['\n'] + ls.last()
    }
}

pub open spec fn starts_with(s: Seq<char>, p: Seq<char>) -> bool {
    p.len() <= s.len() && s.subrange(0, p.len() as int) == p
}

pub open spec fn ends_with(s: Seq<char>, p: Seq<char>) -> bool {
    p.len() <= s.len() && s.subrange(s.len() - p.len(), s.len() as int) == p
}

pub open spec fn contains_at(s: Seq<char>, p: Seq<char>, i: int) -> bool {
    0 <= i && i + p.len() <= s.len() && s.subrange(i, i + p.len()) == p
}

pub open spec fn contains(s: Seq<char>, p: Seq<char>) -> bool {
    exists|i: int| contains_at(s, p, i)
}

/// Where the next line feed at or after `i` stands.
pub proof fn lemma_next_nl(s: Seq<char>, i: int)
    requires
        0 <= i <= s.len(),
    ensures
        i <= next_nl(s, i) <= s.len(),
        next_nl(s, i) < s.len() ==> s[next_nl(s, i)] == '\n',
        forall|k: int| i <= k < next_nl(s, i) ==> s[k] != '\n',
    decreases s.len() - i,
{
    if i < s.len() && s[i] != '\n' {
        lemma_next_nl(s, i + 1);
    }
}

/// Every line of `lines_from` is free of line feeds, and there is at least one.
pub proof fn lemma_lines_from(s: Seq<char>, i: int)
    requires
        0 <= i <= s.len(),
    ensures
        lines_from(s, i).len() >= 1,
        forall|k: int| 0 <= k < lines_from(s, i).len() ==> !(#[trigger] lines_from(s, i)[k]).contains('\n'),
    decreases s.len() - i,
{
    lemma_next_nl(s, i);
    let j = next_nl(s, i);
    if j < s.len() {
        lemma_lines_from(s, j + 1);
        assert forall|k: int| 0 <= k < lines_from(s, i).len() implies !(#[trigger] lines_from(s, i)[k]).contains('\n') by {
            if k == 0 {
                assert forall|m: int| 0 <= m < j - i implies s.subrange(i, j)[m] != '\n' by {
                    assert(s.subrange(i, j)[m] == s[i + m]);
                }
            } else {
                assert(lines_from(s, i)[k] == lines_from(s, j + 1)[k - 1]);
            }
        }
    } else {
        assert forall|m: int| 0 <= m < s.len() - i implies s.subrange(i, s.len() as int)[m] != '\n' by {
            assert(s.subrange(i, s.len() as int)[m] == s[i + m]);
        }
    }
}

/// Splits `s` at each line feed.
pub fn split_lines(s: &str) -> (r: Vec<String>)
    ensures
        r@.map_values(|l: String| l@) == lines_of(s@),
{
    let n = s.unicode_len();
    let mut r: Vec<String> = Vec::new();
    let mut i: usize = 0;
    loop
        invariant
            n == s@.len(),
            0 <= i <= n,
            r@.map_values(|l: String| l@) + lines_from(s@, i as int) == lines_of(s@),
        decreases n - i,
    {
        let mut j: usize = i;
        while j < n && s.get_char(j) != '\n'
            invariant
                n == s@.len(),
                i <= j <= n,
                next_nl(s@, i as int) == next_nl(s@, j as int),
            decreases n - j,
        {
            j = j + 1;
        }
        let line = String::from_str(s.substring_char(i, j));
        let ghost before = r@.map_values(|l: String| l@);
        r.push(line);
        assert(r@.map_values(|l: String| l@) == before.push(line@));
        if j >= n {
            assert(lines_from(s@, i as int) == seq![line@]);
            return r;
        }
        assert(lines_from(s@, i as int) == seq![line@] + lines_from(s@, j + 1));
        assert(before + lines_from(s@, i as int) == before.push(line@) + lines_from(s@, j + 1));
        i = j + 1;
    }
}

/// Whether `s` begins with `p`.
pub fn starts_with_str(s: &str, p: &str) -> (r: bool)
    ensures
        r == starts_with(s@, p@),
{
    let n = s.unicode_len();
    let m = p.unicode_len();
    if m > n {
        return false;
    }
    let mut k: usize = 0;
    while k < m
        invariant
            n == s@.len(),
            m == p@.len(),
            m <= n,
            0 <= k <= m,
            forall|t: int| 0 <= t < k ==> s@[t] == p@[t],
        decreases m - k,
    {
        if s.get_char(k) != p.get_char(k) {
            assert(s@.subrange(0, m as int)[k as int] != p@[k as int]);
            return false;
        }
        k = k + 1;
    }
    assert(s@.subrange(0, m as int) =~= p@);
    true
}

/// Whether `s` ends with `p`.
pub fn ends_with_str(s: &str, p: &str) -> (r: bool)
    ensures
        r == ends_with(s@, p@),
{
    let n = s.unicode_len();
    let m = p.unicode_len();
    if m > n {
        return false;
    }
    let d = n - m;
    let mut k: usize = 0;
    while k < m
        invariant
            n == s@.len(),
            m == p@.len(),
            d == n - m,
            0 <= k <= m,
            forall|t: int| 0 <= t < k ==> s@[d + t] == p@[t],
        decreases m - k,
    {
        if s.get_char(d + k) != p.get_char(k) {
            assert(s@.subrange(d as int, n as int)[k as int] != p@[k as int]);
            return false;
        }
        k = k + 1;
    }
    assert(s@.subrange(d as int, n as int) =~= p@);
    true
}

/// Whether `p` occurs in `s`.
pub fn contains_str(s: &str, p: &str) -> (r: bool)
    ensures
        r == contains(s@, p@),
{
    let n = s.unicode_len();
    let m = p.unicode_len();
    if m > n {
        assert(!contains(s@, p@));
        return false;
    }
    let mut i: usize = 0;
    while i <= n - m
        invariant
            n == s@.len(),
            m == p@.len(),
            m <= n,
            0 <= i <= n - m + 1,
            forall|t: int| 0 <= t < i ==> !contains_at(s@, p@, t),
        decreases n - m + 1 - i,
    {
        let mut k: usize = 0;
        while k < m && s.get_char(i + k) == p.get_char(k)
            invariant
                n == s@.len(),
                m == p@.len(),
                i + m <= n,
                0 <= k <= m,
                forall|t: int| 0 <= t < k ==> s@[i + t] == p@[t],
            decreases m - k,
        {
            k = k + 1;
        }
        if k == m {
            assert(s@.subrange(i as int, i + m) =~= p@);
            assert(contains_at(s@, p@, i as int));
            return true;
        }
        assert(s@.subrange(i as int, i + m)[k as int] != p@[k as int]);
        i = i + 1;
    }
    assert forall|t: int| !contains_at(s@, p@, t) by {
        if 0 <= t < i {
        }
    }
    false
}

} // verus!
