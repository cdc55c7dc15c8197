//! What holds of the combined document across calls and for all inputs.

use crate::lines::{
    contains, contains_at, ends_with, heading_match, is_blank, is_ws, run_end, join_lines, lemma_lines_from, lemma_next_nl, lines_from, lines_of, next_nl, starts_with,
};
use crate::md_doc::{
    combined, combined_children, header_source, header_source_from, header_text, heading_prefix,
    is_header_source, last_nonblank, pagebreak, pagebreak_ends, paged, paged_lines, title_text,
    with_blank_end, with_pagebreak_end, file_text, DocDir,
};
use vstd::prelude::*;

verus! {

proof fn lemma_join_prepend(a: Seq<char>, rest: Seq<Seq<char>>)
    requires
        rest.len() >= 1,
    ensures
        join_lines(seq![a] + rest) == a + seq!['\n'] + join_lines(rest),
    decreases rest.len(),
{
    let all = seq![a] + rest;
    if rest.len() == 1 {
        assert(all.drop_last() =~= seq![a]);
        assert(join_lines(all.drop_last()) == a);
        assert(all.last() == rest[0]);
        assert(join_lines(rest) == rest[0]);
        assert(join_lines(all) =~= a + seq!['\n'] + join_lines(rest));
    } else {
        lemma_join_prepend(a, rest.drop_last());
        assert(all.drop_last() =~= seq![a] + rest.drop_last());
        assert(all.last() == rest.last());
        assert(join_lines(all) =~= a + seq!['\n'] + join_lines(rest));
    }
}

proof fn lemma_join_lines_from(s: Seq<char>, i: int)
    requires
        0 <= i <= s.len(),
    ensures
        join_lines(lines_from(s, i)) == s.subrange(i, s.len() as int),
    decreases s.len() - i,
{
    lemma_next_nl(s, i);
    let j = next_nl(s, i);
    if j < s.len() {
        lemma_join_lines_from(s, j + 1);
        lemma_lines_from(s, j + 1);
        lemma_join_prepend(s.subrange(i, j), lines_from(s, j + 1));
        assert(s.subrange(i, j) + seq!['\n'] + s.subrange(j + 1, s.len() as int) =~= s.subrange(
            i,
            s.len() as int,
        ));
    }
}

/// Splitting a text into lines and joining them again gives the text back.
pub proof fn lemma_join_lines_of(s: Seq<char>)
    ensures
        join_lines(lines_of(s)) == s,
{
    lemma_join_lines_from(s, 0);
    assert(s.subrange(0, s.len() as int) =~= s);
}

proof fn lemma_paged_lines_plain(ls: Seq<Seq<char>>, n: int)
    requires
        1 <= n <= ls.len(),
        forall|k: int| 1 <= k < ls.len() ==> !starts_with(#[trigger] ls[k], heading_prefix()),
    ensures
        paged_lines(ls, n) == ls.subrange(0, n),
    decreases n,
{
    if n == 1 {
        assert(ls.subrange(0, 1) =~= seq![ls[0]]);
    } else {
        lemma_paged_lines_plain(ls, n - 1);
        assert(ls.subrange(0, n) =~= ls.subrange(0, n - 1).push(ls[n - 1]));
    }
}

/// The page-break pass leaves a text unchanged where no line after the first
/// opens a top-level heading.
pub proof fn lemma_paged_plain(s: Seq<char>)
    requires
        forall|k: int|
            1 <= k < lines_of(s).len() ==> !starts_with(#[trigger] lines_of(s)[k], heading_prefix()),
    ensures
        paged(s) == s,
{
    let ls = lines_of(s);
    lemma_lines_from(s, 0);
    lemma_paged_lines_plain(ls, ls.len() as int);
    assert(ls.subrange(0, ls.len() as int) =~= ls);
    lemma_join_lines_of(s);
}

/// Running the page-break pass twice gives what running it once gives, on
/// every text in which no line after the first opens a top-level heading (on
/// a text with such a line, each pass puts one more marker before it).
pub proof fn lemma_paged_idempotent(s: Seq<char>)
    requires
        forall|k: int|
            1 <= k < lines_of(s).len() ==> !starts_with(#[trigger] lines_of(s)[k], heading_prefix()),
    ensures
        paged(paged(s)) == paged(s),
{
    lemma_paged_plain(s);
}

proof fn lemma_no_source_from(d: DocDir, i: int)
    requires
        0 <= i <= d.children@.len(),
        forall|k: int| 0 <= k < d.children@.len() ==> !is_header_source(d, #[trigger] d.children@[k]),
    ensures
        header_source_from(d, i) == d.children@.len(),
    decreases d.children@.len() - i,
{
    if i < d.children@.len() {
        lemma_no_source_from(d, i + 1);
    }
}

/// A directory without a child file that carries its header opens with an
/// empty header.
pub proof fn lemma_no_header_source(d: DocDir)
    requires
        forall|k: int| 0 <= k < d.children@.len() ==> !is_header_source(d, #[trigger] d.children@[k]),
    ensures
        header_text(d) == Seq::<char>::empty(),
{
    lemma_no_source_from(d, 0);
}

proof fn lemma_source_from(d: DocDir, i: int, s: int)
    requires
        0 <= i <= s < d.children@.len(),
        is_header_source(d, d.children@[s]),
        forall|k: int| 0 <= k < s ==> !is_header_source(d, #[trigger] d.children@[k]),
    ensures
        header_source_from(d, i) == s,
    decreases s - i,
{
    if i < s {
        lemma_source_from(d, i + 1, s);
    }
}

proof fn lemma_first_line(x: Seq<char>, rest: Seq<char>)
    requires
        !x.contains('\n'),
    ensures
        lines_of(x + seq!['\n'] + rest)[0] == x,
{
    let s = x + seq!['\n'] + rest;
    lemma_next_nl_at(s, 0, x.len() as int);
    assert(s.subrange(0, x.len() as int) =~= x);
}

proof fn lemma_next_nl_at(s: Seq<char>, i: int, m: int)
    requires
        0 <= i <= m < s.len(),
        s[m] == '\n',
        forall|k: int| i <= k < m ==> s[k] != '\n',
    ensures
        next_nl(s, i) == m,
    decreases m - i,
{
    if i < m {
        lemma_next_nl_at(s, i + 1, m);
    }
}

/// Where exactly one child file of a directory carries the directory's header,
/// and that file opens with a heading line (`#` characters `hashes`, a blank,
/// the text `text`), the first line of the directory's header is
/// `<hashes> <directory header>. <text>`, and a blank line follows it. (The
/// directory's header label is one line, as a label of a path segment is.)
pub proof fn lemma_header_first_line(d: DocDir, s: int, hashes: Seq<char>, text: Seq<char>)
    requires
        !d.header@.contains('\n'),
        0 <= s < d.children@.len(),
        is_header_source(d, d.children@[s]),
        forall|k: int|
            0 <= k < d.children@.len() && k != s ==> !is_header_source(d, #[trigger] d.children@[k]),
        d.children@[s].content is Some,
        heading_match(lines_of(d.children@[s].content->0@)[0]) == Some((hashes, text)),
    ensures
        lines_of(header_text(d))[0] == hashes + seq![' '] + d.header@ + seq!['.', ' '] + text,
        starts_with(
            header_text(d),
            hashes + seq![' '] + d.header@ + seq!['.', ' '] + text + seq!['\n', '\n'],
        ),
{
    lemma_source_from(d, 0, s);
    let c = d.children@[s].content->0@;
    lemma_lines_from(c, 0);
    let l = lines_of(c)[0];
    assert(!l.contains('\n'));
    let k = run_end(l, 0, ' ', '\t');
    let e = run_end(l, k, '#', '#');
    lemma_run_end(l, 0, ' ', '\t');
    lemma_run_end(l, k, '#', '#');
    assert(!hashes.contains('\n')) by {
        if hashes.contains('\n') {
            let m = choose|m: int| 0 <= m < hashes.len() && hashes[m] == '\n';
            if e < l.len() && (l[e] == ' ' || l[e] == '\t') {
                assert(hashes[m] == l[k + m]);
            }
        }
    }
    assert(!text.contains('\n')) by {
        if text.contains('\n') {
            let m = choose|m: int| 0 <= m < text.len() && text[m] == '\n';
            if e < l.len() && (l[e] == ' ' || l[e] == '\t') {
                assert(text[m] == l[e + 1 + m]);
            } else {
                assert(text[m] == l[k + m]);
            }
        }
    }
    let x = hashes + seq![' '] + d.header@ + seq!['.', ' '] + text;
    assert(!x.contains('\n')) by {
        if x.contains('\n') {
            let m = choose|m: int| 0 <= m < x.len() && x[m] == '\n';
            if m < hashes.len() {
                assert(hashes[m] == x[m]);
            } else if m < hashes.len() + 1 + d.header@.len() && m > hashes.len() {
                assert(d.header@[m - hashes.len() - 1] == x[m]);
            } else if m >= hashes.len() + 3 + d.header@.len() {
                assert(text[m - hashes.len() - 3 - d.header@.len()] == x[m]);
            }
        }
    }
    let h = header_text(d);
    let rest = h.subrange(x.len() as int + 1, h.len() as int);
    assert(h =~= x + seq!['\n'] + rest);
    lemma_first_line(x, rest);
    let line = x + seq!['\n', '\n'];
    assert(h.subrange(0, line.len() as int) =~= line);
}

proof fn lemma_run_end(l: Seq<char>, i: int, c1: char, c2: char)
    requires
        0 <= i <= l.len(),
    ensures
        i <= run_end(l, i, c1, c2) <= l.len(),
    decreases l.len() - i,
{
    if i < l.len() && (l[i] == c1 || l[i] == c2) {
        lemma_run_end(l, i + 1, c1, c2);
    }
}

/// Once a title page has been found, walking any node after it keeps that
/// title: no later file replaces it.
pub proof fn lemma_title_kept(d: DocDir, body: Seq<char>, t: Seq<char>)
    ensures
        combined(d, body, Some(t)).1 == Some(t),
    decreases d, d.children@.len() + 1,
{
    if d.is_dir {
        lemma_title_kept_children(d, d.children@.len() as int, body + header_text(d), t);
    }
}

/// Once a title page has been found, walking the first `n` children of a
/// directory keeps that title.
pub proof fn lemma_title_kept_children(d: DocDir, n: int, body: Seq<char>, t: Seq<char>)
    ensures
        combined_children(d, n, body, Some(t)).1 == Some(t),
    decreases d, n,
{
    if 0 < n <= d.children@.len() {
        lemma_title_kept_children(d, n - 1, body, t);
        let before = combined_children(d, n - 1, body, Some(t));
        if n - 1 != header_source(d) {
            lemma_title_kept(d.children@[n - 1], before.0, t);
        }
    }
}

/// The first title page reached becomes the title, and its text is left out
/// of the body.
pub proof fn lemma_title_page_taken(f: DocDir, body: Seq<char>)
    requires
        !f.is_dir,
        f.title is Some,
    ensures
        combined(f, body, None).0 == body,
        combined(f, body, None).1 == Some(f.title->0.raw@),
{
}

/// The files that the walk of `d` reaches, in order: depth first, children in
/// order, each directory's header source left out.
pub open spec fn walk_files(d: DocDir) -> Seq<DocDir>
    decreases d, d.children@.len() + 1,
{
    if !d.is_dir {
        seq![d]
    } else {
        walk_files_children(d, d.children@.len() as int)
    }
}

/// The files that the walk reaches in the first `n` children of `d`.
pub open spec fn walk_files_children(d: DocDir, n: int) -> Seq<DocDir>
    decreases d, n,
{
    if n <= 0 || n > d.children@.len() {
        seq![]
    } else {
        let before = walk_files_children(d, n - 1);
        if n - 1 == header_source(d) {
            before
        } else {
            before + walk_files(d.children@[n - 1])
        }
    }
}

/// The title page of the first of the files `fs` that is one.
pub open spec fn first_title(fs: Seq<DocDir>) -> Option<Seq<char>>
    decreases fs.len(),
{
    if fs.len() == 0 {
        None
    } else if fs[0].title is Some {
        title_text(fs[0].title)
    } else {
        first_title(fs.drop_first())
    }
}

/// `t` where it is a title, else `u`.
pub open spec fn title_or(t: Option<Seq<char>>, u: Option<Seq<char>>) -> Option<Seq<char>> {
    if t is Some {
        t
    } else {
        u
    }
}

proof fn lemma_first_title_concat(a: Seq<DocDir>, b: Seq<DocDir>)
    ensures
        first_title(a + b) == title_or(first_title(a), first_title(b)),
    decreases a.len(),
{
    if a.len() > 0 {
        lemma_first_title_concat(a.drop_first(), b);
        assert((a + b).drop_first() =~= a.drop_first() + b);
        assert((a + b)[0] == a[0]);
    } else {
        assert(a + b =~= b);
    }
}

/// The title that walking `d` leaves is the one found before, or else the
/// title page of the first file reached that is one.
pub proof fn lemma_title_of_walk(d: DocDir, body: Seq<char>, t: Option<Seq<char>>)
    ensures
        combined(d, body, t).1 == title_or(t, first_title(walk_files(d))),
    decreases d, d.children@.len() + 1,
{
    if d.is_dir {
        lemma_title_of_walk_children(d, d.children@.len() as int, body + header_text(d), t);
    } else {
        assert(seq![d].drop_first() =~= Seq::<DocDir>::empty());
        assert(seq![d][0] == d);
        assert(first_title(Seq::<DocDir>::empty()) is None);
        assert(first_title(seq![d]) == if d.title is Some {
            title_text(d.title)
        } else {
            None
        });
    }
}

/// The title that walking the first `n` children of `d` leaves is the one
/// found before, or else the first title page among the files reached there.
pub proof fn lemma_title_of_walk_children(
    d: DocDir,
    n: int,
    body: Seq<char>,
    t: Option<Seq<char>>,
)
    ensures
        combined_children(d, n, body, t).1 == title_or(t, first_title(walk_files_children(d, n))),
    decreases d, n,
{
    if 0 < n <= d.children@.len() {
        lemma_title_of_walk_children(d, n - 1, body, t);
        let before = combined_children(d, n - 1, body, t);
        if n - 1 != header_source(d) {
            let c = d.children@[n - 1];
            lemma_title_of_walk(c, before.0, before.1);
            lemma_first_title_concat(walk_files_children(d, n - 1), walk_files(c));
        }
    }
}

/// Walking a tree from no title keeps as title that of the first file reached
/// (depth first, children in order) that is a title page, and none where no
/// file is one.
pub proof fn lemma_first_title_wins(d: DocDir, body: Seq<char>)
    ensures
        combined(d, body, None).1 == first_title(walk_files(d)),
{
    lemma_title_of_walk(d, body, None);
}

/// What ending a directory does to the body: a blank line, then a page break.
pub open spec fn dir_end(b: Seq<char>) -> Seq<char> {
    with_pagebreak_end(with_blank_end(b))
}

proof fn lemma_last_nonblank_prepend(a: Seq<char>, ls: Seq<Seq<char>>)
    requires
        last_nonblank(ls) is Some,
    ensures
        last_nonblank(seq![a] + ls) == last_nonblank(ls),
    decreases ls.len(),
{
    let all = seq![a] + ls;
    assert(all.last() == ls.last());
    if is_blank(ls.last()) {
        lemma_last_nonblank_prepend(a, ls.drop_last());
        assert(all.drop_last() =~= seq![a] + ls.drop_last());
    }
}

/// The lines from the line start `i` on, in a text that ends with the
/// page-break marker and two line feeds, end in a line that holds the marker.
proof fn lemma_marker_last_from(y: Seq<char>, i: int)
    requires
        0 <= i <= y.len(),
        i == 0 || y[i - 1] == '\n',
    ensures
        ({
            let s = y + pagebreak() + seq!['\n', '\n'];
            last_nonblank(lines_from(s, i)) matches Some(l) && contains(l, pagebreak())
        }),
    decreases y.len() - i,
{
    let p = pagebreak();
    let s = y + p + seq!['\n', '\n'];
    lemma_pagebreak_chars();
    lemma_next_nl(s, i);
    let j = next_nl(s, i);
    let e: int = y.len() as int + p.len() as int;
    assert(s[e] == '\n');
    if j < y.len() {
        assert(s[j] == y[j]);
        lemma_marker_last_from(y, j + 1);
        lemma_lines_from(s, j + 1);
        lemma_last_nonblank_prepend(s.subrange(i, j), lines_from(s, j + 1));
        assert(lines_from(s, i) == seq![s.subrange(i, j)] + lines_from(s, j + 1));
    } else {
        assert forall|k: int| i <= k < e implies s[k] != '\n' by {
            if k >= y.len() {
                assert(s[k] == p[k - y.len()]);
            }
        }
        assert(j == e) by {
            if j < e {
                assert(s[j] != '\n');
            }
        }
        lemma_next_nl(s, e + 1);
        lemma_next_nl(s, e + 2);
        let l = s.subrange(i, e);
        assert(s.len() == e + 2);
        assert(s.subrange(e + 2, e + 2) =~= Seq::<char>::empty());
        assert(s.subrange(e + 1, e + 1) =~= Seq::<char>::empty());
        assert(next_nl(s, e + 2) == e + 2);
        assert(next_nl(s, e + 1) == e + 1);
        assert(lines_from(s, e + 2) =~= seq![Seq::<char>::empty()]);
        assert(lines_from(s, e + 1) =~= seq![Seq::<char>::empty(), Seq::<char>::empty()]);
        let ls = lines_from(s, i);
        assert(ls =~= seq![l, Seq::<char>::empty(), Seq::<char>::empty()]);
        assert(l.subrange(y.len() - i, y.len() - i + p.len()) =~= p);
        assert(contains_at(l, p, y.len() - i));
        assert(!is_ws(l[y.len() - i]));
        assert(ls.drop_last().drop_last() =~= seq![l]);
        assert(ls.drop_last().last() =~= Seq::<char>::empty());
        assert(is_blank(Seq::<char>::empty()));
        assert(!is_blank(l));
        assert(last_nonblank(seq![l]) == Some(l));
        assert(last_nonblank(ls.drop_last()) == Some(l));
        assert(last_nonblank(ls) == Some(l));
        assert(contains(l, p));
    }
}

proof fn lemma_pagebreak_chars()
    ensures
        pagebreak().len() > 0,
        !is_ws(pagebreak()[0]),
        !pagebreak().contains('\n'),
{
    reveal_strlit("======================pagebreak======================");
}

/// A directory's body, once ended, ends with a blank line and a page break, so
/// ending it again changes nothing.
pub proof fn lemma_dir_end_stable(b: Seq<char>)
    ensures
        dir_end(dir_end(b)) == dir_end(b),
        ends_with(dir_end(b), seq!['\n', '\n']),
        pagebreak_ends(dir_end(b)),
{
    let w = with_blank_end(b);
    assert(ends_with(w, seq!['\n', '\n'])) by {
        if !ends_with(b, seq!['\n', '\n']) {
            if ends_with(b, seq!['\n']) {
                assert(w.subrange(w.len() - 2, w.len() as int) =~= seq!['\n', '\n']) by {
                    assert(b[b.len() - 1] == b.subrange(b.len() - 1, b.len() as int)[0]);
                }
            } else {
                assert(w.subrange(w.len() - 2, w.len() as int) =~= seq!['\n', '\n']);
            }
        }
    }
    let r = dir_end(b);
    if !pagebreak_ends(w) {
        assert(r.subrange(r.len() - 2, r.len() as int) =~= seq!['\n', '\n']);
        lemma_marker_last_from(w, 0);
    }
}

/// The walk of `root{ dir_a{ file1, file2 }, dir_b{ file3 } }`, where no file
/// is a title page or carries its directory's header, gives: `dir_a`'s header,
/// the first two files' text, a blank line and a page break, then `dir_b`'s
/// header, the third file's text, a blank line and a page break; the root adds
/// nothing after them.
pub proof fn lemma_walk_order(root: DocDir, body: Seq<char>)
    requires
        root.is_dir,
        root.children@.len() == 2,
        root.children@[0].is_dir,
        root.children@[1].is_dir,
        root.children@[0].children@.len() == 2,
        root.children@[1].children@.len() == 1,
        forall|k: int|
            0 <= k < 2 ==> !(#[trigger] root.children@[0].children@[k]).is_dir
                && root.children@[0].children@[k].title is None
                && !is_header_source(root.children@[0], root.children@[0].children@[k]),
        !root.children@[1].children@[0].is_dir,
        root.children@[1].children@[0].title is None,
        !is_header_source(root.children@[1], root.children@[1].children@[0]),
    ensures
        ({
            let a = root.children@[0];
            let b = root.children@[1];
            let after_a = dir_end(
                body + header_text(a) + file_text(a.children@[0]) + file_text(a.children@[1]),
            );
            combined(root, body, None) == (
                dir_end(after_a + header_text(b) + file_text(b.children@[0])),
                None::<Seq<char>>,
            )
        }),
{
    let a = root.children@[0];
    let b = root.children@[1];
    lemma_no_source_from(root, 0);
    lemma_no_source_from(a, 0);
    lemma_no_source_from(b, 0);
    assert(header_text(root) == Seq::<char>::empty());
    assert(header_text(a) == Seq::<char>::empty());
    assert(header_text(b) == Seq::<char>::empty());
    let a0 = combined_children(a, 0, body, None);
    let a1 = combined_children(a, 1, body, None);
    let a2 = combined_children(a, 2, body, None);
    assert(header_source(a) == 2);
    assert(a0 == (body, None::<Seq<char>>));
    assert(combined(a.children@[0], body, None) == (body + file_text(a.children@[0]), None::<Seq<char>>));
    assert(a1 == (body + file_text(a.children@[0]), None::<Seq<char>>));
    assert(combined(a.children@[1], a1.0, None) == (a1.0 + file_text(a.children@[1]), None::<Seq<char>>));
    assert(a2 == (body + file_text(a.children@[0]) + file_text(a.children@[1]), None::<Seq<char>>));
    assert(body + header_text(a) =~= body);
    let after_a = dir_end(
        body + header_text(a) + file_text(a.children@[0]) + file_text(a.children@[1]),
    );
    assert(combined(a, body, None) == (after_a, None::<Seq<char>>));
    assert(header_source(b) == 1);
    assert(header_source(root) == 2);
    assert(combined_children(b, 0, after_a, None) == (after_a, None::<Seq<char>>));
    assert(combined(b.children@[0], after_a, None) == (after_a + file_text(b.children@[0]), None::<Seq<char>>));
    let b1 = combined_children(b, 1, after_a, None);
    assert(after_a + header_text(b) =~= after_a);
    assert(b1 == (after_a + file_text(b.children@[0]), None::<Seq<char>>));
    let after_b = dir_end(after_a + header_text(b) + file_text(b.children@[0]));
    assert(combined(b, after_a, None) == (after_b, None::<Seq<char>>));
    assert(body + header_text(root) =~= body);
    assert(combined_children(root, 0, body, None) == (body, None::<Seq<char>>));
    assert(combined_children(root, 1, body, None) == combined(a, body, None));
    assert(combined_children(root, 1, body, None) == (after_a, None::<Seq<char>>));
    assert(combined_children(root, 2, body, None) == (after_b, None::<Seq<char>>));
    lemma_dir_end_stable(after_a + header_text(b) + file_text(b.children@[0]));
}

} // verus!
