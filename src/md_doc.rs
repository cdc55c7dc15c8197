//! The markdown document combined out of a tree of fragments.

use crate::lines::{
    blank_line, contains, contains_str, ends_with, ends_with_str, has_visible_char, heading_match, heading_parts, is_blank,
    join_lines, lemma_lines_from, lines_of, split_lines, starts_with,
};
use vstd::prelude::*;

verus! {

/// The line that starts a top-level heading begins with these two characters.
pub open spec fn heading_prefix() -> Seq<char> {
    seq!['#', ' ']
}

/// The page-break marker as a sequence of characters.
pub open spec fn pagebreak() -> Seq<char> {
    MdDoc::PAGEBREAK@
}

/// The lines emitted after the first `n` input lines `ls` have gone through the
/// page-break pass: each later line that opens a top-level heading is preceded
/// by a blank line (unless the line emitted before it is blank already), the
/// marker and another blank line.
pub open spec fn paged_lines(ls: Seq<Seq<char>>, n: int) -> Seq<Seq<char>>
    decreases n,
{
    if n <= 0 {
        seq![]
    } else if n == 1 {
        seq![ls[0]]
    } else {
        let o = paged_lines(ls, n - 1);
        let l = ls[n - 1];
        if starts_with(l, heading_prefix()) {
            let o2 = if is_blank(o.last()) {
                o
            } else {
                o.push(seq![])
            };
            o2.push(pagebreak()).push(seq![]).push(l)
        } else {
            o.push(l)
        }
    }
}

/// The text `s` with page-break markers put before its top-level headings.
pub open spec fn paged(s: Seq<char>) -> Seq<char> {
    join_lines(paged_lines(lines_of(s), lines_of(s).len() as int))
}

/// The last line of `ls` that is not blank.
pub open spec fn last_nonblank(ls: Seq<Seq<char>>) -> Option<Seq<char>>
    decreases ls.len(),
{
    if ls.len() == 0 {
        None
    } else if !is_blank(ls.last()) {
        Some(ls.last())
    } else {
        last_nonblank(ls.drop_last())
    }
}

/// The last line of `s` that is not blank holds the page-break marker.
pub open spec fn pagebreak_ends(s: Seq<char>) -> bool {
    match last_nonblank(lines_of(s)) {
        Some(l) => contains(l, pagebreak()),
        None => false,
    }
}

/// The header file's text with its first line rewritten as
/// `<#s> <header>. <heading>` and a blank line; the rest of the lines follow,
/// or two line feeds where nothing follows the heading but one empty line. A
/// first line that is no heading leaves the text as it is.
pub open spec fn rebuilt(content: Seq<char>, header: Seq<char>) -> Seq<char> {
    let ls = lines_of(content);
    match heading_match(ls[0]) {
        Some((hashes, text)) => hashes + seq![' '] + header + seq!['.', ' '] + text + seq![
            '\n',
            '\n',
        ] + if has_body(ls) {
            join_lines(ls.drop_first())
        } else {
            seq!['\n', '\n']
        },
        None => content,
    }
}

/// Something follows the first of the lines `ls`: more than one line, or one
/// line that is not empty.
pub open spec fn has_body(ls: Seq<Seq<char>>) -> bool {
    ls.len() > 2 || (ls.len() == 2 && ls[1].len() > 0)
}

/// What a header file contributes: its rebuilt text, or nothing where it
/// could not be read.
pub open spec fn rebuilt_file(f: DocDir) -> Seq<char> {
    match f.content {
        Some(c) => rebuilt(c@, f.header@),
        None => seq![],
    }
}

/// A child of `d` that is a file with the same header as `d`.
pub open spec fn is_header_source(d: DocDir, c: DocDir) -> bool {
    !c.is_dir && c.header@ == d.header@
}

/// Index of the first header source among the children of `d` from `i` on,
/// or the number of children where there is none.
pub open spec fn header_source_from(d: DocDir, i: int) -> int
    decreases d.children@.len() - i,
{
    if i < 0 || i >= d.children@.len() {
        d.children@.len() as int
    } else if is_header_source(d, d.children@[i]) {
        i
    } else {
        header_source_from(d, i + 1)
    }
}

pub open spec fn header_source(d: DocDir) -> int {
    header_source_from(d, 0)
}

/// The header that the directory `d` opens with: the rebuilt text of its
/// first header source, or nothing where it has none.
pub open spec fn header_text(d: DocDir) -> Seq<char> {
    let i = header_source(d);
    if i < d.children@.len() {
        rebuilt_file(d.children@[i])
    } else {
        seq![]
    }
}

/// What a file contributes to the body: its text, or nothing where it could
/// not be read.
pub open spec fn file_text(f: DocDir) -> Seq<char> {
    match f.content {
        Some(c) => c@,
        None => seq![],
    }
}

/// The body ends with a blank line: where it does not end with two line
/// feeds, one is appended after a line feed and two after anything else.
pub open spec fn with_blank_end(b: Seq<char>) -> Seq<char> {
    if ends_with(b, seq!['\n', '\n']) {
        b
    } else if ends_with(b, seq!['\n']) {
        b.push('\n')
    } else {
        b + seq!['\n', '\n']
    }
}

/// The body ends with a page break: the marker and two line feeds are
/// appended where its last line that is not blank lacks the marker.
pub open spec fn with_pagebreak_end(b: Seq<char>) -> Seq<char> {
    if pagebreak_ends(b) {
        b
    } else {
        b + pagebreak() + seq!['\n', '\n']
    }
}

/// Body and title after the node `d` was walked, starting from `body` and
/// `title`.
/// - A file is taken as the title page where none was found before and it
///   is one; else its text is appended.
/// - A directory appends its header, walks its children in order but its
///   header source, then ends the body with a blank line and a page break.
pub open spec fn combined(d: DocDir, body: Seq<char>, title: Option<Seq<char>>) -> (
    Seq<char>,
    Option<Seq<char>>,
)
    decreases d, d.children@.len() + 1,
{
    if !d.is_dir {
        if title is None && d.title is Some {
            (body, title_text(d.title))
        } else {
            (body + file_text(d), title)
        }
    } else {
        let walked = combined_children(d, d.children@.len() as int, body + header_text(d), title);
        (with_pagebreak_end(with_blank_end(walked.0)), walked.1)
    }
}

/// Body and title after the first `n` children of `d` were walked, the
/// header source left out.
pub open spec fn combined_children(
    d: DocDir,
    n: int,
    body: Seq<char>,
    title: Option<Seq<char>>,
) -> (Seq<char>, Option<Seq<char>>)
    decreases d, n,
{
    if n <= 0 || n > d.children@.len() {
        (body, title)
    } else {
        let before = combined_children(d, n - 1, body, title);
        if n - 1 == header_source(d) {
            before
        } else {
            combined(d.children@[n - 1], before.0, before.1)
        }
    }
}

/// The text of a title, or nothing.
pub open spec fn title_or_empty(t: Option<Seq<char>>) -> Seq<char> {
    match t {
        Some(t) => t,
        None => seq![],
    }
}

/// A title page recognised among the fragments.
pub struct Title {
    /// The title page's text, put before the body in the joined document.
    pub raw: String,
}

impl Title {
    /// A copy of this title.
    pub fn copy(&self) -> (r: Title)
        ensures
            r.raw@ == self.raw@,
    {
        Title { raw: self.raw.clone() }
    }
}

pub open spec fn title_text(t: Option<Title>) -> Option<Seq<char>> {
    match t {
        Some(t) => Some(t.raw@),
        None => None,
    }
}

/// A node of the tree of fragments: a directory with its children in order, or
/// a markdown file with what was read from it.
pub struct DocDir {
    pub path: String,
    pub is_dir: bool,
    /// The label derived from the last segment of the path (`part01_xyz`
    /// gives `Part 01`).
    pub header: String,
    pub children: Vec<DocDir>,
    /// The file's text; `None` where it could not be read.
    pub content: Option<String>,
    /// The title page that this file holds, if it is one.
    pub title: Option<Title>,
}

/// Markdown document combined from the files of nested folders, with its title
/// page.
pub struct MdDoc {
    /// The tree that the document is read from.
    pub dir: DocDir,
    pub title: Option<Title>,
    pub markdown: String,
    pub html: String,
}

impl MdDoc {
    /// To be replaced with `<div class="pagebreak"> </div>`.
    pub const PAGEBREAK: &'static str = "======================pagebreak======================";

    /// To be replaced with the html body content.
    pub const BODY_CONTENT: &'static str =
        "======================body-section-content======================";

    /// Returns a new document over the tree `dir`, with nothing read yet.
    pub fn new(dir: DocDir) -> (r: MdDoc)
        ensures
            r.dir == dir,
            r.title is None,
            r.markdown@ == Seq::<char>::empty(),
            r.html@ == Seq::<char>::empty(),
    {
        MdDoc { dir, title: None, markdown: String::new(), html: String::new() }
    }

    /// Returns the document with `html` as its rendered form.
    pub fn with_html(self, html: String) -> (r: MdDoc)
        ensures
            r.dir == self.dir,
            r.title == self.title,
            r.markdown == self.markdown,
            r.html == html,
    {
        MdDoc { dir: self.dir, title: self.title, markdown: self.markdown, html }
    }

    /// Returns the document with `md` as its markdown.
    pub fn with_md(self, md: String) -> (r: MdDoc)
        ensures
            r.dir == self.dir,
            r.title == self.title,
            r.markdown == md,
            r.html == self.html,
    {
        MdDoc { dir: self.dir, title: self.title, markdown: md, html: self.html }
    }

    /// Returns the title page's text followed by the markdown.
    pub fn joined(&self) -> (r: String)
        ensures
            r@ == title_or_empty(title_text(self.title)) + self.markdown@,
    {
        let mut r = match &self.title {
            Some(t) => t.raw.clone(),
            None => String::new(),
        };
        r.append(self.markdown.as_str());
        r
    }

    /// Reads the document from its tree: the body combined from the nested
    /// files with page breaks before top-level headings, and the title page.
    pub fn eval(self) -> (r: MdDoc)
        ensures
            r.dir == self.dir,
            r.markdown@ == paged(combined(self.dir, seq![], None).0),
            title_text(r.title) == combined(self.dir, seq![], None).1,
            r.html@ == Seq::<char>::empty(),
    {
        let mut body = String::new();
        let mut title: Option<Title> = None;
        Self::combine(&self.dir, &mut body, &mut title);
        let markdown = Self::add_pagebreakes(body.as_str());
        MdDoc { dir: self.dir, title, markdown, html: String::new() }
    }

    /// Returns the header file's text with its heading rebuilt:
    /// - the label comes from the file's path: `part01_xyz => Part 01`;
    /// - the heading becomes `# Doc header => # Part 01. Doc header`.
    pub fn rebuild_header(doc: &DocDir) -> (r: String)
        ensures
            r@ == rebuilt_file(*doc),
    {
        let text = match &doc.content {
            Some(c) => c,
            None => {
                return String::new();
            },
        };
        let lines = split_lines(text.as_str());
        let ghost ls = lines@.map_values(|l: String| l@);
        proof {
            lemma_lines_from(text@, 0);
        }
        assert(ls[0] == lines@[0]@);
        let (hashes, heading) = match heading_parts(lines[0].as_str()) {
            Some(parts) => parts,
            None => {
                return text.clone();
            },
        };
        let mut out = hashes;
        proof {
            reveal_strlit(" ");
            reveal_strlit(". ");
        }
        out.append(" ");
        out.append(doc.header.as_str());
        out.append(". ");
        out.append(heading.as_str());
        push_newline(&mut out);
        push_newline(&mut out);
        let ghost head = out@;
        if lines.len() > 2 || (lines.len() == 2 && lines[1].unicode_len() > 0) {
            out.append(lines[1].as_str());
            let mut k: usize = 2;
            assert(ls.subrange(1, 2) =~= seq![ls[1]]);
            while k < lines.len()
                invariant
                    ls == lines@.map_values(|l: String| l@),
                    2 <= k <= lines.len(),
                    out@ == head + join_lines(ls.subrange(1, k as int)),
                decreases lines.len() - k,
            {
                let ghost before = out@;
                push_newline(&mut out);
                out.append(lines[k].as_str());
                proof {
                    lemma_join_push(ls.subrange(1, k as int), ls[k as int]);
                    assert(ls.subrange(1, k + 1) =~= ls.subrange(1, k as int).push(ls[k as int]));
                }
                k = k + 1;
            }
            assert(ls.subrange(1, ls.len() as int) =~= ls.drop_first());
        } else {
            push_newline(&mut out);
            push_newline(&mut out);
        }
        out
    }

    /// Returns the header of `dir`, rebuilt from its first child file whose
    /// header is the directory's own; empty where there is none.
    pub fn read_header(dir: &DocDir) -> (r: String)
        ensures
            r@ == header_text(*dir),
    {
        let i = header_source_index(dir);
        if i < dir.children.len() {
            Self::rebuild_header(&dir.children[i])
        } else {
            String::new()
        }
    }

    /// Walks the tree `dir` depth first, appending to `body` what each node
    /// contributes, and takes the first title page found into `title`.
    pub fn combine(dir: &DocDir, body: &mut String, title: &mut Option<Title>)
        ensures
            (final(body)@, title_text(*final(title))) == combined(
                *dir,
                old(body)@,
                title_text(*old(title)),
            ),
        decreases dir,
    {
        if !dir.is_dir {
            if title.is_none() {
                if let Some(t) = &dir.title {
                    *title = Some(t.copy());
                    return;
                }
            }
            if let Some(c) = &dir.content {
                body.append(c.as_str());
            }
        } else {
            let header = Self::read_header(dir);
            body.append(header.as_str());
            let src = header_source_index(dir);
            let ghost start = (body@, title_text(*title));
            let mut i: usize = 0;
            while i < dir.children.len()
                invariant
                    0 <= i <= dir.children@.len(),
                    src == header_source(*dir),
                    start == (old(body)@ + header_text(*dir), title_text(*old(title))),
                    (body@, title_text(*title)) == combined_children(*dir, i as int, start.0, start.1),
                decreases dir.children@.len() - i,
            {
                if i != src {
                    Self::combine(&dir.children[i], body, title);
                }
                i = i + 1;
            }
            proof {
                reveal_strlit("\n\n");
                assert("\n\n"@ =~= seq!['\n', '\n']);
            }
            let ghost walked = body@;
            proof {
                reveal_strlit("\n");
                assert("\n"@ =~= seq!['\n']);
            }
            if !ends_with_str(body.as_str(), "\n\n") {
                if !ends_with_str(body.as_str(), "\n") {
                    push_newline(body);
                }
                push_newline(body);
            }
            assert(body@ == with_blank_end(walked));
            if !Self::ends_with_pagebreak(body.as_str()) {
                body.append(Self::PAGEBREAK);
                body.append("\n\n");
            }
        }
    }

    /// Inserts page breaks before every top-level heading after the first line.
    pub fn add_pagebreakes(doc: &str) -> (r: String)
        ensures
            r@ == paged(doc@),
    {
        let lines = split_lines(doc);
        let ghost ls = lines@.map_values(|l: String| l@);
        proof {
            lemma_lines_from(doc@, 0);
        }
        assert(ls[0] == lines@[0]@);
        let mut out = String::new();
        out.append(lines[0].as_str());
        let mut prev_blank = blank_line(lines[0].as_str());
        let mut i: usize = 1;
        assert(join_lines(paged_lines(ls, 1)) == ls[0]);
        while i < lines.len()
            invariant
                ls == lines@.map_values(|l: String| l@),
                ls == lines_of(doc@),
                forall|k: int| 0 <= k < ls.len() ==> !(#[trigger] ls[k]).contains('\n'),
                1 <= i <= lines.len(),
                paged_lines(ls, i as int).len() >= 1,
                out@ == join_lines(paged_lines(ls, i as int)),
                prev_blank == is_blank(paged_lines(ls, i as int).last()),
            decreases lines.len() - i,
        {
            let line = lines[i].as_str();
            assert(line@ == ls[i as int]);
            let ghost o = paged_lines(ls, i as int);
            if top_heading(line) {
                let ghost o2 = if is_blank(o.last()) {
                    o
                } else {
                    o.push(seq![])
                };
                if !prev_blank {
                    push_newline(&mut out);
                    proof {
                        lemma_join_push(o, seq![]);
                    }
                }
                assert(out@ == join_lines(o2));
                push_newline(&mut out);
                out.append(Self::PAGEBREAK);
                proof {
                    lemma_join_push(o2, pagebreak());
                }
                push_newline(&mut out);
                proof {
                    lemma_join_push(o2.push(pagebreak()), seq![]);
                }
                push_newline(&mut out);
                out.append(line);
                proof {
                    lemma_join_push(o2.push(pagebreak()).push(seq![]), line@);
                }
            } else {
                push_newline(&mut out);
                out.append(line);
                proof {
                    lemma_join_push(o, line@);
                }
            }
            prev_blank = blank_line(line);
            i = i + 1;
        }
        out
    }

    /// Whether the last line of `doc` that is not blank holds the page-break
    /// marker.
    pub fn ends_with_pagebreak(doc: &str) -> (r: bool)
        ensures
            r == pagebreak_ends(doc@),
    {
        let lines = split_lines(doc);
        let ghost ls = lines@.map_values(|l: String| l@);
        let mut n: usize = lines.len();
        assert(ls.subrange(0, n as int) =~= ls);
        while n > 0
            invariant
                ls == lines@.map_values(|l: String| l@),
                ls == lines_of(doc@),
                n <= lines.len(),
                last_nonblank(ls) == last_nonblank(ls.subrange(0, n as int)),
            decreases n,
        {
            let line = lines[n - 1].as_str();
            assert(line@ == ls[n - 1]);
            assert(ls.subrange(0, n as int).drop_last() == ls.subrange(0, n - 1));
            if has_visible_char(line) {
                return contains_str(line, Self::PAGEBREAK);
            }
            n = n - 1;
        }
        false
    }
}

/// Index of the first child of `dir` that is a file with the directory's
/// header, or the number of children where there is none.
fn header_source_index(dir: &DocDir) -> (r: usize)
    ensures
        r == header_source(*dir),
{
    let mut i: usize = 0;
    while i < dir.children.len()
        invariant
            0 <= i <= dir.children@.len(),
            header_source(*dir) == header_source_from(*dir, i as int),
        decreases dir.children@.len() - i,
    {
        let child = &dir.children[i];
        if !child.is_dir && child.header == dir.header {
            return i;
        }
        i = i + 1;
    }
    i
}

/// Appends a line feed.
fn push_newline(s: &mut String)
    ensures
        final(s)@ == old(s)@ + seq!['\n'],
{
    proof {
        reveal_strlit("\n");
    }
    s.append("\n");
}

/// Whether `line` opens a top-level heading.
fn top_heading(line: &str) -> (r: bool)
    ensures
        r == starts_with(line@, heading_prefix()),
{
    if line.unicode_len() < 2 {
        return false;
    }
    let r = line.get_char(0) == '#' && line.get_char(1) == ' ';
    assert(r == (line@.subrange(0, 2) =~= heading_prefix()));
    r
}

proof fn lemma_join_push(ls: Seq<Seq<char>>, l: Seq<char>)
    requires
        ls.len() >= 1,
    ensures
        join_lines(ls.push(l)) == join_lines(ls) + seq!['\n'] + l,
{
    assert(ls.push(l).drop_last() == ls);
}

} // verus!
