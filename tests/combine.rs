use md_doc::md_doc::{DocDir, MdDoc, Title};

fn file(header: &str, content: &str) -> DocDir {
    DocDir {
        path: format!("{}.md", header),
        is_dir: false,
        header: header.to_string(),
        children: Vec::new(),
        content: Some(content.to_string()),
        title: None,
    }
}

fn title_file(header: &str, raw: &str) -> DocDir {
    let mut f = file(header, raw);
    f.title = Some(Title { raw: raw.to_string() });
    f
}

fn dir(header: &str, children: Vec<DocDir>) -> DocDir {
    DocDir {
        path: header.to_string(),
        is_dir: true,
        header: header.to_string(),
        children,
        content: None,
        title: None,
    }
}

fn pb() -> &'static str {
    MdDoc::PAGEBREAK
}

#[test]
fn header_line_is_rewritten() {
    let mut source = file("Part 01", "# Doc header\nline1\nline2\n");
    source.path = "book/part01/part01_xyz".to_string();
    let d = dir("Part 01", vec![source, file("x", "x\n")]);
    let h = MdDoc::read_header(&d);
    assert_eq!(h, "# Part 01. Doc header\n\nline1\nline2\n");
    assert_eq!(h.split('\n').next().unwrap(), "# Part 01. Doc header");
}

#[test]
fn header_without_body_gets_two_blank_lines() {
    let f = file("Part 01", "## Intro\n");
    assert_eq!(MdDoc::rebuild_header(&f), "## Part 01. Intro\n\n\n\n");
    let g = file("Part 01", "# Intro\nonly one more line");
    assert_eq!(MdDoc::rebuild_header(&g), "# Part 01. Intro\n\nonly one more line");
    let h = file("Part 01", "# H\nbody");
    assert_eq!(MdDoc::rebuild_header(&h), "# Part 01. H\n\nbody");
}

#[test]
fn header_pattern_variants() {
    let indented = file("P", "  ### Deep\na\nb");
    assert_eq!(MdDoc::rebuild_header(&indented), "### P. Deep\n\na\nb");
    let no_hashes = file("P", "  plain\na\nb");
    assert_eq!(MdDoc::rebuild_header(&no_hashes), " P. plain\n\na\nb");
    let tab = file("P", "#\tTabbed\na\nb");
    assert_eq!(MdDoc::rebuild_header(&tab), "# P. Tabbed\n\na\nb");
}

#[test]
fn header_not_a_heading_is_kept() {
    let f = file("P", "Plain start\nmore\n");
    assert_eq!(MdDoc::rebuild_header(&f), "Plain start\nmore\n");
    let g = file("P", "#NoSpace\nmore\n");
    assert_eq!(MdDoc::rebuild_header(&g), "#NoSpace\nmore\n");
}

#[test]
fn header_unreadable_is_empty() {
    let mut f = file("P", "");
    f.content = None;
    assert_eq!(MdDoc::rebuild_header(&f), "");
}

#[test]
fn no_header_source_gives_empty_header() {
    let d = dir("Part 02", vec![file("a", "# A\n"), dir("Part 02", vec![])]);
    assert_eq!(MdDoc::read_header(&d), "");
    let e = dir("Empty", vec![]);
    assert_eq!(MdDoc::read_header(&e), "");
}

#[test]
fn first_header_source_wins() {
    let d = dir("H", vec![file("H", "# First\na\nb"), file("H", "# Second\nc\nd")]);
    assert_eq!(MdDoc::read_header(&d), "# H. First\n\na\nb");
}

#[test]
fn ends_with_pagebreak_cases() {
    let yes = format!("text\n{}\n\n  \n\t\n", pb());
    assert!(MdDoc::ends_with_pagebreak(&yes));
    let inline = format!("text\nbefore {} after\n", pb());
    assert!(MdDoc::ends_with_pagebreak(&inline));
    let no = format!("{}\ntext\n\n", pb());
    assert!(!MdDoc::ends_with_pagebreak(&no));
    assert!(!MdDoc::ends_with_pagebreak(""));
    assert!(!MdDoc::ends_with_pagebreak(" \n\t\n"));
    assert!(!MdDoc::ends_with_pagebreak("======================pagebreak"));
}

#[test]
fn pagebreaks_before_headings() {
    let out = MdDoc::add_pagebreakes("intro\n# A\ntext\n\n# B");
    let expected = format!("intro\n\n{pb}\n\n# A\ntext\n\n{pb}\n\n# B", pb = pb());
    assert_eq!(out, expected);
}

#[test]
fn pagebreaks_first_line_untouched() {
    assert_eq!(MdDoc::add_pagebreakes("# Top\nbody\n"), "# Top\nbody\n");
    assert_eq!(MdDoc::add_pagebreakes(""), "");
    assert_eq!(MdDoc::add_pagebreakes("## Sub\n#NoSpace\n"), "## Sub\n#NoSpace\n");
}

#[test]
fn pagebreaks_after_whitespace_line() {
    let out = MdDoc::add_pagebreakes("a\n \t\n# B");
    assert_eq!(out, format!("a\n \t\n{}\n\n# B", pb()));
}

#[test]
fn pagebreaks_twice_without_headings() {
    let text = "first\nsecond\n\n## sub\nlast\n";
    let once = MdDoc::add_pagebreakes(text);
    let twice = MdDoc::add_pagebreakes(&once);
    assert_eq!(once, text);
    assert_eq!(twice, once);
}

#[test]
fn directory_end_gets_blank_line_and_pagebreak() {
    let d = dir("D", vec![file("f", "text\n")]);
    let mut body = String::new();
    let mut title = None;
    MdDoc::combine(&d, &mut body, &mut title);
    assert_eq!(body, format!("text\n\n{}\n\n", pb()));
    assert!(title.is_none());
}

#[test]
fn directory_end_without_line_feed() {
    let d = dir("D", vec![file("f", "text")]);
    let mut body = String::new();
    let mut title = None;
    MdDoc::combine(&d, &mut body, &mut title);
    assert_eq!(body, format!("text\n\n{}\n\n", pb()));
    let e = dir("E", vec![]);
    let mut body = pb().to_string();
    MdDoc::combine(&e, &mut body, &mut title);
    assert_eq!(body, format!("{}\n\n", pb()));
}

#[test]
fn directory_end_keeps_existing_pagebreak() {
    let content = format!("text\n{}\n\n", pb());
    let d = dir("D", vec![file("f", &content)]);
    let mut body = String::new();
    let mut title = None;
    MdDoc::combine(&d, &mut body, &mut title);
    assert_eq!(body, content);
}

#[test]
fn traversal_order() {
    let tree = dir(
        "Root",
        vec![
            dir(
                "Part A",
                vec![file("Part A", "# Alpha\n"), file("one", "one\n"), file("two", "two\n")],
            ),
            dir("Part B", vec![file("Part B", "# Beta\nintro\nmore\n"), file("three", "three\n")]),
        ],
    );
    let mut body = String::new();
    let mut title = None;
    MdDoc::combine(&tree, &mut body, &mut title);
    let expected = format!(
        "# Part A. Alpha\n\n\n\none\ntwo\n\n{pb}\n\n# Part B. Beta\n\nintro\nmore\nthree\n\n{pb}\n\n",
        pb = pb()
    );
    assert_eq!(body, expected);
    assert!(title.is_none());
}

#[test]
fn title_short_circuit() {
    let tree = dir(
        "Root",
        vec![
            title_file("cover", "TITLE ONE\n"),
            dir("Sub", vec![title_file("cover2", "TITLE TWO\n"), file("b", "body\n")]),
        ],
    );
    let mut body = String::new();
    let mut title = None;
    MdDoc::combine(&tree, &mut body, &mut title);
    assert_eq!(title.unwrap().raw, "TITLE ONE\n");
    assert_eq!(body, format!("TITLE TWO\nbody\n\n{pb}\n\n", pb = pb()));
}

#[test]
fn unreadable_file_contributes_nothing() {
    let mut broken = file("x", "");
    broken.content = None;
    let d = dir("D", vec![broken, file("y", "y\n")]);
    let mut body = String::new();
    let mut title = None;
    MdDoc::combine(&d, &mut body, &mut title);
    assert_eq!(body, format!("y\n\n{}\n\n", pb()));
}

#[test]
fn second_header_source_is_content() {
    let d = dir("H", vec![file("H", "# First\na\nb"), file("H", "# Second\n")]);
    let mut body = String::new();
    let mut title = None;
    MdDoc::combine(&d, &mut body, &mut title);
    assert_eq!(body, format!("# H. First\n\na\nb# Second\n\n{}\n\n", pb()));
}

#[test]
fn eval_builds_document() {
    let tree = dir(
        "Root",
        vec![
            title_file("cover", "My Title\n"),
            dir("Part 01", vec![file("Part 01", "# Doc header\n"), file("a", "alpha\n")]),
            dir("Part 02", vec![file("Part 02", "# Next\n")]),
        ],
    );
    let doc = MdDoc::new(tree).eval();
    let expected = format!(
        "# Part 01. Doc header\n\n\n\nalpha\n\n{pb}\n\n{pb}\n\n# Part 02. Next\n\n\n\n{pb}\n\n",
        pb = pb()
    );
    assert_eq!(doc.markdown, expected);
    assert_eq!(doc.title.as_ref().unwrap().raw, "My Title\n");
    assert_eq!(doc.html, "");
    assert_eq!(doc.joined(), format!("My Title\n{}", expected));
}

#[test]
fn builders_and_joined() {
    let doc = MdDoc::new(dir("Root", vec![]));
    assert!(doc.title.is_none());
    assert_eq!(doc.markdown, "");
    assert_eq!(doc.html, "");
    assert_eq!(doc.joined(), "");
    let doc = doc.with_md("# md\n".to_string()).with_html("<h1>md</h1>".to_string());
    assert_eq!(doc.markdown, "# md\n");
    assert_eq!(doc.html, "<h1>md</h1>");
    assert_eq!(doc.joined(), "# md\n");
    assert_eq!(doc.dir.header, "Root");
}

#[test]
fn body_content_marker() {
    assert_eq!(MdDoc::BODY_CONTENT, "======================body-section-content======================");
    assert_eq!(MdDoc::PAGEBREAK, "======================pagebreak======================");
}
