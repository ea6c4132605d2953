use mda_core::comrak_ast::{AstEvent, NodeKind};
use mda_core::markdown::{
    atx_heading, document_from_events, has_scheme, normalize_block, parse_str, parse_str_as,
    split_lines, token_estimate, Flavor,
};

#[test]
fn preamble_without_heading_is_a_section() {
    let doc = parse_str("Just a note.\n\nSecond paragraph.\n");
    assert_eq!(doc.sections.len(), 1);
    let s = &doc.sections[0];
    assert_eq!(s.level, 0);
    assert!(s.heading_path.is_empty());
    assert_eq!((s.line_start, s.line_end), (1, 3));
    assert!(doc.title.is_none());
}

#[test]
fn front_matter_is_excluded_from_sections() {
    let doc = parse_str("---\ntitle: x\n---\n\n# H\n\nbody\n");
    assert_eq!(doc.frontmatter.as_deref(), Some("title: x"));
    assert_eq!(doc.sections.len(), 1);
    assert_eq!(doc.sections[0].line_start, 5);
}

#[test]
fn front_matter_then_preamble() {
    let doc = parse_str("---\na: 1\n---\nintro line\n\n# H\n");
    assert_eq!(doc.sections[0].level, 0);
    assert_eq!((doc.sections[0].line_start, doc.sections[0].line_end), (4, 4));
}

#[test]
fn crlf_and_trailing_whitespace_do_not_change_hashes() {
    let a = parse_str("# T\n\nhello world\n\n## S\n\ntext\n");
    let b = parse_str("# T   \r\n\r\nhello world  \r\n\r\n## S\r\n\r\ntext\r\n");
    assert_eq!(a.hash, b.hash);
    assert_eq!(a.sections.len(), b.sections.len());
    for (x, y) in a.sections.iter().zip(&b.sections) {
        assert_eq!(x.hash, y.hash);
        assert_eq!((x.line_start, x.line_end), (y.line_start, y.line_end));
    }
}

#[test]
fn inserting_text_above_shifts_lines_but_not_hash() {
    let a = parse_str("# A\n\none\n\n# B\n\ntwo\n");
    let b = parse_str("# A\n\none\nmore\nlines\n\n# B\n\ntwo\n");
    let (sa, sb) = (&a.sections[1], &b.sections[1]);
    assert_eq!(sa.hash, sb.hash);
    assert_ne!(sa.line_start, sb.line_start);
}

#[test]
fn heading_only_section_has_one_line() {
    let doc = parse_str("# A\n# B\n");
    assert_eq!(doc.sections.len(), 2);
    assert_eq!((doc.sections[0].line_start, doc.sections[0].line_end), (1, 1));
    assert_eq!((doc.sections[1].line_start, doc.sections[1].line_end), (2, 2));
}

#[test]
fn heading_path_pops_on_level_decrease() {
    let doc = parse_str("# A\n## B\n### C\n## D\n# E\n");
    let paths: Vec<usize> = doc.sections.iter().map(|s| s.heading_path.len()).collect();
    assert_eq!(paths, vec![1, 2, 3, 2, 1]);
    assert_eq!(doc.sections[3].heading_path, vec!["A", "D"]);
}

#[test]
fn skipped_levels_still_nest() {
    let doc = parse_str("# A\n#### D\n## B\n");
    assert_eq!(doc.sections[1].heading_path, vec!["A", "D"]);
    assert_eq!(doc.sections[2].heading_path, vec!["A", "B"]);
}

#[test]
fn heading_with_inline_code_and_emphasis() {
    let doc = parse_str("## Run `mda start` *now*\n");
    assert_eq!(doc.sections[0].heading_path, vec!["Run mda start now"]);
}

#[test]
fn setext_headings_span_two_lines() {
    let doc = parse_str("Title\n=====\n\nbody\n\nSub\n---\n\nmore\n");
    assert_eq!(doc.title.as_deref(), Some("Title"));
    assert_eq!(doc.sections.len(), 2);
    assert_eq!((doc.sections[0].line_start, doc.sections[0].line_end), (1, 4));
    assert_eq!((doc.sections[1].line_start, doc.sections[1].line_end), (6, 9));
}

#[test]
fn hashes_in_code_fences_are_not_headings() {
    let doc = parse_str("# A\n\n```sh\n# not a heading\necho hi\n```\n");
    assert_eq!(doc.sections.len(), 1);
    assert_eq!(doc.sections[0].code_langs, vec!["sh"]);
}

#[test]
fn unlabelled_fence_counts_as_text() {
    let doc = parse_str("# A\n\n```\nraw\n```\n");
    assert_eq!(doc.sections[0].code_langs, vec!["text"]);
}

#[test]
fn empty_and_blank_documents() {
    assert!(parse_str("").sections.is_empty());
    assert!(parse_str("\n\n   \n").sections.is_empty());
    assert_eq!(parse_str("").line_count, 0);
}

#[test]
fn token_estimate_is_ceil_chars_over_four() {
    assert_eq!(token_estimate(""), 0);
    assert_eq!(token_estimate("abcd"), 1);
    assert_eq!(token_estimate("abcde"), 2);
}

#[test]
fn scheme_detection() {
    assert!(has_scheme("https://x.y"));
    assert!(has_scheme("mailto:a@b.c"));
    assert!(!has_scheme("docs/a.md"));
    assert!(!has_scheme("#anchor"));
    assert!(!has_scheme("C:\\not\\a\\url"));
}

#[test]
fn links_tables_and_titles() {
    let doc = parse_str(
        "---\ntitle: \"Front\"\n---\n\n## Contacts\n\n| a | b |\n|---|---|\n| 1 | 2 |\n\nSee [adr](../adr/x.md), [c](#contacts) and [s](https://status.example.com).\n",
    );
    assert_eq!(doc.title.as_deref(), Some("Front"));
    assert!(doc.sections[0].has_tables);
    assert_eq!(doc.links_internal, vec!["../adr/x.md", "#contacts"]);
    assert_eq!(doc.links_external, vec!["https://status.example.com"]);
}

#[test]
fn mdx_esm_block_is_excluded_and_names_the_page() {
    let text = "import { Tabs } from 'x'\nexport const title = \"Padding\";\n\n## Usage\n\nbody\n";
    let doc = parse_str_as(text, Flavor::Mdx);
    assert_eq!(doc.title.as_deref(), Some("Padding"));
    assert_eq!(doc.sections.len(), 1);
    assert_eq!(doc.sections[0].line_start, 4);
    assert_eq!(Flavor::of_path("docs/a.MDX"), Flavor::Mdx);
    assert_eq!(Flavor::of_path("docs/a.md"), Flavor::Markdown);
}

#[test]
fn heading_inside_html_block_still_opens_a_section() {
    let doc = parse_str("<div>\n## Inside\n</div>\n\nafter\n");
    assert!(doc.sections.iter().any(|s| s.heading_path == vec!["Inside"]));
}

fn samples() -> Vec<String> {
    let mut out = vec![
        String::new(),
        "#".to_owned(),
        "# a\n#\n##  \n".to_owned(),
        "`# x`\n\n* y\n# z\n\n\n".to_owned(),
        "text\n---\n# h\n  # i\n    # j\n".to_owned(),
        "```\n# no\n```\n## yes\n~~~\n".to_owned(),
    ];
    for seed in 0u64..60 {
        let mut s = String::new();
        let mut x = seed.wrapping_mul(0x9E37_79B9_7F4A_7C15).wrapping_add(7);
        for _ in 0..40 {
            x ^= x << 13;
            x ^= x >> 7;
            x ^= x << 17;
            let c = match x % 9 {
                0 | 1 => '\n',
                2 => '#',
                3 => ' ',
                4 => '`',
                5 => '*',
                _ => (b'a' + (x % 26) as u8) as char,
            };
            s.push(c);
        }
        out.push(s);
    }
    out
}

#[test]
fn section_ranges_are_well_formed() {
    for text in samples() {
        let doc = parse_str(&text);
        let mut prev_end = 0u32;
        for (i, s) in doc.sections.iter().enumerate() {
            assert_eq!(s.index as usize, i);
            assert!(s.line_start >= 1);
            assert!(s.line_end >= s.line_start, "{s:?}");
            assert!(s.line_end <= doc.line_count.max(1));
            assert!(s.line_start > prev_end, "overlap at section {i}");
            prev_end = s.line_end;
            assert!(!s.text.trim().is_empty());
            assert_eq!(s.hash.len(), 64);
        }
    }
}

#[test]
fn crlf_invariance() {
    for text in samples() {
        let lf = parse_str(&text);
        let crlf = parse_str(&text.replace('\n', "\r\n"));
        assert_eq!(lf.hash, crlf.hash);
        let a: Vec<_> = lf.sections.iter().map(|s| (s.line_start, s.line_end, s.hash.clone())).collect();
        let b: Vec<_> = crlf.sections.iter().map(|s| (s.line_start, s.line_end, s.hash.clone())).collect();
        assert_eq!(a, b);
    }
}

#[test]
fn section_text_matches_its_lines() {
    for text in samples() {
        let doc = parse_str(&text);
        let chars: Vec<char> = text.chars().collect();
        let lines = split_lines(&chars);
        for s in &doc.sections {
            assert_eq!(s.text, normalize_block(&lines, (s.line_start - 1) as usize, s.line_end as usize));
        }
    }
}

fn open(kind: NodeKind, start_line: usize, end_line: usize) -> AstEvent {
    AstEvent { open: true, kind, start_line, end_line }
}

fn close() -> AstEvent {
    AstEvent { open: false, kind: NodeKind::Other, start_line: 0, end_line: 0 }
}

#[test]
fn sections_follow_the_given_tree() {
    let text = "# Title\n\nHello [a](b.md) and [c](https://x.y)\n## Sub\n```rust\nfn f() {}\n```\n";
    let events = vec![
        open(NodeKind::Other, 1, 7),
        open(NodeKind::Heading(1), 1, 1),
        open(NodeKind::Text("Title".to_owned()), 1, 1),
        close(),
        close(),
        open(NodeKind::Other, 3, 3),
        open(NodeKind::Link("b.md".to_owned()), 3, 3),
        close(),
        open(NodeKind::Link("https://x.y".to_owned()), 3, 3),
        close(),
        close(),
        open(NodeKind::Heading(2), 4, 4),
        open(NodeKind::Text("Sub".to_owned()), 4, 4),
        close(),
        close(),
        open(NodeKind::CodeBlock(true, "rust".to_owned()), 5, 7),
        close(),
        close(),
    ];
    let doc = document_from_events(text, &events, Flavor::Markdown);
    assert_eq!(doc.title.as_deref(), Some("Title"));
    assert_eq!(doc.sections.len(), 2);
    assert_eq!(doc.sections[0].heading_path, vec!["Title"]);
    assert_eq!((doc.sections[0].line_start, doc.sections[0].line_end), (1, 3));
    assert_eq!(doc.sections[1].heading_path, vec!["Title", "Sub"]);
    assert_eq!(doc.sections[1].level, 2);
    assert_eq!((doc.sections[1].line_start, doc.sections[1].line_end), (4, 7));
    assert_eq!(doc.sections[1].code_langs, vec!["rust"]);
    assert_eq!(doc.links_internal, vec!["b.md"]);
    assert_eq!(doc.links_external, vec!["https://x.y"]);
    // The same text through the real parser gives the same outline.
    let parsed = parse_str(text);
    assert_eq!(parsed.sections.len(), 2);
    assert_eq!(parsed.sections[1].heading_path, doc.sections[1].heading_path);
    assert_eq!(parsed.links_internal, doc.links_internal);
}

#[test]
fn a_heading_before_the_body_is_ignored_and_a_shallower_one_pops_the_stack() {
    let text = "# A\n### B\n## C\n";
    let events = vec![
        open(NodeKind::Other, 1, 3),
        open(NodeKind::Heading(1), 1, 1),
        open(NodeKind::Text("A".to_owned()), 1, 1),
        close(),
        close(),
        open(NodeKind::Heading(3), 2, 2),
        open(NodeKind::Text("B".to_owned()), 2, 2),
        close(),
        close(),
        open(NodeKind::Heading(2), 3, 3),
        open(NodeKind::Text("C".to_owned()), 3, 3),
        close(),
        close(),
        close(),
    ];
    let doc = document_from_events(text, &events, Flavor::Markdown);
    let paths: Vec<Vec<String>> = doc.sections.iter().map(|s| s.heading_path.clone()).collect();
    assert_eq!(paths, vec![vec!["A".to_owned()], vec!["A".to_owned(), "B".to_owned()], vec!["A".to_owned(), "C".to_owned()]]);
}

#[test]
fn atx_heading_reads_level_and_text() {
    assert_eq!(atx_heading("## Deploy *now*"), Some((2, "Deploy now".to_owned())));
    assert_eq!(atx_heading("   # Title #"), Some((1, "Title".to_owned())));
    assert_eq!(atx_heading("    # code"), None);
    assert_eq!(atx_heading("#hashtag"), None);
    assert_eq!(atx_heading("####### seven"), None);
}

#[test]
fn line_endings_do_not_change_the_document() {
    let lf = "---\ntitle: T\n---\n# A\n\ntext [l](x.md)\n## B\n- item\n```sh\nls\n```\n";
    assert_eq!(parse_str(lf), parse_str(&lf.replace('\n', "\r\n")));
}
