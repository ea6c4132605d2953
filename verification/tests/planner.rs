use mda_core::markdown::parse_str;
use mda_core::planner::{chunk_text, decimal, plan, PlanConfig};

#[test]
fn small_sections_are_passed_through() {
    let doc = parse_str("# A\n\nshort\n\n# B\n\nalso short\n");
    let chunks = plan(&doc, &PlanConfig::default());
    assert_eq!(chunks.len(), 2);
    assert!(chunks.iter().all(|c| !c.truncated));
    assert_eq!(chunks[1].text, doc.sections[1].text);
    assert_eq!(chunks[1].section_hash, doc.sections[1].hash);
    assert_eq!(chunks[1].heading_path, vec!["B"]);
}

#[test]
fn large_section_is_truncated_at_a_blank_line() {
    let para = "word ".repeat(50);
    let text = format!("# Big\n\n{para}\n\n{para}\n\n{para}\n\n{para}\n");
    let doc = parse_str(&text);
    let cfg = PlanConfig { max_tokens: 100 };
    let c = &plan(&doc, &cfg)[0];
    assert!(c.truncated);
    assert!(c.text.contains("truncated for summarization"));
    assert!(c.token_estimate <= 120, "marker adds a little: {}", c.token_estimate);
    assert!(c.text.starts_with("# Big\n\nword "));
    let body = c.text.split("\n\n[…").next().unwrap();
    assert!(body.ends_with("word") || body.ends_with("word "), "{body:?}");
}

#[test]
fn never_cuts_inside_a_code_fence() {
    let code = "line of code\n".repeat(40);
    let text = format!("# Big\n\nintro paragraph here.\n\n```rust\n{code}```\n\nafter\n");
    let doc = parse_str(&text);
    let cfg = PlanConfig { max_tokens: 60 };
    let c = &plan(&doc, &cfg)[0];
    assert!(c.truncated);
    let body = c.text.split("\n\n[…").next().unwrap();
    assert!(!body.contains("```rust"), "fence must be cut before it opens: {body}");
    assert!(body.contains("intro paragraph"));
}

#[test]
fn no_blank_line_keeps_at_least_the_heading() {
    let text = format!("# H\n{}\n", "x".repeat(2000));
    let doc = parse_str(&text);
    let c = &plan(&doc, &PlanConfig { max_tokens: 10 })[0];
    assert!(c.truncated);
    assert!(c.text.starts_with("# H\n"));
}

#[test]
fn truncation_marker_counts_dropped_lines() {
    let text = format!("# H\n\n{}", "para\n\n".repeat(30));
    let doc = parse_str(&text);
    let c = &plan(&doc, &PlanConfig { max_tokens: 8 })[0];
    let dropped: usize = c
        .text
        .rsplit("summarization: ")
        .next()
        .and_then(|s| s.split(' ').next())
        .and_then(|n| n.parse().ok())
        .unwrap();
    assert!(dropped > 0);
}

#[test]
fn exact_cut_and_marker() {
    let (text, cut) = chunk_text("# H\n\nab\n\ncd\nef", &PlanConfig { max_tokens: 3 });
    assert!(cut);
    assert_eq!(text, "# H\n\nab\n\n[… section truncated for summarization: 3 more lines not shown]");
    let (same, cut) = chunk_text("short", &PlanConfig { max_tokens: 3 });
    assert!(!cut);
    assert_eq!(same, "short");
}

#[test]
fn decimal_renders_numbers() {
    assert_eq!(decimal(0), "0");
    assert_eq!(decimal(7), "7");
    assert_eq!(decimal(1203), "1203");
}
