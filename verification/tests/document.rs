use markstore::chunk::{break_score, chunk_document, estimate_tokens};
use markstore::document::{
    choose_title, content_id, extract_h1, parse_frontmatter, sha256_hex, Frontmatter, Timestamp,
};

#[test]
fn parse_frontmatter_extracts_title() {
    let md = "---\ntitle: Hello\n---\n# Body";
    let (fm, body) = parse_frontmatter(md);
    assert_eq!(fm.get("title").and_then(|v| v.as_str()), Some("Hello"));
    assert_eq!(body, "# Body");
}

#[test]
fn content_id_is_stable() {
    let id1 = content_id("hello world");
    let id2 = content_id("hello world");
    assert_eq!(id1, id2);
    assert_eq!(id1.len(), 12);
}

#[test]
fn chunk_document_single_chunk_for_short_doc() {
    let body = "Short document.";
    let chunks = chunk_document("abc123", "Title", body);
    assert_eq!(chunks.len(), 1);
    assert_eq!(chunks[0].content, body);
}

#[test]
fn hashes_are_those_of_sha256() {
    assert_eq!(
        sha256_hex("hello world"),
        "b94d27b9934d3e08a52e52d7da7dabfac484efe37a5380ee9088f7ace2efcde9"
    );
    assert_eq!(
        sha256_hex(""),
        "e3b0c44298fc1c149afbf4c8996fb92427ae41e4649b934ca495991b7852b855"
    );
    assert_eq!(content_id("hello world"), "b94d27b9934d");
}

#[test]
fn text_without_frontmatter_is_all_body() {
    let (fm, body) = parse_frontmatter("# Title\n\ntext");
    assert!(fm.fields.is_empty());
    assert_eq!(body, "# Title\n\ntext");
}

#[test]
fn unclosed_frontmatter_is_body() {
    let md = "---\ntitle: Hello\n# Body";
    let (fm, body) = parse_frontmatter(md);
    assert!(fm.fields.is_empty());
    assert_eq!(body, md);
}

#[test]
fn invalid_frontmatter_has_no_fields_but_is_cut_off() {
    let (fm, body) = parse_frontmatter("---\n- a\n- b\n---\nBody");
    assert!(fm.fields.is_empty());
    assert_eq!(body, "Body");
}

#[test]
fn frontmatter_values_keep_their_json() {
    let (fm, body) = parse_frontmatter("---\nyear: 2024\ntags: [a, b]\ntitle: 'x'\n---\n\nBody");
    assert_eq!(body, "\nBody");
    assert_eq!(fm.get("year").map(|v| v.json.as_str()), Some("2024"));
    assert_eq!(fm.get("year").and_then(|v| v.as_str()), None);
    assert_eq!(fm.get("tags").map(|v| v.json.as_str()), Some("[\"a\",\"b\"]"));
    assert_eq!(fm.get("title").map(|v| v.json.as_str()), Some("\"x\""));
    assert!(fm.get("missing").is_none());
}

#[test]
fn first_heading_is_found() {
    assert_eq!(extract_h1("text\n## Two\n#  One \n# Next"), Some("One".to_string()));
    assert_eq!(extract_h1("## Two\n#None"), None);
}

#[test]
fn titles_come_from_frontmatter_then_heading_then_fallback() {
    let (fm, _) = parse_frontmatter("---\ntitle: Front\n---\n");
    assert_eq!(choose_title(&fm, "# Head", "file"), "Front");
    assert_eq!(choose_title(&Frontmatter::new(), "# Head", "file"), "Head");
    assert_eq!(choose_title(&Frontmatter::new(), "text", "file"), "file");
}

#[test]
fn numeric_title_is_no_title() {
    let (fm, _) = parse_frontmatter("---\ntitle: 7\n---\n");
    assert_eq!(choose_title(&fm, "# Head", "file"), "Head");
}

#[test]
fn tokens_are_a_quarter_of_the_bytes() {
    assert_eq!(estimate_tokens(""), 1);
    assert_eq!(estimate_tokens("abc"), 1);
    assert_eq!(estimate_tokens("abcdefgh"), 2);
    assert_eq!(estimate_tokens("éééé"), 2);
}

#[test]
fn break_scores_prefer_headings() {
    assert_eq!(break_score("# a", false), 100);
    assert_eq!(break_score("## a", false), 90);
    assert_eq!(break_score("### a", false), 80);
    assert_eq!(break_score("#### a", false), 70);
    assert_eq!(break_score("```rust", false), 80);
    assert_eq!(break_score("```", true), 80);
    assert_eq!(break_score("# a", true), 0);
    assert_eq!(break_score(" --- ", false), 60);
    assert_eq!(break_score("***", false), 60);
    assert_eq!(break_score("   ", false), 20);
    assert_eq!(break_score("- item", false), 5);
    assert_eq!(break_score("* item", false), 5);
    assert_eq!(break_score("+ item", false), 5);
    assert_eq!(break_score("1. item", false), 5);
    assert_eq!(break_score("12", false), 1);
    assert_eq!(break_score("prose", false), 1);
}

#[test]
fn empty_body_has_no_chunks() {
    assert!(chunk_document("d", "t", "").is_empty());
}

#[test]
fn long_body_is_cut_at_a_heading_with_overlap() {
    // Each line counts 25 tokens, so the target is reached at line 35.
    let line = "x".repeat(100);
    let mut lines: Vec<String> = vec![line.clone(); 60];
    lines[38] = "# Next part".to_string();
    let body = lines.join("\n");
    let chunks = chunk_document("doc", "T", &body);
    assert_eq!(chunks.len(), 2);
    assert_eq!(chunks[0].id, "doc_0");
    assert_eq!(chunks[1].id, "doc_1");
    assert_eq!(chunks[0].content, lines[..39].join("\n"));
    // 135 tokens of overlap: the heading (2) and six lines (25 each) before the cut.
    assert_eq!(chunks[1].content, lines[32..].join("\n"));
    assert_eq!(chunks[1].title, "T");
    assert_eq!(chunks[1].doc_id, "doc");
    assert_eq!(chunks[1].chunk_index, 1);
}

#[test]
fn every_line_is_in_some_chunk() {
    let lines: Vec<String> = (0..300).map(|i| format!("line {} {}", i, "y".repeat(40))).collect();
    let chunks = chunk_document("doc", "T", &lines.join("\n"));
    assert!(chunks.len() > 2);
    for line in &lines {
        assert!(chunks.iter().any(|c| c.content.lines().any(|l| l == line)));
    }
    for pair in chunks.windows(2) {
        assert!(pair[0].chunk_index < pair[1].chunk_index);
    }
}

#[test]
fn instants_count_nanoseconds() {
    let t = Timestamp { secs: 2, nanos: 5 };
    assert_eq!(t.instant(), 2_000_000_005);
    let early = Timestamp { secs: -1, nanos: 0 };
    assert_eq!(early.instant(), -1_000_000_000);
}
