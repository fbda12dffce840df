use sprout::date::Date;
use sprout::frontmatter::append_field;
use sprout::frontmatter::build_new_frontmatter;
use sprout::frontmatter::has_field;
use sprout::frontmatter::parse_note;
use sprout::frontmatter::replace_field;
use sprout::frontmatter::write_back;
use sprout::frontmatter::Maturity;

fn text(v: Vec<u8>) -> String {
    String::from_utf8(v).unwrap()
}

fn ups(pairs: &[(&str, &str)]) -> Vec<(Vec<u8>, Vec<u8>)> {
    pairs.iter().map(|(k, v)| (k.as_bytes().to_vec(), v.as_bytes().to_vec())).collect()
}

#[test]
fn test_parse_note_with_frontmatter() {
    let content = "---\nmaturity: seedling\nease: 2.5\n---\nHello world\n";
    let parsed = parse_note(content.as_bytes());
    assert!(parsed.frontmatter_raw.is_some());
    assert_eq!(parsed.sprout.maturity, Some(Maturity::Seedling));
    assert_eq!(parsed.sprout.ease, Some(250));
    assert_eq!(text(parsed.body).trim(), "Hello world");
}

#[test]
fn test_parse_note_without_frontmatter() {
    let content = "Hello world\n";
    let parsed = parse_note(content.as_bytes());
    assert!(parsed.frontmatter_raw.is_none());
    assert!(parsed.sprout.maturity.is_none());
}

#[test]
fn test_parse_note_crlf_normalization() {
    let content = "---\r\nmaturity: seedling\r\n---\r\nHello\r\n";
    let parsed = parse_note(content.as_bytes());
    assert!(parsed.frontmatter_raw.is_some());
    assert_eq!(parsed.sprout.maturity, Some(Maturity::Seedling));
}

#[test]
fn test_replace_field_preserves_comment() {
    let yaml = "review_interval: 3  # days\nease: 2.50\n";
    let result = text(replace_field(yaml.as_bytes(), b"review_interval", b"7"));
    assert!(result.contains("review_interval: 7  # days"));
    assert!(result.contains("ease: 2.50"));
}

#[test]
fn test_append_field() {
    let yaml = "maturity: seedling\n";
    let result = text(append_field(yaml.as_bytes(), b"ease", b"2.50"));
    assert!(result.contains("maturity: seedling\n"));
    assert!(result.contains("ease: 2.50\n"));
}

#[test]
fn test_has_field() {
    let yaml = "maturity: seedling\nease: 2.50\n";
    assert!(has_field(yaml.as_bytes(), b"maturity"));
    assert!(has_field(yaml.as_bytes(), b"ease"));
    assert!(!has_field(yaml.as_bytes(), b"created"));
}

#[test]
fn test_write_back_roundtrip() {
    let yaml = "tags: [rust]\nmaturity: seedling\nease: 2.50\n";
    let body = "Some content\n";
    let updates = ups(&[("ease", "2.65"), ("next_review", "2026-03-01")]);
    let result = text(write_back(yaml.as_bytes(), body.as_bytes(), &updates));
    assert!(result.contains("tags: [rust]"));
    assert!(result.contains("ease: 2.65"));
    assert!(result.contains("next_review: 2026-03-01"));
    assert!(result.contains("maturity: seedling"));
    assert!(result.starts_with("---\n"));
    assert!(result.contains("\n---\nSome content\n"));
}

#[test]
fn test_build_new_frontmatter() {
    let body = "Hello world\n";
    let fields = ups(&[("maturity", "seedling"), ("ease", "2.50")]);
    let result = text(build_new_frontmatter(&fields, body.as_bytes()));
    assert_eq!(result, "---\nmaturity: seedling\nease: 2.50\n---\nHello world\n");
}

#[test]
fn test_parse_note_empty_frontmatter() {
    let content = "---\n---\nBody only\n";
    let parsed = parse_note(content.as_bytes());
    assert!(parsed.sprout.maturity.is_none());
    assert!(text(parsed.body).contains("Body only"));
}

#[test]
fn test_parse_note_empty_content() {
    let parsed = parse_note(b"");
    assert!(parsed.frontmatter_raw.is_none());
    assert!(parsed.sprout.maturity.is_none());
}

#[test]
fn test_replace_field_no_match() {
    let yaml = "maturity: seedling\n";
    let result = text(replace_field(yaml.as_bytes(), b"nonexistent", b"value"));
    assert_eq!(result, yaml);
}

#[test]
fn test_append_field_empty_yaml() {
    let result = text(append_field(b"", b"maturity", b"seedling"));
    assert_eq!(result, "maturity: seedling\n");
}

#[test]
fn test_write_back_empty_yaml() {
    let body = "Content\n";
    let updates = ups(&[("maturity", "seedling")]);
    let result = text(write_back(b"", body.as_bytes(), &updates));
    assert!(result.contains("maturity: seedling"));
    assert!(result.contains("Content"));
    assert!(result.starts_with("---\n"));
}

#[test]
fn test_write_back_multiple_updates_same_field() {
    let yaml = "ease: 2.50\n";
    let body = "Body\n";
    // Last update wins
    let updates = ups(&[("ease", "2.65"), ("ease", "2.80")]);
    let result = text(write_back(yaml.as_bytes(), body.as_bytes(), &updates));
    assert!(result.contains("ease: 2.80"));
    assert!(!result.contains("ease: 2.65"));
}

#[test]
fn test_build_new_frontmatter_all_fields() {
    let body = "Note body\n";
    let fields = ups(&[
        ("maturity", "seedling"),
        ("created", "2026-02-26"),
        ("last_review", "2026-02-26"),
        ("review_interval", "1"),
        ("next_review", "2026-02-27"),
        ("ease", "2.50"),
    ]);
    let result = text(build_new_frontmatter(&fields, body.as_bytes()));
    assert!(result.starts_with("---\n"));
    assert!(result.ends_with("---\nNote body\n"));
    for (key, value) in
        [("maturity", "seedling"), ("created", "2026-02-26"), ("last_review", "2026-02-26"),
        ("review_interval", "1"), ("next_review", "2026-02-27"), ("ease", "2.50")] {
        assert!(result.contains(&format!("{key}: {value}")));
    }
}

#[test]
fn test_parse_note_with_all_dates() {
    let content = "---\nmaturity: seedling\ncreated: 2026-01-01\nlast_review: 2026-02-01\nnext_review: 2026-02-15\nreview_interval: 14\nease: 2.65\n---\nBody\n";
    let parsed = parse_note(content.as_bytes());
    assert_eq!(parsed.sprout.maturity, Some(Maturity::Seedling));
    assert_eq!(parsed.sprout.created, Some(Date { year: 2026, month: 1, day: 1 }));
    assert_eq!(parsed.sprout.last_review, Some(Date { year: 2026, month: 2, day: 1 }));
    assert_eq!(parsed.sprout.next_review, Some(Date { year: 2026, month: 2, day: 15 }));
    assert_eq!(parsed.sprout.review_interval, Some(14));
    assert_eq!(parsed.sprout.ease, Some(265));
}

#[test]
fn test_parse_note_with_unknown_keys() {
    let content = "---\ntags: [rust, zettelkasten]\nmaturity: budding\ncssclasses: note\n---\nBody\n";
    let parsed = parse_note(content.as_bytes());
    assert_eq!(parsed.sprout.maturity, Some(Maturity::Budding));
    // Unknown keys should not cause errors
    assert!(parsed.frontmatter_raw.is_some());
    let raw = text(parsed.frontmatter_raw.unwrap());
    assert!(raw.contains("tags:"));
    assert!(raw.contains("cssclasses:"));
}

#[test]
fn test_replace_field_with_current_value_is_identity() {
    // replacing a field with the value it already holds changes no byte
    let yaml = "tags: [a, b]   # keep\nease: 2.50\nmaturity: budding  # note\n";
    let same_ease = text(replace_field(yaml.as_bytes(), b"ease", b"2.50"));
    assert_eq!(same_ease, yaml);
    let same_maturity = text(replace_field(yaml.as_bytes(), b"maturity", b"budding"));
    assert_eq!(same_maturity, yaml);
}

#[test]
fn test_write_back_preserves_unknown_keys_and_comments() {
    let content = "---\ntags: [rust]   # projects\nalias: other name\nmaturity: seedling\nease: 2.50\n# plain comment line\n---\nBody text\n";
    let parsed = parse_note(content.as_bytes());
    let raw = parsed.frontmatter_raw.unwrap();
    let updates = ups(&[("ease", "2.65"), ("review_interval", "4")]);
    let result = text(write_back(&raw, &parsed.body, &updates));
    assert!(result.contains("tags: [rust]   # projects"));
    assert!(result.contains("alias: other name"));
    assert!(result.contains("# plain comment line"));
    assert!(result.contains("maturity: seedling"));
    assert!(result.contains("ease: 2.65"));
    assert!(result.contains("review_interval: 4"));
    assert!(result.ends_with("---\nBody text\n"));
}

#[test]
fn test_parse_unclosed_block_reads_as_no_metadata() {
    let parsed = parse_note(b"---\nmaturity: seedling\nno closing marker");
    assert!(parsed.frontmatter_raw.is_none());
    assert!(parsed.sprout.maturity.is_none());
}
