use mintlify_hygiene::frontmatter::{body_start_byte, check_frontmatter_yaml, line_col_at_byte, split_frontmatter};
use mintlify_hygiene::Severity;

#[test]
fn splits_standard_frontmatter() {
    let s = "---\ntitle: x\n---\n\n# Hi\n";
    let (y, b) = split_frontmatter(s).unwrap();
    assert_eq!(y, "title: x");
    assert_eq!(b, "\n# Hi\n");
}

#[test]
fn splits_crlf_frontmatter() {
    let s = "---\r\ntitle: x\r\n---\r\nbody";
    let (y, b) = split_frontmatter(s).unwrap();
    assert_eq!(y, "title: x");
    assert_eq!(b, "body");
    assert_eq!(body_start_byte(s), 20);
}

#[test]
fn yaml_text_is_the_shortest_block() {
    let s = "---\na: 1\n---\nb: 2\n---\nrest";
    let (y, b) = split_frontmatter(s).unwrap();
    assert_eq!(y, "a: 1");
    assert_eq!(b, "b: 2\n---\nrest");
}

#[test]
fn empty_yaml_block() {
    let s = "---\n\n---\nx";
    let (y, b) = split_frontmatter(s).unwrap();
    assert_eq!(y, "");
    assert_eq!(b, "x");
}

#[test]
fn no_frontmatter_without_opening_line() {
    assert!(split_frontmatter("# Title\n---\na\n---\n").is_none());
    assert!(split_frontmatter("--- \na\n---\n").is_none());
    assert_eq!(body_start_byte("# Title\n"), 0);
}

#[test]
fn no_frontmatter_without_closing_line() {
    assert!(split_frontmatter("---\ntitle: x\n").is_none());
    assert!(split_frontmatter("---\ntitle: x\n---").is_none());
    assert!(split_frontmatter("---\ntitle: x\n---x\n").is_none());
    assert_eq!(body_start_byte("---\ntitle: x\n---"), 0);
}

#[test]
fn body_start_after_closing_line() {
    let s = "---\ntitle: x\n---\n\n# Hi\n";
    assert_eq!(body_start_byte(s), 17);
    assert_eq!(&s[body_start_byte(s)..], "\n# Hi\n");
}

#[test]
fn line_and_column_of_offsets() {
    let s = "ab\ncd\n\u{e9}f";
    assert_eq!(line_col_at_byte(s, 0), (1, 1));
    assert_eq!(line_col_at_byte(s, 1), (1, 2));
    assert_eq!(line_col_at_byte(s, 2), (1, 3));
    assert_eq!(line_col_at_byte(s, 3), (2, 1));
    assert_eq!(line_col_at_byte(s, 5), (2, 3));
    assert_eq!(line_col_at_byte(s, 6), (3, 1));
    assert_eq!(line_col_at_byte(s, 8), (3, 3));
    assert_eq!(line_col_at_byte(s, 100), (3, 4));
}

#[test]
fn invalid_yaml_reports_one_finding() {
    let src = "---\ntitle: Broken frontmatter quoting\ndescription: \"This string contains a \"nested\" quote without escaping\"\n---\n\n# Body\n";
    let out = check_frontmatter_yaml("/repo", "/repo/docs/a.md", src, Severity::Warn);
    assert_eq!(out.len(), 1);
    let f = &out[0];
    assert_eq!(f.rule_id, "frontmatter_yaml");
    assert_eq!(f.severity, Severity::Warn);
    assert_eq!(f.path, "docs/a.md");
    assert_eq!((f.line, f.column), (2, 1));
    assert!(f
        .message
        .starts_with("frontmatter is not valid YAML (inner quotes in double-quoted scalars often cause this): "));
    assert!(f.message.len() > 90);
}

#[test]
fn valid_or_missing_yaml_reports_nothing() {
    let ok = "---\ntitle: 'He said \"yes\" once.'\n---\nbody\n";
    assert!(check_frontmatter_yaml("/r", "/r/a.md", ok, Severity::Error).is_empty());
    assert!(check_frontmatter_yaml("/r", "/r/a.md", "no frontmatter: [", Severity::Error).is_empty());
}
