use mintlify_hygiene::markdown::check_markdown_body;
use mintlify_hygiene::{Finding, Severity};

fn positions(v: &[Finding], rule: &str) -> Vec<(usize, usize)> {
    v.iter().filter(|f| f.rule_id == rule).map(|f| (f.line, f.column)).collect()
}

#[test]
fn unescaped_lt_in_table_and_prose_but_not_code() {
    let src = "# T\n\n| a | b |\n| - | - |\n| x | <200ms |\n\ntarget <10ms and `<a>`\n\n```\nif (x <b) {}\n```\n";
    let out = check_markdown_body("/r", "/r/docs/t.md", src, true, Severity::Error, true, Severity::Warn);
    assert_eq!(positions(&out, "unescaped_lt"), vec![(5, 7), (7, 8)]);
    assert!(positions(&out, "prose_em_dash").is_empty());
    let f = &out[0];
    assert_eq!(f.path, "docs/t.md");
    assert_eq!(f.severity, Severity::Error);
    assert_eq!(f.message, "raw `<` before a letter or digit; escape as `&lt;` outside code fences");
}

#[test]
fn lt_before_non_alphanumeric_is_fine() {
    let src = "a < b, x <= y, <!-- c -->\n";
    let out = check_markdown_body("/r", "/r/a.md", src, true, Severity::Error, true, Severity::Error);
    assert!(out.is_empty());
}

#[test]
fn em_dash_positions_count_from_the_page_start() {
    let src = "---\ntitle: x\u{2014}y\n---\n\nA\u{2014}B\n\n- item \u{2014} more\n";
    let out = check_markdown_body("/r", "/r/a.md", src, true, Severity::Error, true, Severity::Warn);
    assert_eq!(positions(&out, "prose_em_dash"), vec![(5, 2), (7, 8)]);
    assert!(out.iter().all(|f| f.severity == Severity::Warn));
    assert_eq!(
        out[0].message,
        "Unicode em dash (U+2014) in prose; use ASCII hyphen spacing instead"
    );
}

#[test]
fn disabled_rules_report_nothing() {
    let src = "x <b \u{2014}\n";
    let out = check_markdown_body("/r", "/r/a.md", src, false, Severity::Error, false, Severity::Error);
    assert!(out.is_empty());
    let only_lt = check_markdown_body("/r", "/r/a.md", src, true, Severity::Error, false, Severity::Error);
    assert_eq!(positions(&only_lt, "unescaped_lt"), vec![(1, 3)]);
    assert_eq!(only_lt.len(), 1);
}

#[test]
fn html_blocks_are_scanned() {
    let src = "<div>x\u{2014}y</div>\n";
    let out = check_markdown_body("/r", "/r/a.md", src, true, Severity::Error, true, Severity::Error);
    assert_eq!(positions(&out, "unescaped_lt"), vec![(1, 1)]);
    assert_eq!(positions(&out, "prose_em_dash"), vec![(1, 7)]);
}

#[test]
fn columns_count_bytes_after_multibyte_text() {
    let src = "\u{e9}\u{2014}x <b\n";
    let out = check_markdown_body("/r", "/r/a.md", src, true, Severity::Error, true, Severity::Error);
    assert_eq!(positions(&out, "prose_em_dash"), vec![(1, 3)]);
    assert_eq!(positions(&out, "unescaped_lt"), vec![(1, 8)]);
}

#[test]
fn escaped_lt_entity_is_not_reported() {
    let src = "Latency &lt;200ms\n";
    let out = check_markdown_body("/r", "/r/a.md", src, true, Severity::Error, true, Severity::Error);
    assert!(out.is_empty());
}

#[test]
fn raw_lt_after_entities_and_em_dashes_points_at_its_source() {
    let src = "&amp;\u{2014}\u{2014}<a\n";
    let out = check_markdown_body("/r", "/r/a.md", src, true, Severity::Error, true, Severity::Error);
    assert_eq!(positions(&out, "unescaped_lt"), vec![(1, 12)]);
    assert_eq!(positions(&out, "prose_em_dash"), vec![(1, 6), (1, 9)]);
}

#[test]
fn em_dash_written_as_a_reference_is_reported() {
    let src = "a&mdash;b, c &#8212; d, e&#x2014;\n";
    let out = check_markdown_body("/r", "/r/a.md", src, true, Severity::Error, true, Severity::Error);
    assert_eq!(positions(&out, "prose_em_dash"), vec![(1, 2), (1, 14), (1, 26)]);
    assert!(positions(&out, "unescaped_lt").is_empty());
}

#[test]
fn escaped_or_unknown_references_are_not_em_dashes() {
    let src = "a \\&mdash; b &ndash; c &mdashes; d `&mdash;`\n";
    let out = check_markdown_body("/r", "/r/a.md", src, true, Severity::Error, true, Severity::Error);
    assert!(out.is_empty());
}

#[test]
fn raw_html_keeps_references_as_written() {
    let src = "<div>&mdash;</div>\n";
    let out = check_markdown_body("/r", "/r/a.md", src, false, Severity::Error, true, Severity::Error);
    assert!(out.is_empty());
}

#[test]
fn findings_of_both_rules_are_those_of_each_rule() {
    let src = "> x <b \u{2014} y\n>\n> - <i>z</i>\u{2014}\n\n`<c>\u{2014}`\n";
    let both = check_markdown_body("/r", "/r/a.md", src, true, Severity::Error, true, Severity::Warn);
    let lt = check_markdown_body("/r", "/r/a.md", src, true, Severity::Error, false, Severity::Warn);
    let em = check_markdown_body("/r", "/r/a.md", src, false, Severity::Error, true, Severity::Warn);
    let none = check_markdown_body("/r", "/r/a.md", src, false, Severity::Error, false, Severity::Warn);
    assert!(none.is_empty());
    assert!(lt.iter().all(|f| f.rule_id == "unescaped_lt"));
    assert!(em.iter().all(|f| f.rule_id == "prose_em_dash"));
    let mut joined: Vec<(usize, usize, &str)> =
        lt.iter().chain(em.iter()).map(|f| (f.line, f.column, f.rule_id)).collect();
    let mut all: Vec<(usize, usize, &str)> = both.iter().map(|f| (f.line, f.column, f.rule_id)).collect();
    joined.sort();
    all.sort();
    assert_eq!(all, joined);
    assert_eq!(positions(&both, "unescaped_lt"), vec![(1, 5), (3, 5)]);
    assert_eq!(positions(&both, "prose_em_dash"), vec![(1, 8), (3, 13)]);
}

#[test]
fn nested_nodes_report_in_document_order() {
    let src = "# H <h1\n\n1. **<s>** and *<e>*\n\n| <t |\n| - |\n| <u |\n";
    let out = check_markdown_body("/r", "/r/a.md", src, true, Severity::Error, false, Severity::Error);
    assert_eq!(positions(&out, "unescaped_lt"), vec![(1, 5), (3, 6), (3, 17), (5, 3), (7, 3)]);
}
