use mintlify_hygiene::autofix::{apply_markdown_autofixes, autofix_rule_ids, replace_prose_em_dashes_in_body, should_autofix_file};
use mintlify_hygiene::dashes::{dash_offsets, fix_dashes};
use mintlify_hygiene::config::{ConfigFile, PathFilterOverrides, ProjectSection, RuleEntry, RulesSection};
use mintlify_hygiene::{resolve, Severity};

#[test]
fn em_dash_in_prose_replaced_not_in_fenced_code() {
    let src = "---\ntitle: T\n---\n\nHello\u{2014}world.\n\n```\nx\u{2014}y\n```\n";
    let out = replace_prose_em_dashes_in_body(src).expect("changed");
    assert!(out.contains("Hello - world."));
    assert!(out.contains("x\u{2014}y"), "code fence should keep em dash");
}

#[test]
fn em_dash_fix_keeps_frontmatter_and_other_text() {
    let src = "---\ntitle: A\u{2014}B\n---\n\nOne\u{2014}two and `c\u{2014}d`.\n\nThree\u{2014}four.\n";
    let out = replace_prose_em_dashes_in_body(src).expect("changed");
    assert_eq!(
        out,
        "---\ntitle: A\u{2014}B\n---\n\nOne - two and `c\u{2014}d`.\n\nThree - four.\n"
    );
}

#[test]
fn em_dash_fix_without_em_dash_is_none() {
    assert!(replace_prose_em_dashes_in_body("# Title\n\nplain text\n").is_none());
    assert!(replace_prose_em_dashes_in_body("```\na\u{2014}b\n```\n").is_none());
}

#[test]
fn replaces_each_written_em_dash() {
    assert_eq!(fix_dashes("a\u{2014}b\u{2014}", true), "a - b - ");
    assert_eq!(fix_dashes("none", true), "none");
    assert_eq!(fix_dashes("a&mdash;b&#8212;c&#x2014;d&#X02014;e", true), "a - b - c - d - e");
    assert_eq!(fix_dashes("a\\&mdash;b &amp; &#8211; &mdashx;", true), "a\\&mdash;b &amp; &#8211; &mdashx;");
    assert_eq!(fix_dashes("a\\\\&mdash;b", true), "a\\\\ - b");
    assert_eq!(fix_dashes("<b>&mdash;\u{2014}</b>", false), "<b>&mdash; - </b>");
}

#[test]
fn em_dash_offsets_count_bytes() {
    assert_eq!(dash_offsets("\u{e9}\u{2014}&mdash;x&#0008212;", true), vec![2, 5, 13]);
    assert_eq!(dash_offsets("&#12345678;&#x0002014;", true), Vec::<usize>::new());
    assert_eq!(dash_offsets("&mdash;\u{2014}", false), vec![7]);
}

fn config(prose_em_dash: bool) -> mintlify_hygiene::ResolvedConfig {
    let cfg = ConfigFile {
        project: ProjectSection {
            docs_dir: "docs".to_string(),
            includes: vec![],
            nav_file: "docs/docs.json".to_string(),
            exclude: vec!["docs/archive/**".to_string()],
        },
        rules: RulesSection {
            unescaped_lt: None,
            frontmatter_yaml: None,
            filename_chars: None,
            nav_registration: None,
            prose_em_dash: Some(RuleEntry { enabled: prose_em_dash, level: Severity::Warn }),
        },
    };
    match resolve("/site".to_string(), cfg, "/site/mintlify-hygiene.toml", &PathFilterOverrides::default()) {
        Ok(c) => c,
        Err(_) => panic!("config should resolve"),
    }
}

#[test]
fn autofixes_follow_the_rule_switch() {
    let src = "Hello\u{2014}world.\n";
    assert_eq!(apply_markdown_autofixes(src, &config(true)).as_deref(), Some("Hello - world.\n"));
    assert!(apply_markdown_autofixes(src, &config(false)).is_none());
}

#[test]
fn autofix_skips_excluded_and_non_markdown_files() {
    let cfg = config(true);
    assert!(should_autofix_file(&cfg, "/site/docs/a.md"));
    assert!(should_autofix_file(&cfg, "/site/docs/b.mdx"));
    assert!(!should_autofix_file(&cfg, "/site/docs/archive/old.md"));
    assert!(!should_autofix_file(&cfg, "/site/docs/notes.txt"));
}

#[test]
fn only_the_em_dash_rule_has_a_fix() {
    assert_eq!(autofix_rule_ids(), vec!["prose_em_dash"]);
}

fn em_dash_hits(src: &str) -> usize {
    mintlify_hygiene::markdown::check_markdown_body("/r", "/r/a.md", src, false, Severity::Error, true, Severity::Error)
        .len()
}

#[test]
fn fix_applies_where_the_rule_reports() {
    let flagged = "Intro\u{2014}text.\n";
    assert!(em_dash_hits(flagged) > 0);
    assert!(replace_prose_em_dashes_in_body(flagged).is_some());
    let code_only = "```\nx\u{2014}y\n```\n\n`a\u{2014}b`\n";
    assert_eq!(em_dash_hits(code_only), 0);
    assert!(replace_prose_em_dashes_in_body(code_only).is_none());
}

#[test]
fn fixed_page_has_no_prose_em_dash_left() {
    let src = "---\ntitle: A\u{2014}B\n---\n\n- one\u{2014}two\n- <span>x\u{2014}y</span>\n\n> quote \u{2014} here\n";
    let fixed = replace_prose_em_dashes_in_body(src).expect("changed");
    assert_eq!(em_dash_hits(&fixed), 0);
    assert!(fixed.starts_with("---\ntitle: A\u{2014}B\n---\n"));
}

#[test]
fn em_dash_fix_keeps_escapes_and_entities() {
    assert_eq!(replace_prose_em_dashes_in_body("a\\*b\u{2014}c*\n").as_deref(), Some("a\\*b - c*\n"));
    assert_eq!(
        replace_prose_em_dashes_in_body("x &amp;\u{2014} y\n").as_deref(),
        Some("x &amp; -  y\n")
    );
}

#[test]
fn autofix_result_differs_from_the_page() {
    let src = "Hello\u{2014}world.\n";
    let out = apply_markdown_autofixes(src, &config(true)).expect("changed");
    assert_ne!(out, src);
    assert!(apply_markdown_autofixes("plain\n", &config(true)).is_none());
}

#[test]
fn em_dash_fix_rewrites_references_to_the_em_dash() {
    assert_eq!(replace_prose_em_dashes_in_body("a&mdash;b\n").as_deref(), Some("a - b\n"));
    assert_eq!(
        replace_prose_em_dashes_in_body("x &#8212; y and `&mdash;`\n").as_deref(),
        Some("x  -  y and `&mdash;`\n")
    );
    assert!(replace_prose_em_dashes_in_body("a \\&mdash; b\n").is_none());
}
