use mintlify_hygiene::config::{PathFilterOverrides, ProjectSection, RuleEntry, RulesSection};
use mintlify_hygiene::lint::{check_filename_chars, doc_slug, is_markdown_doc_file, lint_file, lint_files, should_check_file};
use mintlify_hygiene::nav::{nav_slugs, JsonValue};
use mintlify_hygiene::{resolve, ConfigFile, Finding, ResolvedConfig, Severity};

fn config(em_dash_level: Severity) -> ResolvedConfig {
    let cfg = ConfigFile {
        project: ProjectSection {
            docs_dir: "docs".to_string(),
            includes: vec![],
            nav_file: "docs/docs.json".to_string(),
            exclude: vec![],
        },
        rules: RulesSection {
            unescaped_lt: None,
            frontmatter_yaml: None,
            filename_chars: None,
            nav_registration: None,
            prose_em_dash: Some(RuleEntry { enabled: true, level: em_dash_level }),
        },
    };
    match resolve("/site".to_string(), cfg, "/site/mintlify-hygiene.toml", &PathFilterOverrides::default()) {
        Ok(c) => c,
        Err(_) => panic!("config should resolve"),
    }
}

fn nav(pages: Vec<&str>) -> mintlify_hygiene::nav::NavSlugs {
    let list = JsonValue::Array(pages.into_iter().map(|p| JsonValue::String(p.to_string())).collect());
    nav_slugs(&JsonValue::Object(vec![(
        "navigation".to_string(),
        JsonValue::Object(vec![("pages".to_string(), list)]),
    )]))
}

fn ids(v: &[Finding]) -> Vec<&'static str> {
    v.iter().map(|f| f.rule_id).collect()
}

#[test]
fn markdown_files_by_extension() {
    assert!(is_markdown_doc_file("/a/b.md"));
    assert!(is_markdown_doc_file("b.mdx"));
    assert!(!is_markdown_doc_file("b.txt"));
    assert!(!is_markdown_doc_file("/a/.md"));
    assert!(!is_markdown_doc_file("/a/md"));
}

#[test]
fn slugs_of_pages() {
    let c = config(Severity::Error);
    assert_eq!(doc_slug(&c, "/site/docs/guides/intro.mdx"), "guides/intro");
    assert_eq!(doc_slug(&c, "/elsewhere/x.md"), "/elsewhere/x");
}

#[test]
fn parentheses_in_file_names() {
    let c = config(Severity::Error);
    let mut v = Vec::new();
    check_filename_chars(&c, "/site/docs/weird-(1)-name.md", &mut v);
    assert_eq!(v.len(), 1);
    assert_eq!(v[0].rule_id, "filename_chars");
    assert_eq!(v[0].path, "docs/weird-(1)-name.md");
    assert_eq!(
        v[0].message,
        "path segment `weird-(1)-name.md` contains `(` or `)`; Mintlify routing can break - use only letters, digits, `_`, `-`, and `.`"
    );
    let mut w = Vec::new();
    check_filename_chars(&c, "/site/docs/a(b)/c(d).md", &mut w);
    assert_eq!(w.len(), 1);
    assert!(w[0].message.starts_with("path segment `a(b)`"));
    let mut none = Vec::new();
    check_filename_chars(&c, "/site/docs/fine-name.md", &mut none);
    check_filename_chars(&c, "/outside/(x).md", &mut none);
    assert!(none.is_empty());
}

#[test]
fn failing_page_reports_every_rule() {
    let c = config(Severity::Warn);
    let slugs = nav(vec!["index"]);
    let src = "---\ndescription: \"a \"b\" c\"\n---\n\nSlow <200ms\u{2014}bad.\n";
    let out = lint_file(&c, "/site/docs/weird-(1).md", src, Some(&slugs));
    assert_eq!(
        ids(&out),
        vec!["filename_chars", "frontmatter_yaml", "unescaped_lt", "prose_em_dash", "nav_registration"]
    );
    let nav_finding = &out[4];
    assert_eq!(
        nav_finding.message,
        "page not listed in nav (/site/docs/docs.json); add it to navigation so readers can open it"
    );
    assert_eq!(out[3].severity, Severity::Warn);
}

#[test]
fn registered_clean_page_reports_nothing() {
    let c = config(Severity::Error);
    let slugs = nav(vec!["index"]);
    let src = "---\ntitle: Home\n---\n\n# Welcome\n\nAll good - nothing here.\n";
    let out = lint_file(&c, "/site/docs/index.mdx", src, Some(&slugs));
    assert!(out.is_empty());
}

#[test]
fn only_selected_markdown_files_are_linted_and_results_sorted() {
    let c = config(Severity::Warn);
    let slugs = nav(vec!["b", "a"]);
    let files = vec![
        ("/site/docs/b.md".to_string(), "x <y\n\nz\u{2014}w\n".to_string()),
        ("/site/docs/notes.txt".to_string(), "x <y".to_string()),
        ("/site/docs/a.md".to_string(), "p\u{2014}q <r\n".to_string()),
    ];
    let out = lint_files(&c, &files, Some(&slugs));
    let keys: Vec<(String, usize, usize, &str)> = out.iter().map(|f| (f.path.clone(), f.line, f.column, f.rule_id)).collect();
    assert_eq!(
        keys,
        vec![
            ("docs/a.md".to_string(), 1, 2, "prose_em_dash"),
            ("docs/a.md".to_string(), 1, 7, "unescaped_lt"),
            ("docs/b.md".to_string(), 1, 3, "unescaped_lt"),
            ("docs/b.md".to_string(), 3, 2, "prose_em_dash"),
        ]
    );
    assert!(should_check_file(&c, "/site/docs/a.md"));
    assert!(!should_check_file(&c, "/site/docs/notes.txt"));
}
