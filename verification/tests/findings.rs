use mintlify_hygiene::finding::{check_fails, format_finding_human, normalize_repo_path, sort_findings};
use mintlify_hygiene::text::decimal_string;
use mintlify_hygiene::{Finding, Severity};

fn finding(rule: &'static str, sev: Severity, path: &str, line: usize, column: usize, msg: &str) -> Finding {
    Finding {
        rule_id: rule,
        severity: sev,
        path: path.to_string(),
        line,
        column,
        message: msg.to_string(),
    }
}

#[test]
fn repo_paths_are_relative_with_forward_slashes() {
    assert_eq!(normalize_repo_path("/repo", "/repo/docs/a.md"), "docs/a.md");
    assert_eq!(normalize_repo_path("/other", "/repo/docs/a.md"), "/repo/docs/a.md");
    assert_eq!(normalize_repo_path("/repo", "/repo/docs\\b.md"), "docs/b.md");
    assert_eq!(normalize_repo_path("/re", "/repo/a.md"), "/repo/a.md");
}

#[test]
fn human_line_format() {
    let f = finding("unescaped_lt", Severity::Error, "docs/a.md", 12, 7, "msg");
    assert_eq!(format_finding_human(&f), "error: unescaped_lt [msg] docs/a.md:12:7");
    let w = finding("prose_em_dash", Severity::Warn, "b.mdx", 1, 100, "m");
    assert_eq!(format_finding_human(&w), "warning: prose_em_dash [m] b.mdx:1:100");
}

#[test]
fn decimal_notation() {
    assert_eq!(decimal_string(0), "0");
    assert_eq!(decimal_string(7), "7");
    assert_eq!(decimal_string(10), "10");
    assert_eq!(decimal_string(4096), "4096");
    assert_eq!(decimal_string(usize::MAX), usize::MAX.to_string());
}

#[test]
fn findings_sort_by_path_line_column_rule_message() {
    let v = vec![
        finding("b", Severity::Error, "z.md", 1, 1, "m"),
        finding("a", Severity::Error, "a.md", 2, 1, "m"),
        finding("a", Severity::Error, "a.md", 1, 5, "m"),
        finding("b", Severity::Error, "a.md", 1, 5, "m"),
        finding("a", Severity::Error, "a.md", 1, 5, "l"),
        finding("a", Severity::Error, "a.md", 10, 1, "m"),
    ];
    let sorted = sort_findings(v);
    let keys: Vec<(String, usize, usize, &str, String)> = sorted
        .iter()
        .map(|f| (f.path.clone(), f.line, f.column, f.rule_id, f.message.clone()))
        .collect();
    let mut expected = keys.clone();
    expected.sort();
    assert_eq!(keys, expected);
    assert_eq!(keys[0], ("a.md".to_string(), 1, 5, "a", "l".to_string()));
    assert_eq!(keys[5].0, "z.md");
    assert_eq!(sorted.len(), 6);
}

#[test]
fn exit_status_rules() {
    let warn = vec![finding("prose_em_dash", Severity::Warn, "a.md", 1, 1, "m")];
    let err = vec![finding("unescaped_lt", Severity::Error, "a.md", 1, 1, "m")];
    assert!(!check_fails(&vec![], false));
    assert!(!check_fails(&vec![], true));
    assert!(!check_fails(&warn, false));
    assert!(check_fails(&warn, true));
    assert!(check_fails(&err, false));
    assert!(check_fails(&err, true));
}

#[test]
fn default_severity_is_error() {
    assert_eq!(Severity::default(), Severity::Error);
}
