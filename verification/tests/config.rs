use mintlify_hygiene::config::{
    default_docs_dir, default_nav_file, default_true, normalize_join, ActiveRule, ConfigError, GlobKind,
    PathFilterOverrides, ProjectSection, RuleEntry, RulesSection,
};
use mintlify_hygiene::{resolve, ConfigFile, Severity};

fn project(includes: Vec<&str>, exclude: Vec<&str>) -> ProjectSection {
    ProjectSection {
        docs_dir: "docs".to_string(),
        includes: includes.into_iter().map(String::from).collect(),
        nav_file: "docs/docs.json".to_string(),
        exclude: exclude.into_iter().map(String::from).collect(),
    }
}

fn file(p: ProjectSection) -> ConfigFile {
    ConfigFile { project: p, rules: RulesSection::default() }
}

#[test]
fn defaults() {
    assert!(default_true());
    assert_eq!(default_docs_dir(), "docs");
    assert_eq!(default_nav_file(), "docs/docs.json");
    let p = ProjectSection::default();
    assert_eq!(p.docs_dir, "");
    assert!(p.includes.is_empty());
}

#[test]
fn unconfigured_rules_are_errors() {
    let r = ActiveRule::merge(None);
    assert_eq!(r, ActiveRule { enabled: true, level: Severity::Error });
    let e = RuleEntry { enabled: false, level: Severity::Warn };
    assert_eq!(ActiveRule::merge(Some(&e)), ActiveRule { enabled: false, level: Severity::Warn });
}

#[test]
fn joins_relative_paths_only() {
    assert_eq!(normalize_join("/site", "docs"), "/site/docs");
    assert_eq!(normalize_join("/site", "/abs/docs"), "/abs/docs");
}

#[test]
fn resolves_paths_and_walk_root() {
    let c = match resolve("/site".to_string(), file(project(vec![], vec![])), "/site/m.toml", &PathFilterOverrides::default()) {
        Ok(c) => c,
        Err(_) => panic!("resolves"),
    };
    assert_eq!(c.docs_dir, "/site/docs");
    assert_eq!(c.nav_file, "/site/docs/docs.json");
    assert_eq!(c.walk_root, "/site/docs");
    assert!(c.includes.is_none());
    assert!(c.unescaped_lt.enabled);
    assert!(c.matches_project_path("docs/anything.md"));
}

#[test]
fn selecting_patterns_walk_the_root() {
    let c = match resolve(
        "/site".to_string(),
        file(project(vec!["guides/**/*.mdx"], vec!["guides/drafts/**"])),
        "/site/m.toml",
        &PathFilterOverrides::default(),
    ) {
        Ok(c) => c,
        Err(_) => panic!("resolves"),
    };
    assert_eq!(c.walk_root, "/site");
    assert!(c.matches_project_path("guides/a/b.mdx"));
    assert!(!c.matches_project_path("guides/a/b.md"));
    assert!(!c.matches_project_path("guides/drafts/x.mdx"));
    assert!(!c.matches_project_path("README.mdx"));
}

#[test]
fn overrides_replace_selection_and_add_exclusions() {
    let o = PathFilterOverrides {
        includes: vec!["api/**".to_string()],
        exclude: vec!["api/internal/**".to_string()],
    };
    let c = match resolve("/s".to_string(), file(project(vec!["guides/**"], vec!["api/old/**"])), "/s/m.toml", &o) {
        Ok(c) => c,
        Err(_) => panic!("resolves"),
    };
    assert!(c.matches_project_path("api/a.md"));
    assert!(!c.matches_project_path("guides/a.md"));
    assert!(!c.matches_project_path("api/internal/a.md"));
    assert!(!c.matches_project_path("api/old/a.md"));
}

#[test]
fn absolute_globs_are_refused() {
    match resolve("/s".to_string(), file(project(vec!["/abs/**"], vec![])), "/s/m.toml", &PathFilterOverrides::default()) {
        Err(ConfigError::AbsoluteGlob { kind, pattern }) => {
            assert_eq!(kind, GlobKind::Include);
            assert_eq!(pattern, "/abs/**");
        },
        _ => panic!("expected an absolute glob error"),
    }
    match resolve("/s".to_string(), file(project(vec![], vec!["ok/**", "/x"])), "/s/m.toml", &PathFilterOverrides::default()) {
        Err(ConfigError::AbsoluteGlob { kind, pattern }) => {
            assert_eq!(kind, GlobKind::Exclude);
            assert_eq!(pattern, "/x");
        },
        _ => panic!("expected an absolute glob error"),
    }
}

#[test]
fn invalid_globs_are_refused() {
    match resolve("/s".to_string(), file(project(vec![], vec!["a/[b"])), "/s/m.toml", &PathFilterOverrides::default()) {
        Err(ConfigError::InvalidGlob { kind, pattern }) => {
            assert_eq!(kind, GlobKind::Exclude);
            assert_eq!(pattern, "a/[b");
        },
        _ => panic!("expected an invalid glob error"),
    }
}
