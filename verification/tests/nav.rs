use mintlify_hygiene::nav::{nav_slugs, nav_slugs_from_json, normalize_slug, JsonValue, NavSlugs};

fn s(x: &str) -> JsonValue {
    JsonValue::String(x.to_string())
}

fn obj(members: Vec<(&str, JsonValue)>) -> JsonValue {
    JsonValue::Object(members.into_iter().map(|(k, v)| (k.to_string(), v)).collect())
}

fn has(n: &NavSlugs, x: &str) -> bool {
    n.contains(&x.to_string())
}

#[test]
fn slugs_are_normalized() {
    assert_eq!(normalize_slug("  ./guides/intro.mdx \n"), "guides/intro");
    assert_eq!(normalize_slug("././a.md"), "a");
    assert_eq!(normalize_slug("a\\b"), "a/b");
    assert_eq!(normalize_slug("a.md.mdx"), "a.md");
    assert_eq!(normalize_slug("\u{3000}x\u{a0}"), "x");
    assert_eq!(normalize_slug(".mdx"), "");
}

#[test]
fn collects_pages_from_nested_navigation() {
    let doc = obj(vec![
        ("name", s("Docs")),
        ("count", JsonValue::Number),
        (
            "navigation",
            JsonValue::Array(vec![obj(vec![
                ("group", s("Start")),
                (
                    "pages",
                    JsonValue::Array(vec![
                        s("index"),
                        s("./quickstart.md"),
                        obj(vec![("group", s("Deep")), ("pages", JsonValue::Array(vec![s("deep/one.mdx")]))]),
                        JsonValue::Bool(true),
                        JsonValue::Null,
                    ]),
                ),
            ])]),
        ),
        ("pages", s("not-an-array")),
    ]);
    let slugs = nav_slugs(&doc);
    assert!(has(&slugs, "index"));
    assert!(has(&slugs, "quickstart"));
    assert!(has(&slugs, "deep/one"));
    assert!(!has(&slugs, "Docs"));
    assert!(!has(&slugs, "Start"));
    assert!(!has(&slugs, "not-an-array"));
}

#[test]
fn strings_outside_pages_are_not_pages() {
    let doc = JsonValue::Array(vec![s("index"), obj(vec![("tabs", JsonValue::Array(vec![s("x")]))])]);
    let slugs = nav_slugs(&doc);
    assert!(!has(&slugs, "index"));
    assert!(!has(&slugs, "x"));
}

#[test]
fn slug_set_operations() {
    let mut n = NavSlugs::new();
    assert!(!has(&n, "a"));
    n.insert("a".to_string());
    n.insert("a".to_string());
    assert!(has(&n, "a"));
    assert!(!has(&n, "b"));
}

#[test]
fn nav_file_text_is_parsed_then_collected() {
    let text = r#"{"navigation": {"groups": [{"group": "G", "pages": ["./intro.mdx", {"group": "N", "pages": ["guides/a"]}]}]}, "n": 1.5}"#;
    let slugs = match nav_slugs_from_json(text) {
        Some(n) => n,
        None => panic!("valid JSON"),
    };
    assert!(has(&slugs, "intro"));
    assert!(has(&slugs, "guides/a"));
    assert!(!has(&slugs, "G"));
    assert!(nav_slugs_from_json("{\"pages\": [").is_none());
    assert!(nav_slugs_from_json("").is_none());
}
