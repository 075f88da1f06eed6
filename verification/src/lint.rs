//! The per-file rules and the project-wide run over the files of a tree.

use vstd::prelude::*;
use vstd::string::*;
use vstd::utf8::encode_utf8;
use crate::config::{ResolvedConfig, path_selected};
use crate::finding::{Finding, FindingView, findings_sorted, findings_view, normalize_repo_path, repo_path, sort_findings};
use crate::frontmatter::{check_frontmatter_yaml, yaml_findings};
use crate::markdown::{check_markdown_body, markdown_findings};
use crate::nav::NavSlugs;
use crate::pathx::{component_names, extension_of, path_component_names, path_extension_of, path_without_extension, strip_path_prefix, stripped_path, without_extension};
use crate::text::{forward_slashes, strings_view, to_forward_slashes};

verus! {

/// A path whose extension is `md` or `mdx`.
pub open spec fn is_markdown_path(path: Seq<char>) -> bool {
    path_extension_of(path) == Some("md"@) || path_extension_of(path) == Some("mdx"@)
}

/// Whether the file is a markdown page (`.md` or `.mdx`).
pub fn is_markdown_doc_file(path: &str) -> (r: bool)
    ensures
        r == is_markdown_path(path@),
{
    match extension_of(path) {
        Some(ext) => {
            let md = "md".to_owned();
            let mdx = "mdx".to_owned();
            ext == md || ext == mdx
        },
        None => false,
    }
}

/// A path relative to `base` when it lies under it, else the path itself.
pub open spec fn relative_or_self(path: Seq<char>, base: Seq<char>) -> Seq<char> {
    match stripped_path(path, base) {
        Some(rel) => rel,
        None => path,
    }
}

/// The slug of a page: its path under the docs directory, without
/// extension, with `/` separators.
pub open spec fn page_slug(docs_dir: Seq<char>, path: Seq<char>) -> Seq<char> {
    forward_slashes(path_without_extension(relative_or_self(path, docs_dir)))
}

/// The slug navigation would list the page under.
pub fn doc_slug(cfg: &ResolvedConfig, path: &str) -> (r: String)
    ensures
        r@ == page_slug(cfg.docs_dir@, path@),
{
    let rel = match strip_path_prefix(path, cfg.docs_dir.as_str()) {
        Some(r) => r,
        None => path.to_owned(),
    };
    let bare = without_extension(rel.as_str());
    to_forward_slashes(bare.as_str())
}

/// A path segment with a parenthesis.
pub open spec fn has_paren(s: Seq<char>) -> bool {
    s.contains('(') || s.contains(')')
}

/// The first segment from `from` on that holds a parenthesis.
pub open spec fn first_paren_segment(segs: Seq<Seq<char>>, from: int) -> Option<int>
    decreases segs.len() - from,
{
    if from < 0 || from >= segs.len() {
        None
    } else if has_paren(segs[from]) {
        Some(from)
    } else {
        first_paren_segment(segs, from + 1)
    }
}

/// The message of a `filename_chars` finding for a segment.
pub open spec fn paren_message(seg: Seq<char>) -> Seq<char> {
    "path segment `"@ + seg
        + "` contains `(` or `)`; Mintlify routing can break - use only letters, digits, `_`, `-`, and `.`"@
}

/// What the `filename_chars` rule reports for a page: for a page under the
/// docs directory, one finding naming the first segment of its relative path
/// that holds `(` or `)`.
pub open spec fn filename_findings(cfg: ResolvedConfig, path: Seq<char>) -> Seq<FindingView> {
    match stripped_path(path, cfg.docs_dir@) {
        Some(rel) => match first_paren_segment(path_component_names(rel), 0) {
            Some(j) => seq![FindingView {
                rule_id: "filename_chars"@,
                severity: cfg.filename_chars.level,
                path: repo_path(cfg.root@, path),
                line: 1,
                column: 1,
                message: paren_message(path_component_names(rel)[j]),
            }],
            None => seq![],
        },
        None => seq![],
    }
}

fn has_paren_exec(s: &str) -> (r: bool)
    ensures
        r == has_paren(s@),
{
    let cs = crate::text::chars_of(s);
    let mut i: usize = 0;
    while i < cs.len()
        invariant
            i <= cs@.len(),
            cs@ == s@,
            forall|k: int| 0 <= k < i ==> cs@[k] != '(' && cs@[k] != ')',
        decreases cs.len() - i,
    {
        if cs[i] == '(' || cs[i] == ')' {
            assert(s@[i as int] == cs[i as int]);
            return true;
        }
        i = i + 1;
    }
    false
}

proof fn lemma_first_paren_skip(segs: Seq<Seq<char>>, i: int, j: int)
    requires
        0 <= i <= j <= segs.len(),
        forall|k: int| i <= k < j ==> !has_paren(#[trigger] segs[k]),
    ensures
        first_paren_segment(segs, i) == first_paren_segment(segs, j),
    decreases j - i,
{
    if i < j {
        assert(!has_paren(segs[i]));
        lemma_first_paren_skip(segs, i + 1, j);
    }
}

/// Reports a page under the docs directory whose relative path has a
/// segment with `(` or `)`; at most one finding per page.
pub fn check_filename_chars(cfg: &ResolvedConfig, path: &str, findings: &mut Vec<Finding>)
    ensures
        findings_view(final(findings)@) == findings_view(old(findings)@) + filename_findings(*cfg, path@),
{
    let rel = match strip_path_prefix(path, cfg.docs_dir.as_str()) {
        Some(r) => r,
        None => {
            assert(findings_view(findings@) =~= findings_view(old(findings)@) + seq![]);
            return;
        },
    };
    let segs = component_names(rel.as_str());
    let ghost sv = strings_view(segs@);
    let mut i: usize = 0;
    while i < segs.len()
        invariant
            i <= segs@.len(),
            sv == strings_view(segs@),
            sv == path_component_names(rel@),
            stripped_path(path@, cfg.docs_dir@) == Some(rel@),
            findings@ == old(findings)@,
            forall|k: int| 0 <= k < i ==> !has_paren(#[trigger] sv[k]),
        decreases segs.len() - i,
    {
        let s = segs[i].as_str();
        assert(sv[i as int] == s@);
        if has_paren_exec(s) {
            proof {
                lemma_first_paren_skip(sv, 0, i as int);
                assert(has_paren(sv[i as int]));
                assert(first_paren_segment(sv, i as int) == Some(i as int));
                assert(stripped_path(path@, cfg.docs_dir@) == Some(rel@));
            }
            let mut message = "path segment `".to_owned();
            message.append(s);
            message.append(
                "` contains `(` or `)`; Mintlify routing can break - use only letters, digits, `_`, `-`, and `.`",
            );
            findings.push(Finding {
                rule_id: "filename_chars",
                severity: cfg.filename_chars.level,
                path: normalize_repo_path(cfg.root.as_str(), path),
                line: 1,
                column: 1,
                message,
            });
            assert(findings_view(findings@) =~= findings_view(old(findings)@).push(findings@.last()@));
            assert(filename_findings(*cfg, path@) =~= seq![findings@.last()@]);
            assert(findings_view(findings@) =~= findings_view(old(findings)@) + filename_findings(*cfg, path@));
            return;
        }
        i = i + 1;
    }
    proof {
        lemma_first_paren_skip(sv, 0, i as int);
    }
    assert(findings_view(findings@) =~= findings_view(old(findings)@) + seq![]);
}

/// The message of a `nav_registration` finding.
pub open spec fn nav_message(nav_file: Seq<char>) -> Seq<char> {
    "page not listed in nav ("@ + nav_file + "); add it to navigation so readers can open it"@
}

/// What the `nav_registration` rule reports for a page, given the slugs the
/// navigation registers (when they were read).
pub open spec fn nav_findings(cfg: ResolvedConfig, path: Seq<char>, nav: Option<Set<Seq<char>>>) -> Seq<FindingView> {
    match nav {
        Some(slugs) => if cfg.nav_registration.enabled && !slugs.contains(page_slug(cfg.docs_dir@, path)) {
            seq![FindingView {
                rule_id: "nav_registration"@,
                severity: cfg.nav_registration.level,
                path: repo_path(cfg.root@, path),
                line: 1,
                column: 1,
                message: nav_message(cfg.nav_file@),
            }]
        } else {
            seq![]
        },
        None => seq![],
    }
}

/// What the prose rules report for a page when either is on, and nothing
/// when both are off.
pub open spec fn prose_findings(cfg: ResolvedConfig, path: Seq<char>, page: Seq<char>) -> Seq<FindingView> {
    if cfg.unescaped_lt.enabled || cfg.prose_em_dash.enabled {
        markdown_findings(
            cfg.root@,
            path,
            page,
            cfg.unescaped_lt.enabled,
            cfg.unescaped_lt.level,
            cfg.prose_em_dash.enabled,
            cfg.prose_em_dash.level,
        )
    } else {
        seq![]
    }
}

/// What the frontmatter rule reports for a page when it is on.
pub open spec fn frontmatter_findings(cfg: ResolvedConfig, path: Seq<char>, page: Seq<char>) -> Seq<FindingView> {
    if cfg.frontmatter_yaml.enabled {
        yaml_findings(cfg.root@, path, page, cfg.frontmatter_yaml.level)
    } else {
        seq![]
    }
}

/// What the file name rule reports for a page when it is on.
pub open spec fn file_name_findings(cfg: ResolvedConfig, path: Seq<char>) -> Seq<FindingView> {
    if cfg.filename_chars.enabled {
        filename_findings(cfg, path)
    } else {
        seq![]
    }
}

/// What the rules report for one page, in the order they run: file name,
/// frontmatter, prose, navigation.
pub open spec fn file_findings(
    cfg: ResolvedConfig,
    path: Seq<char>,
    page: Seq<char>,
    nav: Option<Set<Seq<char>>>,
) -> Seq<FindingView> {
    file_name_findings(cfg, path) + frontmatter_findings(cfg, path, page) + prose_findings(cfg, path, page)
        + nav_findings(cfg, path, nav)
}

/// The view of an optional slug set.
pub open spec fn nav_view(nav: Option<&NavSlugs>) -> Option<Set<Seq<char>>> {
    match nav {
        Some(n) => Some(n@),
        None => None,
    }
}

fn check_prose(cfg: &ResolvedConfig, path: &str, src: &str) -> (r: Vec<Finding>)
    requires
        src.spec_bytes().len() < usize::MAX,
    ensures
        findings_view(r@) == prose_findings(*cfg, path@, src@),
{
    if cfg.unescaped_lt.enabled || cfg.prose_em_dash.enabled {
        check_markdown_body(
            cfg.root.as_str(),
            path,
            src,
            cfg.unescaped_lt.enabled,
            cfg.unescaped_lt.level,
            cfg.prose_em_dash.enabled,
            cfg.prose_em_dash.level,
        )
    } else {
        let v: Vec<Finding> = Vec::new();
        assert(findings_view(v@) =~= Seq::<FindingView>::empty());
        v
    }
}

fn check_nav_registration(cfg: &ResolvedConfig, path: &str, nav: Option<&NavSlugs>, findings: &mut Vec<Finding>)
    ensures
        findings_view(final(findings)@) == findings_view(old(findings)@) + nav_findings(*cfg, path@, nav_view(nav)),
{
    match nav {
        Some(slugs) => {
            if cfg.nav_registration.enabled {
                let slug = doc_slug(cfg, path);
                if !slugs.contains(&slug) {
                    let mut message = "page not listed in nav (".to_owned();
                    message.append(cfg.nav_file.as_str());
                    message.append("); add it to navigation so readers can open it");
                    findings.push(Finding {
                        rule_id: "nav_registration",
                        severity: cfg.nav_registration.level,
                        path: normalize_repo_path(cfg.root.as_str(), path),
                        line: 1,
                        column: 1,
                        message,
                    });
                    assert(findings_view(findings@) =~= findings_view(old(findings)@).push(findings@.last()@));
                    assert(findings_view(findings@) =~= findings_view(old(findings)@) + nav_findings(*cfg, path@, nav_view(nav)));
                    return;
                }
            }
        },
        None => {},
    }
    assert(findings_view(findings@) =~= findings_view(old(findings)@) + nav_findings(*cfg, path@, nav_view(nav)));
}

/// Runs every enabled rule on one page (`src` is its text).
pub fn lint_file(cfg: &ResolvedConfig, path: &str, src: &str, nav: Option<&NavSlugs>) -> (r: Vec<Finding>)
    requires
        src.spec_bytes().len() < usize::MAX,
    ensures
        findings_view(r@) == file_findings(*cfg, path@, src@, nav_view(nav)),
{
    let mut findings: Vec<Finding> = Vec::new();
    if cfg.filename_chars.enabled {
        check_filename_chars(cfg, path, &mut findings);
    }
    assert(findings_view(findings@) =~= file_name_findings(*cfg, path@));
    if cfg.frontmatter_yaml.enabled {
        let mut y = check_frontmatter_yaml(cfg.root.as_str(), path, src, cfg.frontmatter_yaml.level);
        let ghost yv = findings_view(y@);
        let ghost before = findings@;
        findings.append(&mut y);
        assert(findings_view(findings@) =~= findings_view(before) + yv);
    }
    assert(findings_view(findings@) =~= file_name_findings(*cfg, path@) + frontmatter_findings(*cfg, path@, src@));
    let mut prose = check_prose(cfg, path, src);
    let ghost pv = findings_view(prose@);
    let ghost before = findings@;
    findings.append(&mut prose);
    assert(findings_view(findings@) =~= findings_view(before) + pv);
    check_nav_registration(cfg, path, nav, &mut findings);
    findings
}

/// Whether a file of the walk is checked: a markdown page whose project path
/// the filters select.
pub open spec fn file_selected(cfg: ResolvedConfig, path: Seq<char>) -> bool {
    is_markdown_path(path) && path_selected(cfg, repo_path(cfg.root@, path))
}

/// Whether a file found by the walk is checked.
pub fn should_check_file(cfg: &ResolvedConfig, path: &str) -> (r: bool)
    ensures
        r == file_selected(*cfg, path@),
{
    if !is_markdown_doc_file(path) {
        return false;
    }
    let key = normalize_repo_path(cfg.root.as_str(), path);
    cfg.matches_project_path(key.as_str())
}

/// The findings of the first `k` files, those that are checked, in order.
pub open spec fn files_findings(
    cfg: ResolvedConfig,
    files: Seq<(Seq<char>, Seq<char>)>,
    nav: Option<Set<Seq<char>>>,
    k: nat,
) -> Seq<FindingView>
    decreases k,
{
    if k == 0 || k > files.len() {
        seq![]
    } else if file_selected(cfg, files[k - 1].0) {
        files_findings(cfg, files, nav, (k - 1) as nat) + file_findings(cfg, files[k - 1].0, files[k - 1].1, nav)
    } else {
        files_findings(cfg, files, nav, (k - 1) as nat)
    }
}

/// The (path, text) pairs as plain values.
pub open spec fn files_view(files: Seq<(String, String)>) -> Seq<(Seq<char>, Seq<char>)> {
    files.map_values(|f: (String, String)| (f.0@, f.1@))
}

/// Runs every enabled rule over the files of a walk (each a path and the
/// page text), skipping those that are not checked, and returns the
/// findings in report order.
pub fn lint_files(cfg: &ResolvedConfig, files: &Vec<(String, String)>, nav: Option<&NavSlugs>) -> (r: Vec<Finding>)
    requires
        forall|i: int| 0 <= i < files@.len() ==> encode_utf8((#[trigger] files@[i]).1@).len() < usize::MAX,
    ensures
        findings_view(r@).to_multiset() == files_findings(*cfg, files_view(files@), nav_view(nav), files@.len()).to_multiset(),
        findings_sorted(findings_view(r@)),
{
    let ghost fv = files_view(files@);
    let mut findings: Vec<Finding> = Vec::new();
    let mut i: usize = 0;
    assert(findings_view(findings@) =~= Seq::<FindingView>::empty());
    while i < files.len()
        invariant
            i <= files@.len(),
            fv == files_view(files@),
            forall|j: int| 0 <= j < files@.len() ==> encode_utf8((#[trigger] files@[j]).1@).len() < usize::MAX,
            files_findings(*cfg, fv, nav_view(nav), i as nat) == findings_view(findings@),
        decreases files.len() - i,
    {
        let path = files[i].0.as_str();
        let src = files[i].1.as_str();
        assert(fv[i as int] == (path@, src@));
        if should_check_file(cfg, path) {
            let mut here = lint_file(cfg, path, src, nav);
            let ghost hv = findings_view(here@);
            let ghost before = findings@;
            findings.append(&mut here);
            assert(findings_view(findings@) =~= findings_view(before) + hv);
        }
        i = i + 1;
    }
    sort_findings(findings)
}

} // verus!
