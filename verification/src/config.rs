//! The configuration file's model and its resolution against a project
//! root: paths, the globs that select and exclude paths, and the rule switches.

use vstd::prelude::*;
use vstd::string::*;
use crate::finding::Severity;
use crate::globs::{build_glob_set, glob_is_valid, glob_parses, glob_set_builds, glob_set_is_match, glob_set_match, glob_set_patterns};
use crate::pathx::{is_absolute_path, join_path, joined_path, path_is_absolute};
use crate::text::strings_view;

verus! {

/// The value of a rule's `enabled` key when it is left out.
pub fn default_true() -> (r: bool)
    ensures
        r,
{
    true
}

/// The value of `project.docs_dir` when it is left out.
pub fn default_docs_dir() -> (r: String)
    ensures
        r@ == "docs"@,
{
    "docs".to_owned()
}

/// The value of `project.nav_file` when it is left out.
pub fn default_nav_file() -> (r: String)
    ensures
        r@ == "docs/docs.json"@,
{
    "docs/docs.json".to_owned()
}

/// The whole configuration file.
pub struct ConfigFile {
    pub project: ProjectSection,
    pub rules: RulesSection,
}

/// The `[project]` table.
pub struct ProjectSection {
    /// Directory containing markdown pages, relative to project root.
    pub docs_dir: String,
    /// Glob patterns (relative to project root) explicitly included in checks.
    pub includes: Vec<String>,
    /// Navigation file (for example docs.json), relative to project root.
    pub nav_file: String,
    /// Glob patterns (relative to project root) excluded from all checks.
    pub exclude: Vec<String>,
}

impl Default for ProjectSection {
    /// The section used when the file has no `[project]` table: every
    /// field empty.
    fn default() -> (r: Self)
        ensures
            r.docs_dir@.len() == 0,
            r.nav_file@.len() == 0,
            r.includes@.len() == 0,
            r.exclude@.len() == 0,
    {
        ProjectSection {
            docs_dir: String::new(),
            includes: Vec::new(),
            nav_file: String::new(),
            exclude: Vec::new(),
        }
    }
}

/// The `[rules.*]` tables; a rule without a table is `None`.
pub struct RulesSection {
    pub unescaped_lt: Option<RuleEntry>,
    pub frontmatter_yaml: Option<RuleEntry>,
    pub filename_chars: Option<RuleEntry>,
    pub nav_registration: Option<RuleEntry>,
    pub prose_em_dash: Option<RuleEntry>,
}

impl Default for RulesSection {
    /// No rule configured.
    fn default() -> (r: Self)
        ensures
            r.unescaped_lt is None,
            r.frontmatter_yaml is None,
            r.filename_chars is None,
            r.nav_registration is None,
            r.prose_em_dash is None,
    {
        RulesSection {
            unescaped_lt: None,
            frontmatter_yaml: None,
            filename_chars: None,
            nav_registration: None,
            prose_em_dash: None,
        }
    }
}

/// One `[rules.<id>]` table.
#[derive(Clone, Copy, Debug, PartialEq, Eq, Structural)]
pub struct RuleEntry {
    pub enabled: bool,
    pub level: Severity,
}

/// Include and exclude patterns given outside the configuration file.
pub struct PathFilterOverrides {
    pub includes: Vec<String>,
    pub exclude: Vec<String>,
}

impl Default for PathFilterOverrides {
    /// No overrides.
    fn default() -> (r: Self)
        ensures
            r.includes@.len() == 0,
            r.exclude@.len() == 0,
    {
        PathFilterOverrides { includes: Vec::new(), exclude: Vec::new() }
    }
}

/// Whether a rule runs, and at which level.
#[derive(Clone, Copy, Debug, PartialEq, Eq, Structural)]
pub struct ActiveRule {
    pub enabled: bool,
    pub level: Severity,
}

/// A configured rule keeps its settings; an unconfigured one is on, as an error.
pub open spec fn merged_rule(entry: Option<RuleEntry>) -> ActiveRule {
    match entry {
        Some(e) => ActiveRule { enabled: e.enabled, level: e.level },
        None => ActiveRule { enabled: true, level: Severity::Error },
    }
}

impl ActiveRule {
    /// The settings of a rule from its table, if any.
    pub fn merge(entry: Option<&RuleEntry>) -> (r: Self)
        ensures
            r == merged_rule(match entry {
                Some(e) => Some(*e),
                None => None,
            }),
    {
        match entry {
            Some(e) => ActiveRule { enabled: e.enabled, level: e.level },
            None => ActiveRule { enabled: true, level: Severity::Error },
        }
    }
}

/// Configuration resolved against the project root.
pub struct ResolvedConfig {
    pub root: String,
    pub docs_dir: String,
    /// The directory that is walked: the root when selecting patterns are
    /// given, else the docs directory.
    pub walk_root: String,
    pub nav_file: String,
    pub includes: Option<globset::GlobSet>,
    pub exclude: globset::GlobSet,
    pub unescaped_lt: ActiveRule,
    pub frontmatter_yaml: ActiveRule,
    pub filename_chars: ActiveRule,
    pub nav_registration: ActiveRule,
    pub prose_em_dash: ActiveRule,
}

/// Why a configuration could not be resolved.
pub enum ConfigError {
    /// A glob pattern is an absolute path.
    AbsoluteGlob { kind: GlobKind, pattern: String },
    /// `globset` rejects a glob pattern.
    InvalidGlob { kind: GlobKind, pattern: String },
    /// `globset` could not build the set.
    GlobSetBuild { kind: GlobKind },
}

/// `rel` against `root`: an absolute `rel` stands as it is.
pub open spec fn resolved_path(root: Seq<char>, rel: Seq<char>) -> Seq<char> {
    if path_is_absolute(rel) {
        rel
    } else {
        joined_path(root, rel)
    }
}

/// `rel` resolved against `root`.
pub fn normalize_join(root: &str, rel: &str) -> (r: String)
    ensures
        r@ == resolved_path(root@, rel@),
{
    if is_absolute_path(rel) {
        rel.to_owned()
    } else {
        join_path(root, rel)
    }
}

/// Which list a glob pattern belongs to.
#[derive(Clone, Copy, Debug, PartialEq, Eq, Structural)]
pub enum GlobKind {
    /// Patterns that select the paths to check.
    Include,
    /// Patterns that keep paths out of all checks.
    Exclude,
}

/// What is wrong with a glob pattern, checked in this order.
pub enum GlobIssue {
    Absolute,
    Invalid,
}

/// The problem with one pattern, if any.
pub open spec fn glob_issue(p: Seq<char>) -> Option<GlobIssue> {
    if path_is_absolute(p) {
        Some(GlobIssue::Absolute)
    } else if !glob_parses(p) {
        Some(GlobIssue::Invalid)
    } else {
        None
    }
}

/// The first pattern from `i` on that has a problem: its index and the problem.
pub open spec fn first_glob_issue(ps: Seq<Seq<char>>, i: int) -> Option<(int, GlobIssue)>
    decreases ps.len() - i,
{
    if i < 0 || i >= ps.len() {
        None
    } else {
        match glob_issue(ps[i]) {
            Some(issue) => Some((i, issue)),
            None => first_glob_issue(ps, i + 1),
        }
    }
}

/// Outcome of building the glob set of one kind:
/// the first pattern's problem, else a failed build, else success.
pub open spec fn globset_outcome(
    ps: Seq<Seq<char>>,
    kind: GlobKind,
    r: Result<globset::GlobSet, ConfigError>,
) -> bool {
    match first_glob_issue(ps, 0) {
        Some((i, GlobIssue::Absolute)) => r matches Err(ConfigError::AbsoluteGlob { kind: k, pattern: p })
            && k == kind && p@ == ps[i],
        Some((i, GlobIssue::Invalid)) => r matches Err(ConfigError::InvalidGlob { kind: k, pattern: p })
            && k == kind && p@ == ps[i],
        None => if glob_set_builds(ps) {
            r matches Ok(set) && glob_set_patterns(set) == ps
        } else {
            r matches Err(ConfigError::GlobSetBuild { kind: k }) && k == kind
        },
    }
}

proof fn lemma_first_glob_issue_skip(ps: Seq<Seq<char>>, i: int, j: int)
    requires
        0 <= i <= j <= ps.len(),
        forall|k: int| i <= k < j ==> #[trigger] glob_issue(ps[k]) is None,
    ensures
        first_glob_issue(ps, i) == first_glob_issue(ps, j),
    decreases j - i,
{
    if i < j {
        assert(glob_issue(ps[i]) is None);
        lemma_first_glob_issue_skip(ps, i + 1, j);
    }
}

/// Builds the glob set of one kind, refusing absolute and invalid patterns.
fn build_globset(patterns: &Vec<String>, kind: GlobKind) -> (r: Result<globset::GlobSet, ConfigError>)
    ensures
        globset_outcome(strings_view(patterns@), kind, r),
        patterns@.len() == 0 ==> r is Ok,
{
    let ghost ps = strings_view(patterns@);
    let mut i: usize = 0;
    while i < patterns.len()
        invariant
            i <= patterns@.len(),
            ps == strings_view(patterns@),
            forall|k: int| 0 <= k < i ==> #[trigger] glob_issue(ps[k]) is None,
        decreases patterns.len() - i,
    {
        let g = patterns[i].as_str();
        assert(ps[i as int] == g@);
        if is_absolute_path(g) {
            proof {
                lemma_first_glob_issue_skip(ps, 0, i as int);
            }
            return Err(ConfigError::AbsoluteGlob { kind, pattern: g.to_owned() });
        }
        if !glob_is_valid(g) {
            proof {
                lemma_first_glob_issue_skip(ps, 0, i as int);
            }
            return Err(ConfigError::InvalidGlob { kind, pattern: g.to_owned() });
        }
        i = i + 1;
    }
    proof {
        lemma_first_glob_issue_skip(ps, 0, i as int);
        assert forall|k: int| 0 <= k < patterns@.len() implies glob_parses(#[trigger] patterns@[k]@) by {
            assert(glob_issue(ps[k]) is None);
            assert(ps[k] == patterns@[k]@);
        }
    }
    match build_glob_set(patterns) {
        Some(set) => Ok(set),
        None => Err(ConfigError::GlobSetBuild { kind }),
    }
}

fn clone_strings(v: &Vec<String>) -> (r: Vec<String>)
    ensures
        strings_view(r@) == strings_view(v@),
{
    let mut out: Vec<String> = Vec::new();
    let mut i: usize = 0;
    while i < v.len()
        invariant
            i <= v@.len(),
            strings_view(out@) == strings_view(v@).take(i as int),
        decreases v.len() - i,
    {
        let s = v[i].as_str().to_owned();
        let ghost before = out@;
        out.push(s);
        proof {
            assert(strings_view(out@) =~= strings_view(before).push(s@));
            assert(strings_view(v@).take(i + 1) =~= strings_view(v@).take(i as int).push(v@[i as int]@));
        }
        i = i + 1;
    }
    assert(strings_view(v@).take(v@.len() as int) =~= strings_view(v@));
    out
}

/// The selecting patterns in force: the overriding ones when given, else the file's.
pub open spec fn include_patterns(cfg: Seq<Seq<char>>, overrides: Seq<Seq<char>>) -> Seq<Seq<char>> {
    if overrides.len() == 0 {
        cfg
    } else {
        overrides
    }
}

/// Resolves the configuration file against `root`: docs directory and nav
/// file become paths under the root (absolute ones stay), selecting patterns
/// come from the overrides when given and else from the file, exclude
/// patterns from both, and each rule without a table is on as an error.
/// The walk starts at the root when selecting patterns are in force, else at
/// the docs directory.
pub fn resolve(
    root: String,
    cfg: ConfigFile,
    config_path: &str,
    overrides: &PathFilterOverrides,
) -> (r: Result<ResolvedConfig, ConfigError>)
    ensures
        ({
            let inc = include_patterns(strings_view(cfg.project.includes@), strings_view(overrides.includes@));
            let exc = strings_view(cfg.project.exclude@) + strings_view(overrides.exclude@);
            let inc_ok = inc.len() == 0 || (first_glob_issue(inc, 0) is None && glob_set_builds(inc));
            let exc_ok = first_glob_issue(exc, 0) is None && glob_set_builds(exc);
            &&& r is Ok <==> inc_ok && exc_ok
            &&& inc.len() == 0 && exc.len() == 0 ==> r is Ok
            &&& inc.len() > 0 ==> !inc_ok ==> globset_outcome(inc, GlobKind::Include, match r {
                Ok(c) => Ok(c.exclude),
                Err(e) => Err(e),
            })
            &&& inc_ok && !exc_ok ==> globset_outcome(exc, GlobKind::Exclude, match r {
                Ok(c) => Ok(c.exclude),
                Err(e) => Err(e),
            })
            &&& r matches Ok(c) ==> {
                &&& c.root@ == root@
                &&& c.docs_dir@ == resolved_path(root@, cfg.project.docs_dir@)
                &&& c.nav_file@ == resolved_path(root@, cfg.project.nav_file@)
                &&& (inc.len() == 0 ==> c.includes is None && c.walk_root@ == c.docs_dir@)
                &&& (inc.len() > 0 ==> (c.includes matches Some(s) && glob_set_patterns(s) == inc
                    && c.walk_root@ == root@))
                &&& glob_set_patterns(c.exclude) == exc
                &&& c.unescaped_lt == merged_rule(cfg.rules.unescaped_lt)
                &&& c.frontmatter_yaml == merged_rule(cfg.rules.frontmatter_yaml)
                &&& c.filename_chars == merged_rule(cfg.rules.filename_chars)
                &&& c.nav_registration == merged_rule(cfg.rules.nav_registration)
                &&& c.prose_em_dash == merged_rule(cfg.rules.prose_em_dash)
            }
        }),
{
    let docs_dir = normalize_join(root.as_str(), cfg.project.docs_dir.as_str());
    let nav_file = normalize_join(root.as_str(), cfg.project.nav_file.as_str());
    let include_patterns = if overrides.includes.len() == 0 {
        clone_strings(&cfg.project.includes)
    } else {
        clone_strings(&overrides.includes)
    };
    let mut exclude_patterns = clone_strings(&cfg.project.exclude);
    let mut extra = clone_strings(&overrides.exclude);
    exclude_patterns.append(&mut extra);
    proof {
        assert(strings_view(exclude_patterns@) =~= strings_view(cfg.project.exclude@)
            + strings_view(overrides.exclude@));
    }
    let includes = if include_patterns.len() == 0 {
        None
    } else {
        match build_globset(&include_patterns, GlobKind::Include) {
            Ok(set) => Some(set),
            Err(e) => return Err(e),
        }
    };
    let exclude = match build_globset(&exclude_patterns, GlobKind::Exclude) {
        Ok(set) => set,
        Err(e) => return Err(e),
    };
    let walk_root = if includes.is_some() {
        root.clone()
    } else {
        docs_dir.clone()
    };
    Ok(ResolvedConfig {
        root,
        docs_dir,
        walk_root,
        nav_file,
        includes,
        exclude,
        unescaped_lt: ActiveRule::merge(cfg.rules.unescaped_lt.as_ref()),
        frontmatter_yaml: ActiveRule::merge(cfg.rules.frontmatter_yaml.as_ref()),
        filename_chars: ActiveRule::merge(cfg.rules.filename_chars.as_ref()),
        nav_registration: ActiveRule::merge(cfg.rules.nav_registration.as_ref()),
        prose_em_dash: ActiveRule::merge(cfg.rules.prose_em_dash.as_ref()),
    })
}

/// Whether a project path (relative to the root, `/`-separated) is checked:
/// it matches a selecting pattern when there are any, and no exclude pattern.
pub open spec fn path_selected(cfg: ResolvedConfig, key: Seq<char>) -> bool {
    (match cfg.includes {
        Some(inc) => glob_set_match(glob_set_patterns(inc), key),
        None => true,
    }) && !glob_set_match(glob_set_patterns(cfg.exclude), key)
}

impl ResolvedConfig {
    /// Whether the project path `key` is checked: selected (when selecting
    /// patterns are given) and not excluded.
    pub fn matches_project_path(&self, key: &str) -> (r: bool)
        ensures
            r == path_selected(*self, key@),
            self.includes is None && glob_set_patterns(self.exclude).len() == 0 ==> r,
    {
        match &self.includes {
            Some(includes) => {
                if !glob_set_is_match(includes, key) {
                    return false;
                }
            },
            None => {},
        }
        !glob_set_is_match(&self.exclude, key)
    }
}

} // verus!
