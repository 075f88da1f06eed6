//! Glob sets, built and matched by the `globset` crate.

use vstd::prelude::*;
use crate::text::strings_view;

verus! {

#[verifier::external_type_specification]
#[verifier::external_body]
pub struct ExGlobSet(globset::GlobSet);

/// Whether `globset::Glob::new` accepts the pattern.
pub uninterp spec fn glob_parses(pattern: Seq<char>) -> bool;

/// Whether `GlobSetBuilder::build` succeeds on these (accepted) patterns.
pub uninterp spec fn glob_set_builds(patterns: Seq<Seq<char>>) -> bool;

/// The patterns a glob set was built from, in order.
pub uninterp spec fn glob_set_patterns(set: globset::GlobSet) -> Seq<Seq<char>>;

/// What `GlobSet::is_match` answers for a set built from `patterns` and a
/// path: whether any of the patterns matches it.
pub uninterp spec fn glob_set_match(patterns: Seq<Seq<char>>, path: Seq<char>) -> bool;

/// Calls `globset::Glob::new`; claims only that it succeeds exactly when
/// `glob_parses` holds of the pattern.
#[verifier::external_body]
pub(crate) fn glob_is_valid(pattern: &str) -> (ok: bool)
    ensures
        ok == glob_parses(pattern@),
{
    globset::Glob::new(pattern).is_ok()
}

/// Adds each pattern, as `Glob::new` reads it, to a `GlobSetBuilder` and
/// calls `GlobSetBuilder::build`. Claims: the build succeeds exactly when
/// `glob_set_builds` holds of the patterns, always for no patterns (the
/// crate's `GlobSet::new` returns an empty set then), and the set holds the
/// patterns in order.
#[verifier::external_body]
pub(crate) fn build_glob_set(patterns: &Vec<String>) -> (r: Option<globset::GlobSet>)
    requires
        forall|i: int| 0 <= i < patterns@.len() ==> glob_parses(#[trigger] patterns@[i]@),
    ensures
        r is Some <==> glob_set_builds(strings_view(patterns@)),
        patterns@.len() == 0 ==> r is Some,
        r matches Some(set) ==> glob_set_patterns(set) == strings_view(patterns@),
{
    let mut builder = globset::GlobSetBuilder::new();
    for p in patterns.iter() {
        if let Ok(g) = globset::Glob::new(p) {
            builder.add(g);
        }
    }
    builder.build().ok()
}

/// Calls `GlobSet::is_match` on a path. Claims: the answer is what
/// `glob_set_match` names for the set's patterns and the path, and `false`
/// for a set with no patterns (the crate's source checks `is_empty` first).
#[verifier::external_body]
pub(crate) fn glob_set_is_match(set: &globset::GlobSet, path: &str) -> (r: bool)
    ensures
        r == glob_set_match(glob_set_patterns(*set), path@),
        glob_set_patterns(*set).len() == 0 ==> !r,
{
    set.is_match(path)
}

} // verus!
