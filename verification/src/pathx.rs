//! Paths as std's `Path` reads them. The library holds paths as UTF-8
//! strings; each function here makes one call into `std::path` and converts
//! the result back to a string (lossless, since the input is UTF-8). std's
//! path rules are fixed for the target the crate is built for, so within a
//! build each result depends on its arguments alone and is given a name.
//! Nothing here states what the names are on given values.

use vstd::prelude::*;
use crate::text::strings_view;

verus! {

/// What `Path::strip_prefix` gives for `path` and `base`: the rest of `path`
/// after the whole components of `base`, or `None` when `base` is not a
/// component prefix of `path`.
pub uninterp spec fn stripped_path(path: Seq<char>, base: Seq<char>) -> Option<Seq<char>>;

/// What `Path::extension` gives: the part of the file name after its last
/// `.`, if it has one that is not its first character.
pub uninterp spec fn path_extension_of(path: Seq<char>) -> Option<Seq<char>>;

/// What `Path::is_absolute` says of a path.
pub uninterp spec fn path_is_absolute(path: Seq<char>) -> bool;

/// What `Path::join` gives for a base and a further path.
pub uninterp spec fn joined_path(base: Seq<char>, rel: Seq<char>) -> Seq<char>;

/// What `Path::with_extension("")` gives: the path with the extension of its
/// file name removed.
pub uninterp spec fn path_without_extension(path: Seq<char>) -> Seq<char>;

/// The components that `Path::components` yields, each as a string.
pub uninterp spec fn path_component_names(path: Seq<char>) -> Seq<Seq<char>>;

/// Calls `Path::strip_prefix`; claims that the result, as a string, is what
/// `stripped_path` names for the two paths (`None` for std's error).
#[verifier::external_body]
pub(crate) fn strip_path_prefix(path: &str, base: &str) -> (r: Option<String>)
    ensures
        match r {
            Some(s) => stripped_path(path@, base@) == Some(s@),
            None => stripped_path(path@, base@) is None,
        },
{
    std::path::Path::new(path).strip_prefix(base).ok().map(|p| p.to_string_lossy().into_owned())
}

/// Calls `Path::extension`; claims that the result, as a string, is what
/// `path_extension_of` names for the path.
#[verifier::external_body]
pub(crate) fn extension_of(path: &str) -> (r: Option<String>)
    ensures
        match r {
            Some(s) => path_extension_of(path@) == Some(s@),
            None => path_extension_of(path@) is None,
        },
{
    std::path::Path::new(path).extension().map(|e| e.to_string_lossy().into_owned())
}

/// Calls `Path::is_absolute`; claims that the answer is what
/// `path_is_absolute` names for the path.
#[verifier::external_body]
pub(crate) fn is_absolute_path(path: &str) -> (r: bool)
    ensures
        r == path_is_absolute(path@),
{
    std::path::Path::new(path).is_absolute()
}

/// Calls `Path::join`; claims that the result, as a string, is what
/// `joined_path` names for the two paths.
#[verifier::external_body]
pub(crate) fn join_path(base: &str, rel: &str) -> (r: String)
    ensures
        r@ == joined_path(base@, rel@),
{
    std::path::Path::new(base).join(rel).to_string_lossy().into_owned()
}

/// Calls `Path::with_extension("")`; claims that the result, as a string, is
/// what `path_without_extension` names for the path.
#[verifier::external_body]
pub(crate) fn without_extension(path: &str) -> (r: String)
    ensures
        r@ == path_without_extension(path@),
{
    std::path::Path::new(path).with_extension("").to_string_lossy().into_owned()
}

/// Calls `Path::components`; claims that the components, each as a string,
/// are what `path_component_names` names for the path.
#[verifier::external_body]
pub(crate) fn component_names(path: &str) -> (r: Vec<String>)
    ensures
        strings_view(r@) == path_component_names(path@),
{
    std::path::Path::new(path).components().map(|c| c.as_os_str().to_string_lossy().into_owned()).collect()
}

} // verus!
