//! File-system paths as text: the two operations of `std::path` that the
//! library relies on.

use std::path::{Path, PathBuf};
use vstd::prelude::*;

verus! {

/// The path that `PathBuf::push` makes of `base` when it is extended by
/// `tail`.
pub uninterp spec fn joined_path(base: Seq<char>, tail: Seq<char>) -> Seq<char>;

/// The path that `Path::parent` gives for `path`: the path without its last
/// component, or nothing where it has none to drop.
pub uninterp spec fn parent_path(path: Seq<char>) -> Option<Seq<char>>;

/// The view of an optional string.
pub open spec fn option_view(s: Option<String>) -> Option<Seq<char>> {
    match s {
        Some(s) => Some(s@),
        None => None,
    }
}

/// Calls `PathBuf::push` on the path `base` with `tail`. Both are text, so
/// the path that comes out is text again; it is the one that `joined_path`
/// names.
#[verifier::external_body]
pub(crate) fn join_path(base: &str, tail: &str) -> (r: String)
    ensures
        r@ == joined_path(base@, tail@),
{
    let mut path = PathBuf::from(base);
    path.push(tail);
    path.to_string_lossy().into_owned()
}

/// Calls `Path::parent` on the path `path`. The parent of a path that is
/// text is text again; it is the one that `parent_path` names.
#[verifier::external_body]
pub(crate) fn parent_of(path: &str) -> (r: Option<String>)
    ensures
        option_view(r) == parent_path(path@),
{
    match Path::new(path).parent() {
        Some(parent) => Some(parent.to_string_lossy().into_owned()),
        None => None,
    }
}

} // verus!
