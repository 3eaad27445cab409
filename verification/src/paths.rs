//! Paths as text.
//!
//! The library holds every path as a string and leaves questions about its
//! structure to `std::path`, for the platform it is built for. What `std`
//! answers is named here, so that contracts can speak of it.

use std::path::Path;
use vstd::prelude::*;

verus! {

/// The final component of the path `path`, as `Path::file_name` gives it;
/// empty where the path has none.
pub uninterp spec fn file_name_of(path: Seq<char>) -> Seq<char>;

/// The path `path` without its final component, as `Path::parent` gives
/// it.
pub uninterp spec fn parent_dir_of(path: Seq<char>) -> Option<Seq<char>>;

/// The path `path` without its final component; empty where it has no
/// parent.
pub open spec fn parent_of(path: Seq<char>) -> Seq<char> {
    match parent_dir_of(path) {
        Some(dir) => dir,
        None => Seq::empty(),
    }
}

/// The extension of the final component of `path`, as `Path::extension`
/// gives it.
pub uninterp spec fn extension_of(path: Seq<char>) -> Option<Seq<char>>;

/// The path made of `dir` and then `name`, as `Path::join` gives it.
pub uninterp spec fn joined(dir: Seq<char>, name: Seq<char>) -> Seq<char>;

/// The path `path` put together again from its components, as
/// `Path::components` gives them.
pub uninterp spec fn normalized(path: Seq<char>) -> Seq<char>;

/// The components of `root` begin the components of `path`, as
/// `Path::starts_with` decides it.
pub uninterp spec fn is_under(path: Seq<char>, root: Seq<char>) -> bool;

/// Calls `Path::file_name`. The contract names the result and says no more
/// of it.
#[verifier::external_body]
pub(crate) fn file_name(path: &str) -> (name: String)
    ensures
        name@ == file_name_of(path@),
{
    match Path::new(path).file_name() {
        Some(n) => n.to_string_lossy().into_owned(),
        None => String::new(),
    }
}

/// Calls `Path::parent`. The contract names the result and says no more of
/// it.
#[verifier::external_body]
pub(crate) fn parent_dir(path: &str) -> (dir: Option<String>)
    ensures
        crate::models::opt_view(dir) == parent_dir_of(path@),
{
    match Path::new(path).parent() {
        Some(p) => Some(p.to_string_lossy().into_owned()),
        None => None,
    }
}

/// The parent of `path`; empty where it has none.
pub fn parent(path: &str) -> (dir: String)
    ensures
        dir@ == parent_of(path@),
{
    match parent_dir(path) {
        Some(dir) => dir,
        None => String::new(),
    }
}

/// Calls `Path::extension`. The contract names the result and says no more
/// of it.
#[verifier::external_body]
pub(crate) fn extension(path: &str) -> (ext: Option<String>)
    ensures
        crate::models::opt_view(ext) == extension_of(path@),
{
    match Path::new(path).extension() {
        Some(e) => Some(e.to_string_lossy().into_owned()),
        None => None,
    }
}

/// Calls `Path::join`. The contract names the result and says no more of
/// it.
#[verifier::external_body]
pub(crate) fn join(dir: &str, name: &str) -> (path: String)
    ensures
        path@ == joined(dir@, name@),
{
    Path::new(dir).join(name).to_string_lossy().into_owned()
}

/// Collects `Path::components` into a path again. The contract names the
/// result and says no more of it.
#[verifier::external_body]
pub(crate) fn rebuild(path: &str) -> (clean: String)
    ensures
        clean@ == normalized(path@),
{
    let cleaned: std::path::PathBuf = Path::new(path).components().collect();
    cleaned.to_string_lossy().into_owned()
}

/// Calls `Path::starts_with`. The contract names the answer and says no
/// more of it.
#[verifier::external_body]
pub(crate) fn starts_with_path(path: &str, root: &str) -> (r: bool)
    ensures
        r == is_under(path@, root@),
{
    Path::new(path).starts_with(root)
}

/// The path `p` with the separators and spelling that the platform's own
/// paths have, so that one folder is always written one way.
pub fn normalize_path(p: &str) -> (clean: String)
    ensures
        clean@ == normalized(p@),
{
    rebuild(p)
}

} // verus!
