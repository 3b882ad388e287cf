//! What a watch on the open document looks at, and which changes concern it.
use crate::file_tree::{parent_of, path_parent};
use crate::routing::opt_view;
use vstd::prelude::*;
use vstd::string::StringExecFns;

verus! {

/// What `std::path::Path::file_name` gives for a path.
pub uninterp spec fn file_name_of(path: Seq<char>) -> Option<Seq<char>>;

/// Relies on `std::path::Path::file_name`: the last component of `path`
/// when it is a name, none when the path ends in `..` or is a root.
#[verifier::external_body]
fn path_file_name(path: &str) -> (r: Option<String>)
    ensures
        opt_view(r) == file_name_of(path@),
{
    std::path::Path::new(path).file_name().map(|n| n.to_string_lossy().to_string())
}

/// What a watch of a document looks at: the directory holding it, for
/// changes to the document's name.
pub struct WatchTarget {
    pub file_name: String,
    pub dir: String,
}

/// The target of a watch on `path`, or why there is none: a path with no
/// file name, or none with a parent directory.
pub fn watch_target(path: &str) -> (r: Result<WatchTarget, String>)
    ensures
        file_name_of(path@) is None ==> r is Err && r->Err_0@ == "Invalid file path"@,
        file_name_of(path@) is Some && parent_of(path@) is None ==> r is Err && r->Err_0@
            == "Cannot get parent directory"@,
        file_name_of(path@) is Some && parent_of(path@) is Some ==> r is Ok && Some(r->Ok_0.file_name@)
            == file_name_of(path@) && Some(r->Ok_0.dir@) == parent_of(path@),
{
    let file_name = match path_file_name(path) {
        Some(n) => n,
        None => return Err(String::from_str("Invalid file path")),
    };
    let dir = match path_parent(path) {
        Some(d) => d,
        None => return Err(String::from_str("Cannot get parent directory")),
    };
    Ok(WatchTarget { file_name, dir })
}

/// Whether a change event concerns the watched document: a plain change
/// (`any_kind`) to the file named `watched`.
pub fn concerns_document(any_kind: bool, changed_name: &Option<String>, watched: &String) -> (r: bool)
    ensures
        r == (any_kind && opt_view(*changed_name) == Some(watched@)),
{
    match changed_name {
        Some(n) => any_kind && *n == *watched,
        None => false,
    }
}

} // verus!
