//! Filesystem paths as text, and the user's standard directories.

use vstd::prelude::*;

use crate::text::texts;

verus! {

/// The user's home directory (`dirs::home_dir`), as text. It depends on the
/// environment, so nothing is promised of it.
#[verifier::external_body]
pub(crate) fn home_dir() -> Option<String> {
    dirs::home_dir().map(|p| p.to_string_lossy().into_owned())
}

/// The user's data directory (`dirs::data_dir`, e.g. `~/.local/share`), as
/// text. It depends on the environment, so nothing is promised of it.
#[verifier::external_body]
pub(crate) fn data_dir() -> Option<String> {
    dirs::data_dir().map(|p| p.to_string_lossy().into_owned())
}

/// A path joined onto another, as `Path::join` (by way of `PathBuf::push`)
/// adjoins paths on Unix: an absolute `rel` replaces `base`; otherwise `rel`
/// follows `base`, with a `/` between them unless `base` is empty or already
/// ends in one.
pub open spec fn path_join(base: Seq<char>, rel: Seq<char>) -> Seq<char> {
    if rel.len() > 0 && rel[0] == '/' {
        rel
    } else if base.len() == 0 || base.last() == '/' {
        base + rel
    } else {
        base + seq!['/'] + rel
    }
}

/// `Path::new(base).join(rel)`, as text: see [`path_join`]. The three cases
/// are those of the documentation of `PathBuf::push` and its examples (an
/// absolute path replaces, `/tmp` and `file.bk` give `/tmp/file.bk`, and a
/// path pushed onto an empty one or onto one ending in a separator follows
/// it directly).
#[verifier::external_body]
pub(crate) fn join_path(base: &str, rel: &str) -> (r: String)
    ensures
        r@ == path_join(base@, rel@),
{
    std::path::Path::new(base).join(rel).to_string_lossy().into_owned()
}

/// What `Path::file_name` gives for a path.
pub uninterp spec fn file_name_of(path: Seq<char>) -> Option<Seq<char>>;

/// `Path::file_name`: the final component of a path, if it has one (none
/// when it ends in `..` or is a root).
#[verifier::external_body]
pub(crate) fn file_name(path: &str) -> (r: Option<String>)
    ensures
        match r {
            Some(n) => file_name_of(path@) == Some(n@),
            None => file_name_of(path@) is None,
        },
{
    std::path::Path::new(path).file_name().map(|n| n.to_string_lossy().into_owned())
}

/// What `Path::parent` gives for a path.
pub uninterp spec fn parent_of(path: Seq<char>) -> Option<Seq<char>>;

/// `Path::parent`, as text: the path without its final component, or `None`
/// when the path ends in a root or prefix or is empty.
#[verifier::external_body]
pub(crate) fn path_parent(path: &str) -> (r: Option<String>)
    ensures
        match r {
            Some(p) => parent_of(path@) == Some(p@),
            None => parent_of(path@) is None,
        },
{
    std::path::Path::new(path).parent().map(|p| p.to_string_lossy().into_owned())
}

/// What `Path::components` gives for a path, each component as text.
pub uninterp spec fn components_of(path: Seq<char>) -> Seq<Seq<char>>;

/// `Path::components`, each component as text (`.` inside a path and
/// repeated separators are dropped, as `Path` normalizes them).
#[verifier::external_body]
pub(crate) fn path_components(path: &str) -> (r: Vec<String>)
    ensures
        texts(r@) == components_of(path@),
{
    std::path::Path::new(path).components().map(|c| c.as_os_str().to_string_lossy().into_owned()).collect()
}

} // verus!
