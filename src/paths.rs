use vstd::prelude::*;

verus! {

/// Whether `path` lies at or under `base`, comparing whole path components.
pub uninterp spec fn path_starts_with(path: Seq<char>, base: Seq<char>) -> bool;

/// The directory that contains `path`, if the path has one.
pub uninterp spec fn parent_of(path: Seq<char>) -> Option<Seq<char>>;

/// The extension of the last component of `path`, empty where it has none.
pub uninterp spec fn extension_of(path: Seq<char>) -> Seq<char>;

/// The character view of an optional string.
pub open spec fn opt_view(o: Option<String>) -> Option<Seq<char>> {
    match o {
        Some(s) => Some(s@),
        None => None,
    }
}

/// Relies on std::path::Path::starts_with: a prefix test over whole components
/// whose answer depends on the two strings alone.
#[verifier::external_body]
pub(crate) fn path_within(path: &str, base: &str) -> (r: bool)
    ensures
        r == path_starts_with(path@, base@),
{
    std::path::Path::new(path).starts_with(base)
}

/// Relies on std::path::Path::parent: the path without its last component,
/// or nothing for a root or an empty path.
#[verifier::external_body]
pub(crate) fn parent_dir(path: &str) -> (r: Option<String>)
    ensures
        opt_view(r) == parent_of(path@),
{
    match std::path::Path::new(path).parent() {
        Some(p) => Some(p.to_string_lossy().into_owned()),
        None => None,
    }
}

/// Relies on std::path::Path::extension: the text after the last dot of the
/// file name; an empty string where there is none.
#[verifier::external_body]
pub(crate) fn file_extension(path: &str) -> (r: String)
    ensures
        r@ == extension_of(path@),
{
    match std::path::Path::new(path).extension() {
        Some(e) => e.to_string_lossy().into_owned(),
        None => String::new(),
    }
}

} // verus!
