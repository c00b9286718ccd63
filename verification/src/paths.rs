//! Where the recordings live: the storage root under the user's documents
//! directory, and one directory per course below it.
//!
//! Which directory holds the user's documents is for the caller to find out;
//! the paths here are computed from it as text.

use vstd::prelude::*;

verus! {

/// The text of the path that `std::path::Path::join` builds from a directory
/// and a segment, both given as text, on the platform the crate is built
/// for. How a separator is put between the two, and what becomes of a
/// segment that is itself absolute, is the platform's matter and is not
/// spelled out here.
pub uninterp spec fn joined_path(base: Seq<char>, segment: Seq<char>) -> Seq<char>;

/// `std::path::Path::join` on text: the path `base` extended by `segment`.
///
/// Trusted: the result is the text that `joined_path` names for the two
/// arguments. That is, joining reads nothing but its two arguments, and the
/// same two texts always give the same path.
#[verifier::external_body]
fn join_path(base: &str, segment: &str) -> (joined: String)
    ensures
        joined@ == joined_path(base@, segment@),
{
    std::path::Path::new(base).join(segment).to_string_lossy().into_owned()
}

/// The directory below the documents directory that holds what the
/// application keeps.
pub const APP_DIR: &'static str = "echo";

/// The directory below [`APP_DIR`] that holds the courses: the storage root.
pub const CLASSES_DIR: &'static str = "Classes";

/// The directory that stands in for the documents directory where the
/// platform knows none: the current directory.
pub const FALLBACK_DIR: &'static str = ".";

/// The storage root for a given documents directory: `echo/Classes` below
/// it, or below the current directory when there is no documents directory.
pub open spec fn storage_root(documents: Option<Seq<char>>) -> Seq<char> {
    let base = match documents {
        Some(dir) => dir,
        None => FALLBACK_DIR@,
    };
    joined_path(joined_path(base, APP_DIR@), CLASSES_DIR@)
}

/// The directory of a course: the course's name as one segment below the
/// storage root. The name is used as it is.
pub open spec fn course_dir(root: Seq<char>, course_name: Seq<char>) -> Seq<char> {
    joined_path(root, course_name)
}

/// The storage root for the documents directory that the caller looked up;
/// `None` where the platform knows no documents directory.
pub fn storage_root_under(documents: Option<String>) -> (root: String)
    ensures
        root@ == storage_root(documents.deep_view()),
{
    let base = match documents {
        Some(dir) => dir,
        None => FALLBACK_DIR.to_owned(),
    };
    let app_dir = join_path(base.as_str(), APP_DIR);
    join_path(app_dir.as_str(), CLASSES_DIR)
}

/// The directory of the course `course_name` below `root`.
pub fn course_dir_path(root: &str, course_name: &str) -> (dir: String)
    ensures
        dir@ == course_dir(root@, course_name@),
{
    join_path(root, course_name)
}

/// The location of the file `name` in the directory `dir`.
pub fn file_path(dir: &str, name: &str) -> (path: String)
    ensures
        path@ == joined_path(dir@, name@),
{
    join_path(dir, name)
}

} // verus!
