//! What a caller found on disk, as plain values: the entries of a directory,
//! or the fact that it is missing or could not be read.

use vstd::prelude::*;

verus! {

/// What kind of thing a directory entry is, links followed.
#[derive(Clone, Copy, Debug, PartialEq, Eq, Structural)]
pub enum EntryKind {
    /// A regular file.
    File,
    /// A directory.
    Directory,
    /// Anything else, or an entry whose kind could not be determined.
    Other,
}

/// One entry of a directory.
#[derive(Clone, Debug, PartialEq, Eq)]
pub struct FileEntry {
    /// The entry's name, its last path segment; `None` when the name is not
    /// valid Unicode.
    pub name: Option<String>,
    /// What the entry is.
    pub kind: EntryKind,
}

/// The mathematical form of a [`FileEntry`].
pub struct FileEntryView {
    pub name: Option<Seq<char>>,
    pub kind: EntryKind,
}

impl View for FileEntry {
    type V = FileEntryView;

    open spec fn view(&self) -> FileEntryView {
        FileEntryView { name: self.name.deep_view(), kind: self.kind }
    }
}

impl DeepView for FileEntry {
    type V = FileEntryView;

    open spec fn deep_view(&self) -> FileEntryView {
        self.view()
    }
}

/// The outcome of reading one directory.
#[derive(Clone, Debug, PartialEq, Eq)]
pub enum DirRead {
    /// The directory does not exist. Nothing was recorded there yet.
    Missing,
    /// The directory exists and reading it failed, with the storage's own
    /// message.
    Failed(String),
    /// The directory's entries, in the order in which they were enumerated.
    Listed(Vec<FileEntry>),
}

/// The mathematical form of a [`DirRead`].
pub enum DirReadView {
    Missing,
    Failed(Seq<char>),
    Listed(Seq<FileEntryView>),
}

impl View for DirRead {
    type V = DirReadView;

    open spec fn view(&self) -> DirReadView {
        match self {
            DirRead::Missing => DirReadView::Missing,
            DirRead::Failed(message) => DirReadView::Failed(message@),
            DirRead::Listed(entries) => DirReadView::Listed(entries.deep_view()),
        }
    }
}

impl DeepView for DirRead {
    type V = DirReadView;

    open spec fn deep_view(&self) -> DirReadView {
        self.view()
    }
}

/// One course directory together with the outcome of reading it.
#[derive(Clone, Debug, PartialEq, Eq)]
pub struct CourseRead {
    /// The course's name, which is the name of its directory.
    pub name: String,
    /// What reading the course's directory gave.
    pub read: DirRead,
}

/// The mathematical form of a [`CourseRead`].
pub struct CourseReadView {
    pub name: Seq<char>,
    pub read: DirReadView,
}

impl View for CourseRead {
    type V = CourseReadView;

    open spec fn view(&self) -> CourseReadView {
        CourseReadView { name: self.name@, read: self.read@ }
    }
}

impl DeepView for CourseRead {
    type V = CourseReadView;

    open spec fn deep_view(&self) -> CourseReadView {
        self.view()
    }
}

/// Whether the course at position `at` is the first whose directory could
/// not be read.
pub open spec fn is_first_failure(courses: Seq<CourseReadView>, at: int) -> bool {
    &&& 0 <= at < courses.len()
    &&& courses[at].read is Failed
    &&& forall|i: int| 0 <= i < at ==> !((#[trigger] courses[i]).read is Failed)
}

/// Whether `message` is what the first course directory that could not be
/// read failed with.
pub open spec fn fails_with(courses: Seq<CourseReadView>, message: Seq<char>) -> bool {
    exists|at: int| #[trigger]
        is_first_failure(courses, at) && courses[at].read == DirReadView::Failed(message)
}

/// Whether every course directory could be read, or was missing.
pub open spec fn none_failed(courses: Seq<CourseReadView>) -> bool {
    forall|i: int| 0 <= i < courses.len() ==> !((#[trigger] courses[i]).read is Failed)
}

/// A failed read behind courses of which none failed is the first failure.
pub proof fn lemma_failure_is_first(
    courses: Seq<CourseReadView>,
    at: int,
    message: Seq<char>,
)
    requires
        0 <= at < courses.len(),
        none_failed(courses.take(at)),
        courses[at].read == DirReadView::Failed(message),
    ensures
        fails_with(courses, message),
        !none_failed(courses),
{
    assert forall|i: int| 0 <= i < at implies !((#[trigger] courses[i]).read is Failed) by {
        assert(courses.take(at)[i] == courses[i]);
    }
    assert(is_first_failure(courses, at));
}

/// Courses of which none failed, and one more that did not fail.
pub proof fn lemma_none_failed_next(courses: Seq<CourseReadView>, at: int)
    requires
        0 <= at < courses.len(),
        none_failed(courses.take(at)),
        !(courses[at].read is Failed),
    ensures
        none_failed(courses.take(at + 1)),
{
    assert forall|i: int| 0 <= i < at + 1 implies !((#[trigger] courses.take(at + 1)[i]).read
        is Failed) by {
        if i < at {
            assert(courses.take(at)[i] == courses.take(at + 1)[i]);
        }
    }
}

} // verus!
