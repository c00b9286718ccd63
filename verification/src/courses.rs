//! Courses and their lectures: what a listing of the storage root and of a
//! course directory says.

use vstd::prelude::*;

use crate::lecture::is_lecture_entry;
use crate::lecture::parse_entry;
use crate::lecture::record_of;
use crate::lecture::LectureInfo;
use crate::lecture::LectureRecord;
use crate::paths::course_dir;
use crate::paths::course_dir_path;
use crate::sorting::is_descending;
use crate::sorting::lemma_sorted_descending_exists;
use crate::sorting::lemma_sorted_holds_given;
use crate::sorting::sort_descending;
use crate::sorting::sorted_descending;
use crate::sorting::LectureField;
use crate::storage::DirRead;
use crate::storage::DirReadView;
use crate::storage::EntryKind;
use crate::storage::FileEntryView;

verus! {

/// Whether an entry of the storage root is a course: a directory whose name
/// is valid text.
pub open spec fn is_course_entry(entry: FileEntryView) -> bool {
    entry.kind == EntryKind::Directory && entry.name is Some
}

/// The entries that are courses.
pub open spec fn course_entries() -> spec_fn(FileEntryView) -> bool {
    |entry: FileEntryView| is_course_entry(entry)
}

/// The name of an entry.
pub open spec fn entry_name() -> spec_fn(FileEntryView) -> Seq<char> {
    |entry: FileEntryView| entry.name->0
}

/// The names of the courses among the entries of the storage root, in the
/// order of the entries.
pub open spec fn course_names(entries: Seq<FileEntryView>) -> Seq<Seq<char>> {
    entries.filter(course_entries()).map_values(entry_name())
}

/// The entries that are recordings.
pub open spec fn lecture_entries() -> spec_fn(FileEntryView) -> bool {
    |entry: FileEntryView| is_lecture_entry(entry)
}

/// The record of an entry of the directory `dir`.
pub open spec fn entry_record(dir: Seq<char>) -> spec_fn(FileEntryView) -> LectureRecord {
    |entry: FileEntryView| record_of(dir, entry.name->0)
}

/// The records of the recordings among the entries of the directory `dir`,
/// in the order of the entries.
pub open spec fn recordings_in(dir: Seq<char>, entries: Seq<FileEntryView>) -> Seq<
    LectureRecord,
> {
    entries.filter(lecture_entries()).map_values(entry_record(dir))
}

/// The lectures of the course `course_name` below `root`, given what reading
/// the course's directory gave: its recordings from the latest date to the
/// earliest, recordings of one date in the order of the entries. A directory
/// that is missing or unreadable has none.
pub open spec fn course_lectures(
    root: Seq<char>,
    course_name: Seq<char>,
    read: DirReadView,
) -> Seq<LectureRecord> {
    match read {
        DirReadView::Listed(entries) => sorted_descending(
            recordings_in(course_dir(root, course_name), entries),
            LectureField::Date,
        ),
        _ => Seq::empty(),
    }
}

proof fn lemma_course_names_push(entries: Seq<FileEntryView>, entry: FileEntryView)
    ensures
        course_names(entries.push(entry)) == if is_course_entry(entry) {
            course_names(entries).push(entry.name->0)
        } else {
            course_names(entries)
        },
{
    entries.lemma_filter_push(entry, course_entries());
    if is_course_entry(entry) {
        assert(course_names(entries.push(entry)) =~= course_names(entries).push(entry.name->0));
    }
}

proof fn lemma_recordings_push(dir: Seq<char>, entries: Seq<FileEntryView>, entry: FileEntryView)
    ensures
        recordings_in(dir, entries.push(entry)) == if is_lecture_entry(entry) {
            recordings_in(dir, entries).push(record_of(dir, entry.name->0))
        } else {
            recordings_in(dir, entries)
        },
{
    entries.lemma_filter_push(entry, lecture_entries());
    if is_lecture_entry(entry) {
        assert(recordings_in(dir, entries.push(entry)) =~= recordings_in(dir, entries).push(
            record_of(dir, entry.name->0),
        ));
    }
}

/// Every record among the recordings of a directory is the record of one of
/// its entries, and that entry is a regular file with the recognized
/// extension.
pub proof fn lemma_recordings_are_media_files(
    dir: Seq<char>,
    entries: Seq<FileEntryView>,
    lecture: LectureRecord,
) -> (at: int)
    requires
        recordings_in(dir, entries).contains(lecture),
    ensures
        0 <= at < entries.len(),
        is_lecture_entry(entries[at]),
        lecture == record_of(dir, entries[at].name->0),
{
    let kept = entries.filter(lecture_entries());
    let i = choose|i: int|
        0 <= i < recordings_in(dir, entries).len() && recordings_in(dir, entries)[i] == lecture;
    assert(lecture == record_of(dir, kept[i].name->0));
    entries.lemma_filter_pred(lecture_entries(), i);
    assert(kept.contains(kept[i]));
    entries.lemma_filter_contains_rev(lecture_entries(), kept[i]);
    choose|at: int| 0 <= at < entries.len() && entries[at] == kept[i]
}

/// Every lecture listed for a course is the record of an entry of the
/// course's directory that is a regular file with the recognized extension.
pub proof fn lemma_lectures_are_media_files(
    root: Seq<char>,
    course_name: Seq<char>,
    entries: Seq<FileEntryView>,
    lecture: LectureRecord,
) -> (at: int)
    requires
        course_lectures(root, course_name, DirReadView::Listed(entries)).contains(lecture),
    ensures
        0 <= at < entries.len(),
        is_lecture_entry(entries[at]),
        lecture == record_of(course_dir(root, course_name), entries[at].name->0),
{
    let dir = course_dir(root, course_name);
    let given = recordings_in(dir, entries);
    lemma_sorted_descending_exists(given, LectureField::Date);
    lemma_sorted_holds_given(
        sorted_descending(given, LectureField::Date),
        given,
        LectureField::Date,
    );
    lemma_recordings_are_media_files(dir, entries, lecture)
}

/// The lectures of a course run from the latest date to the earliest.
pub proof fn lemma_lectures_are_descending(
    root: Seq<char>,
    course_name: Seq<char>,
    read: DirReadView,
)
    ensures
        is_descending(course_lectures(root, course_name, read), LectureField::Date),
{
    match read {
        DirReadView::Listed(entries) => {
            lemma_sorted_descending_exists(
                recordings_in(course_dir(root, course_name), entries),
                LectureField::Date,
            );
        },
        _ => {},
    }
}

/// The courses that a listing of the storage root shows: the names of its
/// directories, in the order of the listing. A root that does not exist yet
/// holds no course, which is no error; a root that could not be read gives
/// the storage's message.
pub fn list_courses(read: &DirRead) -> (listed: Result<Vec<String>, String>)
    ensures
        (match listed {
            Ok(names) => match read@ {
                DirReadView::Missing => names.len() == 0,
                DirReadView::Failed(_) => false,
                DirReadView::Listed(entries) => names.deep_view() == course_names(entries),
            },
            Err(message) => read@ == DirReadView::Failed(message@),
        }),
{
    match read {
        DirRead::Missing => Ok(Vec::new()),
        DirRead::Failed(message) => Err(message.clone()),
        DirRead::Listed(entries) => {
            let mut names: Vec<String> = Vec::new();
            let mut i: usize = 0;
            proof {
                assert(entries.deep_view().take(0) =~= Seq::<FileEntryView>::empty());
                Seq::<FileEntryView>::empty().lemma_filter_len(course_entries());
                assert(names.deep_view() =~= course_names(entries.deep_view().take(0)));
            }
            while i < entries.len()
                invariant
                    i <= entries.len(),
                    names.deep_view() == course_names(entries.deep_view().take(i as int)),
                decreases entries.len() - i,
            {
                let ghost before = names.deep_view();
                let entry = &entries[i];
                proof {
                    lemma_course_names_push(entries.deep_view().take(i as int), entry@);
                    assert(entries.deep_view().take(i + 1) =~= entries.deep_view().take(
                        i as int,
                    ).push(entry@));
                }
                match entry.kind {
                    EntryKind::Directory => {
                        match &entry.name {
                            Some(name) => {
                                names.push(name.clone());
                                assert(names.deep_view() =~= before.push(name@));
                            },
                            None => {},
                        }
                    },
                    _ => {},
                }
                i += 1;
            }
            proof {
                assert(entries.deep_view().take(entries.len() as int) =~= entries.deep_view());
            }
            Ok(names)
        },
    }
}

/// The lectures of the course `course_name` below `root`, given what reading
/// the course's directory gave: the recordings found there, from the latest
/// date to the earliest. A course directory that does not exist has no
/// lectures, which is no error; one that could not be read gives the
/// storage's message.
///
/// Recordings of one date come in the order of the listing. A file system
/// promises no order of enumeration, so between two listings of one
/// directory lectures of one date may change places.
pub fn list_lectures(root: &str, course_name: &str, read: &DirRead) -> (listed: Result<
    Vec<LectureInfo>,
    String,
>)
    ensures
        (match listed {
            Ok(lectures) => {
                &&& !(read@ is Failed)
                &&& lectures.deep_view() == course_lectures(root@, course_name@, read@)
                &&& is_descending(lectures.deep_view(), LectureField::Date)
                &&& forall|i: int|
                    0 <= i < lectures.len() ==> (#[trigger] lectures.deep_view()[i]).well_formed()
                &&& read@ is Missing ==> lectures.len() == 0
            },
            Err(message) => read@ == DirReadView::Failed(message@),
        }),
{
    match read {
        DirRead::Missing => {
            let none: Vec<LectureInfo> = Vec::new();
            assert(none.deep_view() =~= Seq::<LectureRecord>::empty());
            Ok(none)
        },
        DirRead::Failed(message) => Err(message.clone()),
        DirRead::Listed(entries) => {
            let dir = course_dir_path(root, course_name);
            let mut found: Vec<LectureInfo> = Vec::new();
            let mut i: usize = 0;
            proof {
                assert(entries.deep_view().take(0) =~= Seq::<FileEntryView>::empty());
                Seq::<FileEntryView>::empty().lemma_filter_len(lecture_entries());
                assert(found.deep_view() =~= recordings_in(dir@, entries.deep_view().take(0)));
            }
            while i < entries.len()
                invariant
                    i <= entries.len(),
                    found.deep_view() == recordings_in(dir@, entries.deep_view().take(i as int)),
                    forall|k: int|
                        0 <= k < found.len() ==> (#[trigger] found.deep_view()[k]).well_formed(),
                decreases entries.len() - i,
            {
                let ghost before = found.deep_view();
                let entry = &entries[i];
                proof {
                    lemma_recordings_push(dir@, entries.deep_view().take(i as int), entry@);
                    assert(entries.deep_view().take(i + 1) =~= entries.deep_view().take(
                        i as int,
                    ).push(entry@));
                }
                match parse_entry(dir.as_str(), entry) {
                    Some(lecture) => {
                        let ghost record = lecture@;
                        found.push(lecture);
                        assert(found.deep_view() =~= before.push(record));
                    },
                    None => {},
                }
                i += 1;
            }
            let ghost given = found.deep_view();
            let lectures = sort_descending(found, LectureField::Date);
            proof {
                assert(entries.deep_view().take(entries.len() as int) =~= entries.deep_view());
                lemma_sorted_holds_given(lectures.deep_view(), given, LectureField::Date);
                assert forall|i: int| 0 <= i < lectures.len() implies (
                #[trigger] lectures.deep_view()[i]).well_formed() by {
                    assert(lectures.deep_view().contains(lectures.deep_view()[i]));
                    assert(given.contains(lectures.deep_view()[i]));
                }
            }
            Ok(lectures)
        },
    }
}

} // verus!
