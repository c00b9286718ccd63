//! Reading the storage course by course.
//!
//! A scan starts from a read of the storage root. It names the course whose
//! directory is to be read next, takes what that read gave, and goes on
//! until every course was read or one could not be read. Which courses are
//! read, and in which order, is decided here and nowhere else: they are the
//! courses that the root's listing shows.

use vstd::prelude::*;

use crate::courses::course_names;
use crate::courses::list_courses;
use crate::storage::none_failed;
use crate::storage::CourseRead;
use crate::storage::CourseReadView;
use crate::storage::DirRead;
use crate::storage::DirReadView;

verus! {

/// The names of the courses that a read of the storage root shows. A root
/// that is missing or could not be read shows none.
pub open spec fn courses_of(root: DirReadView) -> Seq<Seq<char>> {
    match root {
        DirReadView::Listed(entries) => course_names(entries),
        _ => Seq::empty(),
    }
}

/// What was read of the storage so far: the root, and the first so many of
/// its courses.
pub struct StorageScan {
    root: DirRead,
    names: Vec<String>,
    courses: Vec<CourseRead>,
}

/// The mathematical form of a [`StorageScan`].
pub struct StorageScanView {
    /// What reading the storage root gave.
    pub root: DirReadView,
    /// The courses read so far, each with what reading its directory gave.
    pub courses: Seq<CourseReadView>,
}

impl StorageScanView {
    /// What holds of every scan: the courses read are the first of those
    /// that the root shows, in that order, and only the last of them may
    /// have failed.
    pub open spec fn well_formed(self) -> bool {
        &&& self.courses.len() <= courses_of(self.root).len()
        &&& forall|i: int|
            0 <= i < self.courses.len() ==> (#[trigger] self.courses[i]).name == courses_of(
                self.root,
            )[i]
        &&& forall|i: int|
            0 <= i < self.courses.len() - 1 ==> !((#[trigger] self.courses[i]).read is Failed)
    }

    /// The course whose directory is to be read next: the first that was not
    /// read yet, as long as no read failed.
    pub open spec fn next_name(self) -> Option<Seq<char>> {
        if self.courses.len() < courses_of(self.root).len() && none_failed(self.courses) {
            Some(courses_of(self.root)[self.courses.len() as int])
        } else {
            None
        }
    }

    /// Whether nothing is left to read.
    pub open spec fn is_complete(self) -> bool {
        self.next_name() is None
    }
}

impl View for StorageScan {
    type V = StorageScanView;

    closed spec fn view(&self) -> StorageScanView {
        StorageScanView { root: self.root@, courses: self.courses.deep_view() }
    }
}

/// A complete scan in which no read failed holds every course that the root
/// shows, and no other.
pub proof fn lemma_complete_scan_holds_every_course(scan: StorageScanView)
    requires
        scan.well_formed(),
        scan.is_complete(),
        none_failed(scan.courses),
    ensures
        scan.courses.len() == courses_of(scan.root).len(),
        forall|i: int|
            0 <= i < scan.courses.len() ==> (#[trigger] scan.courses[i]).name == courses_of(
                scan.root,
            )[i],
{
}

/// Below a root that is missing or could not be read no course is read.
pub proof fn lemma_no_courses_without_listing(scan: StorageScanView)
    requires
        scan.well_formed(),
        !(scan.root is Listed),
    ensures
        scan.courses.len() == 0,
        scan.is_complete(),
{
}

impl StorageScan {
    #[verifier::type_invariant]
    spec fn holds_together(self) -> bool {
        &&& self.names.deep_view() == courses_of(self.root@)
        &&& self@.well_formed()
    }

    /// Starts a scan from what reading the storage root gave.
    pub fn begin(root: DirRead) -> (scan: StorageScan)
        ensures
            scan@.root == root@,
            scan@.courses == Seq::<CourseReadView>::empty(),
            scan@.well_formed(),
    {
        let names = match list_courses(&root) {
            Ok(names) => names,
            Err(_) => Vec::new(),
        };
        let courses: Vec<CourseRead> = Vec::new();
        proof {
            assert(names.deep_view() =~= courses_of(root@));
            assert(courses.deep_view() =~= Seq::<CourseReadView>::empty());
        }
        StorageScan { root, names, courses }
    }

    /// What reading the storage root gave.
    pub fn root(&self) -> (root: &DirRead)
        ensures
            root@ == self@.root,
            self@.well_formed(),
    {
        proof {
            use_type_invariant(self);
        }
        &self.root
    }

    /// The courses read so far.
    pub fn courses(&self) -> (courses: &Vec<CourseRead>)
        ensures
            courses.deep_view() == self@.courses,
            self@.well_formed(),
    {
        proof {
            use_type_invariant(self);
        }
        &self.courses
    }

    /// The name of the course whose directory is to be read next, or `None`
    /// when the scan is complete: every course was read, or the last read
    /// failed, or the root shows no courses at all.
    pub fn next_course(&self) -> (next: Option<String>)
        ensures
            next.deep_view() == self@.next_name(),
            self@.well_formed(),
    {
        proof {
            use_type_invariant(self);
        }
        let done: usize = self.courses.len();
        if done >= self.names.len() {
            return None;
        }
        if done > 0 {
            match &self.courses[done - 1].read {
                DirRead::Failed(_) => {
                    assert(self@.courses[done - 1].read is Failed);
                    return None;
                },
                _ => {},
            }
        }
        assert(none_failed(self@.courses)) by {
            assert forall|i: int| 0 <= i < self@.courses.len() implies !((
            #[trigger] self@.courses[i]).read is Failed) by {
                if i == done - 1 {
                    assert(self@.courses[i] == self.courses[done - 1]@);
                }
            }
        }
        Some(self.names[done].clone())
    }

    /// Takes what reading the directory of the next course gave. On a scan
    /// that is complete there is no next course, and nothing changes.
    pub fn record(self, read: DirRead) -> (scan: StorageScan)
        ensures
            scan@.root == self@.root,
            scan@.courses == (match self@.next_name() {
                Some(name) => self@.courses.push(CourseReadView { name, read: read@ }),
                None => self@.courses,
            }),
            scan@.well_formed(),
    {
        proof {
            use_type_invariant(&self);
        }
        match self.next_course() {
            None => self,
            Some(name) => {
                let ghost before = self@.courses;
                let ghost added = CourseReadView { name: name@, read: read@ };
                let StorageScan { root, names, courses } = self;
                let mut courses = courses;
                courses.push(CourseRead { name, read });
                proof {
                    assert(courses.deep_view() =~= before.push(added));
                }
                StorageScan { root, names, courses }
            },
        }
    }
}

} // verus!
