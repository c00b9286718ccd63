//! Lectures across courses: those of one date, and the dates on which
//! anything was recorded.

use vstd::prelude::*;

use crate::courses::course_lectures;
use crate::courses::list_lectures;
use crate::lecture::LectureInfo;
use crate::lecture::LectureRecord;
use crate::sorting::is_descending;
use crate::sorting::lemma_sorted_descending_exists;
use crate::sorting::lemma_sorted_holds_given;
use crate::sorting::sort_descending;
use crate::sorting::sorted_descending;
use crate::sorting::LectureField;
use crate::scan::courses_of;
use crate::scan::StorageScan;
use crate::scan::StorageScanView;
use crate::storage::fails_with;
use crate::storage::lemma_failure_is_first;
use crate::storage::lemma_none_failed_next;
use crate::storage::none_failed;
use crate::storage::CourseReadView;
use crate::storage::DirRead;
use crate::storage::DirReadView;

verus! {

/// A record as it is shown among those of other courses: the title carries
/// the course's name in front, then ` - `, then the title itself.
pub open spec fn with_course(lecture: LectureRecord, course_name: Seq<char>) -> LectureRecord {
    LectureRecord {
        filename: lecture.filename,
        date: lecture.date,
        title: course_name + " - "@ + lecture.title,
        path: lecture.path,
    }
}

/// The records whose date is `date`.
pub open spec fn recorded_on(date: Seq<char>) -> spec_fn(LectureRecord) -> bool {
    |lecture: LectureRecord| lecture.date == date
}

/// Puts the course's name in front of a record's title.
pub open spec fn under_course(course_name: Seq<char>) -> spec_fn(LectureRecord) -> LectureRecord {
    |lecture: LectureRecord| with_course(lecture, course_name)
}

/// The lectures of one course on `date`, in the order of the course's
/// lectures, with the course's name in their titles.
pub open spec fn course_lectures_on(
    root: Seq<char>,
    course: CourseReadView,
    date: Seq<char>,
) -> Seq<LectureRecord> {
    course_lectures(root, course.name, course.read).filter(recorded_on(date)).map_values(
        under_course(course.name),
    )
}

/// For each course its lectures on `date`.
pub open spec fn lectures_on_of(root: Seq<char>, date: Seq<char>) -> spec_fn(
    CourseReadView,
) -> Seq<LectureRecord> {
    |course: CourseReadView| course_lectures_on(root, course, date)
}

/// The lectures of all courses on `date`, course after course.
pub open spec fn gathered_on(
    root: Seq<char>,
    courses: Seq<CourseReadView>,
    date: Seq<char>,
) -> Seq<LectureRecord> {
    courses.map_values(lectures_on_of(root, date)).flatten()
}

/// The lectures of all courses on `date`, by file name from the greatest to
/// the least; lectures with one file name in the order of their courses.
pub open spec fn lectures_on_date(
    root: Seq<char>,
    courses: Seq<CourseReadView>,
    date: Seq<char>,
) -> Seq<LectureRecord> {
    sorted_descending(gathered_on(root, courses, date), LectureField::Filename)
}

/// The date of a record.
pub open spec fn lecture_date() -> spec_fn(LectureRecord) -> Seq<char> {
    |lecture: LectureRecord| lecture.date
}

/// The dates of a course's lectures, one for each lecture, in their order.
pub open spec fn course_dates(root: Seq<char>, course: CourseReadView) -> Seq<Seq<char>> {
    course_lectures(root, course.name, course.read).map_values(lecture_date())
}

/// For each course the dates of its lectures.
pub open spec fn dates_of(root: Seq<char>) -> spec_fn(CourseReadView) -> Seq<Seq<char>> {
    |course: CourseReadView| course_dates(root, course)
}

/// The dates of all lectures of all courses, course after course.
pub open spec fn all_dates(root: Seq<char>, courses: Seq<CourseReadView>) -> Seq<Seq<char>> {
    courses.map_values(dates_of(root)).flatten()
}

/// The texts of a sequence without repetition: each text stands where it
/// occurred first.
pub open spec fn first_occurrences(texts: Seq<Seq<char>>) -> Seq<Seq<char>>
    decreases texts.len(),
{
    if texts.len() == 0 {
        Seq::empty()
    } else if texts.drop_last().contains(texts.last()) {
        first_occurrences(texts.drop_last())
    } else {
        first_occurrences(texts.drop_last()).push(texts.last())
    }
}

/// The dates on which any course has a lecture, each once, in the order in
/// which the courses' lectures bring them up.
pub open spec fn dates_with_lectures(root: Seq<char>, courses: Seq<CourseReadView>) -> Seq<
    Seq<char>,
> {
    first_occurrences(all_dates(root, courses))
}

/// Leaving out repetitions loses no text and adds none.
pub proof fn lemma_first_occurrences_same_texts(texts: Seq<Seq<char>>, text: Seq<char>)
    ensures
        first_occurrences(texts).contains(text) <==> texts.contains(text),
    decreases texts.len(),
{
    if texts.len() > 0 {
        let earlier = texts.drop_last();
        let last = texts.last();
        let kept = first_occurrences(earlier);
        lemma_first_occurrences_same_texts(earlier, text);
        lemma_first_occurrences_same_texts(earlier, last);
        if first_occurrences(texts).contains(text) {
            let i = choose|i: int|
                0 <= i < first_occurrences(texts).len() && first_occurrences(texts)[i] == text;
            if text == last {
                assert(texts[texts.len() - 1] == text);
            } else {
                if !earlier.contains(last) {
                    assert(kept.push(last)[i] == text);
                    assert(kept[i] == text);
                }
                assert(kept.contains(text));
                let j = choose|j: int| 0 <= j < earlier.len() && earlier[j] == text;
                assert(texts[j] == text);
            }
        }
        if texts.contains(text) {
            let i = choose|i: int| 0 <= i < texts.len() && texts[i] == text;
            if i < texts.len() - 1 {
                assert(earlier[i] == text);
            }
            if earlier.contains(text) {
                let j = choose|j: int| 0 <= j < kept.len() && kept[j] == text;
                if !earlier.contains(last) {
                    assert(kept.push(last)[j] == text);
                }
            } else {
                assert(text == last);
                assert(kept.push(last)[kept.len() as int] == text);
            }
        }
    }
}

/// No text occurs twice among the first occurrences.
pub proof fn lemma_first_occurrences_no_duplicates(texts: Seq<Seq<char>>)
    ensures
        first_occurrences(texts).no_duplicates(),
    decreases texts.len(),
{
    if texts.len() > 0 {
        let earlier = texts.drop_last();
        lemma_first_occurrences_no_duplicates(earlier);
        lemma_first_occurrences_same_texts(earlier, texts.last());
    }
}

/// The dates with lectures hold no date twice, whatever the courses share.
pub proof fn lemma_dates_are_distinct(root: Seq<char>, courses: Seq<CourseReadView>)
    ensures
        dates_with_lectures(root, courses).no_duplicates(),
{
    lemma_first_occurrences_no_duplicates(all_dates(root, courses));
}

proof fn lemma_gathered_next(
    root: Seq<char>,
    courses: Seq<CourseReadView>,
    date: Seq<char>,
    upto: int,
)
    requires
        0 <= upto < courses.len(),
    ensures
        gathered_on(root, courses.take(upto + 1), date) == gathered_on(
            root,
            courses.take(upto),
            date,
        ) + course_lectures_on(root, courses[upto], date),
{
    let each = lectures_on_of(root, date);
    assert(courses.take(upto + 1).map_values(each) =~= courses.take(upto).map_values(each).push(
        course_lectures_on(root, courses[upto], date),
    ));
    courses.take(upto).map_values(each).lemma_flatten_push(
        course_lectures_on(root, courses[upto], date),
    );
}

proof fn lemma_all_dates_next(root: Seq<char>, courses: Seq<CourseReadView>, upto: int)
    requires
        0 <= upto < courses.len(),
    ensures
        all_dates(root, courses.take(upto + 1)) == all_dates(root, courses.take(upto))
            + course_dates(root, courses[upto]),
{
    let each = dates_of(root);
    assert(courses.take(upto + 1).map_values(each) =~= courses.take(upto).map_values(each).push(
        course_dates(root, courses[upto]),
    ));
    courses.take(upto).map_values(each).lemma_flatten_push(course_dates(root, courses[upto]));
}

/// Every lecture gathered for a date is a lecture of one of the courses,
/// recorded on that date, with that course's name put in front of its title.
pub proof fn lemma_gathered_come_from_courses(
    root: Seq<char>,
    courses: Seq<CourseReadView>,
    date: Seq<char>,
    lecture: LectureRecord,
) -> (origin: (int, LectureRecord))
    requires
        gathered_on(root, courses, date).contains(lecture),
    ensures
        0 <= origin.0 < courses.len(),
        course_lectures(root, courses[origin.0].name, courses[origin.0].read).contains(origin.1),
        origin.1.date == date,
        lecture == with_course(origin.1, courses[origin.0].name),
    decreases courses.len(),
{
    if courses.len() == 0 {
        assert(courses.map_values(lectures_on_of(root, date)) =~= Seq::<
            Seq<LectureRecord>,
        >::empty());
        assert(false);
        arbitrary()
    } else {
        let last = courses.len() - 1;
        let earlier = courses.take(last);
        let own = course_lectures_on(root, courses[last], date);
        lemma_gathered_next(root, courses, date, last);
        assert(courses.take(last + 1) =~= courses);
        let all = gathered_on(root, earlier, date) + own;
        let i = choose|i: int| 0 <= i < all.len() && all[i] == lecture;
        if i < gathered_on(root, earlier, date).len() {
            assert(gathered_on(root, earlier, date)[i] == lecture);
            let origin = lemma_gathered_come_from_courses(root, earlier, date, lecture);
            assert(earlier[origin.0] == courses[origin.0]);
            origin
        } else {
            let k = i - gathered_on(root, earlier, date).len();
            assert(own[k] == lecture);
            let listed = course_lectures(root, courses[last].name, courses[last].read);
            let kept = listed.filter(recorded_on(date));
            listed.lemma_filter_pred(recorded_on(date), k);
            assert(kept.contains(kept[k]));
            listed.lemma_filter_contains_rev(recorded_on(date), kept[k]);
            (last, kept[k])
        }
    }
}

/// Every lecture shown for a date is a lecture of one of the courses,
/// recorded on that date, and its title starts with that course's name and
/// ` - `.
pub proof fn lemma_lectures_on_date_carry_course(
    root: Seq<char>,
    courses: Seq<CourseReadView>,
    date: Seq<char>,
    lecture: LectureRecord,
) -> (origin: (int, LectureRecord))
    requires
        lectures_on_date(root, courses, date).contains(lecture),
    ensures
        0 <= origin.0 < courses.len(),
        course_lectures(root, courses[origin.0].name, courses[origin.0].read).contains(origin.1),
        origin.1.date == date,
        lecture == with_course(origin.1, courses[origin.0].name),
        lecture.title == courses[origin.0].name + " - "@ + origin.1.title,
{
    let given = gathered_on(root, courses, date);
    lemma_sorted_descending_exists(given, LectureField::Filename);
    lemma_sorted_holds_given(
        sorted_descending(given, LectureField::Filename),
        given,
        LectureField::Filename,
    );
    lemma_gathered_come_from_courses(root, courses, date, lecture)
}

/// Every lecture shown for a date comes from a course that the root's
/// listing shows: its title starts with the name of one of the courses of
/// the listing, and the lecture is one of that course's, recorded on that
/// date. What the listing holds beside courses adds nothing.
pub proof fn lemma_shown_lectures_come_from_listed_courses(
    root: Seq<char>,
    scan: StorageScanView,
    date: Seq<char>,
    lecture: LectureRecord,
) -> (origin: (int, LectureRecord))
    requires
        scan.well_formed(),
        lectures_on_date(root, scan.courses, date).contains(lecture),
    ensures
        0 <= origin.0 < scan.courses.len(),
        origin.0 < courses_of(scan.root).len(),
        scan.courses[origin.0].name == courses_of(scan.root)[origin.0],
        course_lectures(root, courses_of(scan.root)[origin.0], scan.courses[origin.0].read).contains(
            origin.1,
        ),
        origin.1.date == date,
        lecture.title == courses_of(scan.root)[origin.0] + " - "@ + origin.1.title,
{
    lemma_lectures_on_date_carry_course(root, scan.courses, date, lecture)
}

/// Every date among all dates is the date of a lecture of one of the
/// courses.
pub proof fn lemma_dates_come_from_courses(
    root: Seq<char>,
    courses: Seq<CourseReadView>,
    date: Seq<char>,
) -> (origin: (int, LectureRecord))
    requires
        all_dates(root, courses).contains(date),
    ensures
        0 <= origin.0 < courses.len(),
        course_lectures(root, courses[origin.0].name, courses[origin.0].read).contains(origin.1),
        origin.1.date == date,
    decreases courses.len(),
{
    if courses.len() == 0 {
        assert(courses.map_values(dates_of(root)) =~= Seq::<Seq<Seq<char>>>::empty());
        assert(false);
        arbitrary()
    } else {
        let last = courses.len() - 1;
        let earlier = courses.take(last);
        let own = course_dates(root, courses[last]);
        lemma_all_dates_next(root, courses, last);
        assert(courses.take(last + 1) =~= courses);
        let all = all_dates(root, earlier) + own;
        let i = choose|i: int| 0 <= i < all.len() && all[i] == date;
        if i < all_dates(root, earlier).len() {
            assert(all_dates(root, earlier)[i] == date);
            let origin = lemma_dates_come_from_courses(root, earlier, date);
            assert(earlier[origin.0] == courses[origin.0]);
            origin
        } else {
            let k = i - all_dates(root, earlier).len();
            let listed = course_lectures(root, courses[last].name, courses[last].read);
            assert(own[k] == listed[k].date);
            assert(listed.contains(listed[k]));
            (last, listed[k])
        }
    }
}

/// Every date with lectures is the date of a lecture of a course that the
/// root's listing shows.
pub proof fn lemma_listed_dates_come_from_listed_courses(
    root: Seq<char>,
    scan: StorageScanView,
    date: Seq<char>,
) -> (origin: (int, LectureRecord))
    requires
        scan.well_formed(),
        dates_with_lectures(root, scan.courses).contains(date),
    ensures
        0 <= origin.0 < scan.courses.len(),
        origin.0 < courses_of(scan.root).len(),
        scan.courses[origin.0].name == courses_of(scan.root)[origin.0],
        course_lectures(root, courses_of(scan.root)[origin.0], scan.courses[origin.0].read).contains(
            origin.1,
        ),
        origin.1.date == date,
{
    lemma_first_occurrences_same_texts(all_dates(root, scan.courses), date);
    lemma_dates_come_from_courses(root, scan.courses, date)
}

/// Whether `text` is among `texts`.
fn holds_text(texts: &Vec<String>, text: &String) -> (held: bool)
    ensures
        held == texts.deep_view().contains(text@),
{
    let mut i: usize = 0;
    while i < texts.len()
        invariant
            i <= texts.len(),
            forall|k: int| 0 <= k < i ==> texts.deep_view()[k] != text@,
        decreases texts.len() - i,
    {
        if texts[i] == *text {
            assert(texts.deep_view()[i as int] == text@);
            return true;
        }
        i += 1;
    }
    false
}

/// The lectures of all courses that were recorded on `date`, given a scan of
/// the storage. Each title carries its course's name in front. The lectures
/// come by file name, from the greatest to the least.
///
/// The courses are those of the scan, which are courses that the root's
/// listing shows; a caller scans until no course is left. A storage root
/// that does not exist has no lectures, which is no error. A root that could
/// not be read gives the storage's message, and so does the first course
/// directory that could not be read.
pub fn get_lectures_for_date(root: &str, storage: &StorageScan, date: &str) -> (found: Result<
    Vec<LectureInfo>,
    String,
>)
    ensures
        storage@.well_formed(),
        (match found {
            Ok(lectures) => {
                &&& !(storage@.root is Failed)
                &&& none_failed(storage@.courses)
                &&& lectures.deep_view() == lectures_on_date(root@, storage@.courses, date@)
                &&& is_descending(lectures.deep_view(), LectureField::Filename)
                &&& forall|i: int|
                    0 <= i < lectures.len() ==> {
                        &&& (#[trigger] lectures.deep_view()[i]).date == date@
                        &&& lectures.deep_view()[i].well_formed()
                    }
            },
            Err(message) => {
                ||| storage@.root == DirReadView::Failed(message@)
                ||| !(storage@.root is Failed) && fails_with(storage@.courses, message@)
            },
        }),
        storage@.root is Missing ==> found is Ok && found->Ok_0.len() == 0,
{
    match storage.root() {
        DirRead::Failed(reason) => {
            return Err(reason.clone());
        },
        _ => {},
    }
    let courses = storage.courses();
    let wanted: String = date.to_owned();
    let mut gathered: Vec<LectureInfo> = Vec::new();
    let mut i: usize = 0;
    proof {
        assert(courses.deep_view().take(0).map_values(lectures_on_of(root@, date@)) =~= Seq::<
            Seq<LectureRecord>,
        >::empty());
        assert(gathered.deep_view() =~= gathered_on(root@, courses.deep_view().take(0), date@));
    }
    while i < courses.len()
        invariant
            i <= courses.len(),
            storage@.well_formed(),
            !(storage@.root is Failed),
            courses.deep_view() == storage@.courses,
            wanted@ == date@,
            none_failed(courses.deep_view().take(i as int)),
            gathered.deep_view() == gathered_on(root@, courses.deep_view().take(i as int), date@),
            forall|k: int|
                0 <= k < gathered.len() ==> {
                    &&& (#[trigger] gathered.deep_view()[k]).date == date@
                    &&& gathered.deep_view()[k].well_formed()
                },
        decreases courses.len() - i,
    {
        let course = &courses[i];
        let ghost before = gathered.deep_view();
        proof {
            lemma_gathered_next(root@, courses.deep_view(), date@, i as int);
            assert(courses.deep_view()[i as int] == course@);
        }
        match list_lectures(root, course.name.as_str(), &course.read) {
            Err(message) => {
                proof {
                    lemma_failure_is_first(courses.deep_view(), i as int, message@);
                }
                return Err(message);
            },
            Ok(lectures) => {
                let ghost listed = lectures.deep_view();
                let mut j: usize = 0;
                proof {
                    assert(listed.take(0) =~= Seq::<LectureRecord>::empty());
                    listed.take(0).lemma_filter_len(recorded_on(date@));
                    assert(gathered.deep_view() =~= before + listed.take(0).filter(
                        recorded_on(date@),
                    ).map_values(under_course(course@.name)));
                }
                while j < lectures.len()
                    invariant
                        j <= lectures.len(),
                        wanted@ == date@,
                        listed == lectures.deep_view(),
                        forall|k: int|
                            0 <= k < listed.len() ==> (#[trigger] listed[k]).well_formed(),
                        gathered.deep_view() == before + listed.take(j as int).filter(
                            recorded_on(date@),
                        ).map_values(under_course(course@.name)),
                        forall|k: int|
                            0 <= k < gathered.len() ==> {
                                &&& (#[trigger] gathered.deep_view()[k]).date == date@
                                &&& gathered.deep_view()[k].well_formed()
                            },
                    decreases lectures.len() - j,
                {
                    let lecture = &lectures[j];
                    let ghost so_far = gathered.deep_view();
                    proof {
                        assert(listed[j as int] == lecture@);
                        assert(listed.take(j + 1) =~= listed.take(j as int).push(lecture@));
                        listed.take(j as int).lemma_filter_push(lecture@, recorded_on(date@));
                    }
                    if lecture.date == wanted {
                        let shown = LectureInfo {
                            filename: lecture.filename.clone(),
                            date: lecture.date.clone(),
                            title: course.name.clone().concat(" - ").concat(
                                lecture.title.as_str(),
                            ),
                            path: lecture.path.clone(),
                        };
                        assert(shown@ == with_course(lecture@, course@.name));
                        gathered.push(shown);
                        proof {
                            assert(gathered.deep_view() =~= so_far.push(
                                with_course(lecture@, course@.name),
                            ));
                            assert(gathered.deep_view() =~= before + listed.take(j + 1).filter(
                                recorded_on(date@),
                            ).map_values(under_course(course@.name)));
                        }
                    }
                    j += 1;
                }
                proof {
                    assert(listed.take(listed.len() as int) =~= listed);
                    lemma_none_failed_next(courses.deep_view(), i as int);
                }
            },
        }
        i += 1;
    }
    let ghost given = gathered.deep_view();
    let lectures = sort_descending(gathered, LectureField::Filename);
    proof {
        assert(courses.deep_view().take(courses.len() as int) =~= courses.deep_view());
        lemma_sorted_holds_given(lectures.deep_view(), given, LectureField::Filename);
        assert forall|i: int| 0 <= i < lectures.len() implies {
            &&& (#[trigger] lectures.deep_view()[i]).date == date@
            &&& lectures.deep_view()[i].well_formed()
        } by {
            assert(lectures.deep_view().contains(lectures.deep_view()[i]));
            assert(given.contains(lectures.deep_view()[i]));
        }
        if storage@.root is Missing {
            assert(courses.deep_view().map_values(lectures_on_of(root@, date@)) =~= Seq::<
                Seq<LectureRecord>,
            >::empty());
        }
    }
    Ok(lectures)
}

/// The dates on which anything was recorded, given a scan of the storage:
/// every date of every course's lectures, each date once, in the order in
/// which the courses and their lectures bring them up.
///
/// The courses are those of the scan, which are courses that the root's
/// listing shows; a caller scans until no course is left. A storage root
/// that does not exist has no dates, which is no error. A root that could
/// not be read gives the storage's message, and so does the first course
/// directory that could not be read.
pub fn get_dates_with_lectures(root: &str, storage: &StorageScan) -> (found: Result<
    Vec<String>,
    String,
>)
    ensures
        storage@.well_formed(),
        (match found {
            Ok(dates) => {
                &&& !(storage@.root is Failed)
                &&& none_failed(storage@.courses)
                &&& dates.deep_view() == dates_with_lectures(root@, storage@.courses)
                &&& dates.deep_view().no_duplicates()
            },
            Err(message) => {
                ||| storage@.root == DirReadView::Failed(message@)
                ||| !(storage@.root is Failed) && fails_with(storage@.courses, message@)
            },
        }),
        storage@.root is Missing ==> found is Ok && found->Ok_0.len() == 0,
{
    match storage.root() {
        DirRead::Failed(reason) => {
            return Err(reason.clone());
        },
        _ => {},
    }
    let courses = storage.courses();
    let mut dates: Vec<String> = Vec::new();
    let mut i: usize = 0;
    proof {
        assert(courses.deep_view().take(0).map_values(dates_of(root@)) =~= Seq::<
            Seq<Seq<char>>,
        >::empty());
        assert(dates.deep_view() =~= first_occurrences(
            all_dates(root@, courses.deep_view().take(0)),
        ));
    }
    while i < courses.len()
        invariant
            i <= courses.len(),
            storage@.well_formed(),
            !(storage@.root is Failed),
            courses.deep_view() == storage@.courses,
            none_failed(courses.deep_view().take(i as int)),
            dates.deep_view() == first_occurrences(
                all_dates(root@, courses.deep_view().take(i as int)),
            ),
        decreases courses.len() - i,
    {
        let course = &courses[i];
        let ghost seen_before = all_dates(root@, courses.deep_view().take(i as int));
        proof {
            lemma_all_dates_next(root@, courses.deep_view(), i as int);
            assert(courses.deep_view()[i as int] == course@);
        }
        match list_lectures(root, course.name.as_str(), &course.read) {
            Err(message) => {
                proof {
                    lemma_failure_is_first(courses.deep_view(), i as int, message@);
                }
                return Err(message);
            },
            Ok(lectures) => {
                let ghost listed = lectures.deep_view().map_values(lecture_date());
                let mut j: usize = 0;
                proof {
                    assert(listed == course_dates(root@, course@));
                    assert(seen_before + listed.take(0) =~= seen_before);
                }
                while j < lectures.len()
                    invariant
                        j <= lectures.len(),
                        listed == lectures.deep_view().map_values(lecture_date()),
                        dates.deep_view() == first_occurrences(
                            seen_before + listed.take(j as int),
                        ),
                    decreases lectures.len() - j,
                {
                    let date = &lectures[j].date;
                    let ghost seen = seen_before + listed.take(j as int);
                    let ghost so_far = dates.deep_view();
                    proof {
                        assert(listed[j as int] == date@);
                        assert(seen_before + listed.take(j + 1) =~= seen.push(date@));
                        assert(seen.push(date@).drop_last() =~= seen);
                        lemma_first_occurrences_same_texts(seen, date@);
                    }
                    if !holds_text(&dates, date) {
                        dates.push(date.clone());
                        assert(dates.deep_view() =~= so_far.push(date@));
                    }
                    j += 1;
                }
                proof {
                    assert(listed.take(listed.len() as int) =~= listed);
                    lemma_none_failed_next(courses.deep_view(), i as int);
                }
            },
        }
        i += 1;
    }
    proof {
        assert(courses.deep_view().take(courses.len() as int) =~= courses.deep_view());
        lemma_dates_are_distinct(root@, courses.deep_view());
        if storage@.root is Missing {
            assert(courses.deep_view().map_values(dates_of(root@)) =~= Seq::<
                Seq<Seq<char>>,
            >::empty());
        }
    }
    Ok(dates)
}

} // verus!
