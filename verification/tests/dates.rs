use echo_lectures::dates::get_dates_with_lectures;
use echo_lectures::dates::get_lectures_for_date;
use echo_lectures::storage::CourseRead;
use echo_lectures::storage::DirRead;
use echo_lectures::storage::EntryKind;
use echo_lectures::scan::StorageScan;
use echo_lectures::storage::FileEntry;

fn recording(name: &str) -> FileEntry {
    FileEntry { name: Some(name.to_string()), kind: EntryKind::File }
}

fn course(name: &str, files: Vec<&str>) -> CourseRead {
    let mut entries = Vec::new();
    for file in files {
        entries.push(recording(file));
    }
    CourseRead { name: name.to_string(), read: DirRead::Listed(entries) }
}

fn scanned(courses: Vec<CourseRead>) -> StorageScan {
    let mut shown = Vec::new();
    for course in &courses {
        shown.push(FileEntry { name: Some(course.name.clone()), kind: EntryKind::Directory });
    }
    let mut scan = StorageScan::begin(DirRead::Listed(shown));
    let mut reads = courses.into_iter();
    while let Some(name) = scan.next_course() {
        let course = reads.next().unwrap();
        assert_eq!(course.name, name);
        scan = scan.record(course.read);
    }
    scan
}

fn two_courses() -> StorageScan {
    scanned(vec![
        course("CS101", vec![
            "20240115_Intro.webm",
            "20240116_Processes.webm",
            "20240115_Lab.webm",
        ]),
        course("MATH", vec!["20240120_Limits.webm", "20240115_Algebra.webm"]),
    ])
}

#[test]
fn lectures_of_a_date_carry_their_course_in_the_title() {
    let storage = scanned(vec![course("CS101", vec!["20240115_Intro.webm"])]);
    let lectures = get_lectures_for_date("root", &storage, "20240115").unwrap();
    assert_eq!(lectures.len(), 1);
    assert!(lectures[0].title.starts_with("CS101 - "));
    assert_eq!(lectures[0].title, "CS101 - Intro");
    assert_eq!(lectures[0].filename, "20240115_Intro");
    assert_eq!(lectures[0].date, "20240115");
    let expected = std::path::Path::new("root").join("CS101").join("20240115_Intro.webm");
    assert_eq!(lectures[0].path, expected.to_string_lossy());
}

#[test]
fn lectures_of_a_date_come_from_every_course() {
    let lectures = get_lectures_for_date("root", &two_courses(), "20240115").unwrap();
    let titles: Vec<&str> = lectures.iter().map(|lecture| lecture.title.as_str()).collect();
    assert_eq!(titles, vec!["CS101 - Lab", "CS101 - Intro", "MATH - Algebra"]);
    let names: Vec<&str> = lectures.iter().map(|lecture| lecture.filename.as_str()).collect();
    assert_eq!(names, vec!["20240115_Lab", "20240115_Intro", "20240115_Algebra"]);
}

#[test]
fn lectures_of_a_date_never_rise_in_file_name() {
    let storage = scanned(vec![
        course("A", vec!["d_3.webm", "d_1.webm", "d_5.webm"]),
        course("B", vec!["d_4.webm", "d_2.webm", "d.webm"]),
    ]);
    let lectures = get_lectures_for_date("root", &storage, "d").unwrap();
    let names: Vec<&str> = lectures.iter().map(|lecture| lecture.filename.as_str()).collect();
    assert_eq!(names, vec!["d_5", "d_4", "d_3", "d_2", "d_1", "d"]);
    for pair in lectures.windows(2) {
        assert!(pair[0].filename >= pair[1].filename);
    }
}

#[test]
fn one_file_name_in_two_courses_keeps_the_order_of_the_courses() {
    let storage = scanned(vec![
        course("Second", vec!["20240115_Intro.webm"]),
        course("First", vec!["20240115_Intro.webm"]),
    ]);
    let lectures = get_lectures_for_date("root", &storage, "20240115").unwrap();
    let titles: Vec<&str> = lectures.iter().map(|lecture| lecture.title.as_str()).collect();
    assert_eq!(titles, vec!["Second - Intro", "First - Intro"]);
}

#[test]
fn an_empty_title_still_gets_the_course() {
    let storage = scanned(vec![course("CS101", vec!["20240115.webm"])]);
    let lectures = get_lectures_for_date("root", &storage, "20240115").unwrap();
    assert_eq!(lectures.len(), 1);
    assert_eq!(lectures[0].title, "CS101 - ");
}

#[test]
fn only_the_requested_date_is_shown() {
    let lectures = get_lectures_for_date("root", &two_courses(), "20240116").unwrap();
    assert_eq!(lectures.len(), 1);
    assert_eq!(lectures[0].title, "CS101 - Processes");
    let lectures = get_lectures_for_date("root", &two_courses(), "2024011").unwrap();
    assert!(lectures.is_empty());
    let lectures = get_lectures_for_date("root", &two_courses(), "20240115_Intro").unwrap();
    assert!(lectures.is_empty());
}

#[test]
fn a_date_without_lectures_gives_nothing() {
    assert_eq!(get_lectures_for_date("root", &two_courses(), "19990101"), Ok(Vec::new()));
}

#[test]
fn a_missing_root_has_no_lectures_and_no_dates() {
    assert_eq!(get_lectures_for_date("root", &StorageScan::begin(DirRead::Missing), "20240115"), Ok(Vec::new()));
    assert_eq!(get_dates_with_lectures("root", &StorageScan::begin(DirRead::Missing)), Ok(Vec::new()));
}

#[test]
fn a_root_without_courses_has_no_lectures_and_no_dates() {
    let storage = scanned(Vec::new());
    assert_eq!(get_lectures_for_date("root", &storage, "20240115"), Ok(Vec::new()));
    assert_eq!(get_dates_with_lectures("root", &storage), Ok(Vec::new()));
}

#[test]
fn a_missing_course_directory_counts_as_empty() {
    let storage = scanned(vec![
        CourseRead { name: "Gone".to_string(), read: DirRead::Missing },
        course("CS101", vec!["20240115_Intro.webm"]),
    ]);
    let lectures = get_lectures_for_date("root", &storage, "20240115").unwrap();
    assert_eq!(lectures.len(), 1);
    assert_eq!(lectures[0].title, "CS101 - Intro");
    assert_eq!(get_dates_with_lectures("root", &storage), Ok(vec!["20240115".to_string()]));
}

#[test]
fn an_unreadable_root_gives_its_message() {
    let storage = StorageScan::begin(DirRead::Failed("permission denied".to_string()));
    assert_eq!(
        get_lectures_for_date("root", &storage, "20240115"),
        Err("permission denied".to_string())
    );
    assert_eq!(get_dates_with_lectures("root", &storage), Err("permission denied".to_string()));
}

#[test]
fn the_first_unreadable_course_gives_its_message() {
    let storage = scanned(vec![
        course("CS101", vec!["20240115_Intro.webm"]),
        CourseRead { name: "Locked".to_string(), read: DirRead::Failed("denied".to_string()) },
        CourseRead { name: "Broken".to_string(), read: DirRead::Failed("broken".to_string()) },
        course("MATH", vec!["20240115_Algebra.webm"]),
    ]);
    assert_eq!(get_lectures_for_date("root", &storage, "20240115"), Err("denied".to_string()));
    assert_eq!(get_lectures_for_date("root", &storage, "19990101"), Err("denied".to_string()));
    assert_eq!(get_dates_with_lectures("root", &storage), Err("denied".to_string()));
}

#[test]
fn dates_are_listed_once_each() {
    let dates = get_dates_with_lectures("root", &two_courses()).unwrap();
    assert_eq!(dates, vec!["20240116", "20240115", "20240120"]);
    for (i, date) in dates.iter().enumerate() {
        for other in &dates[i + 1..] {
            assert_ne!(date, other);
        }
    }
}

#[test]
fn a_date_shared_by_two_courses_is_listed_once() {
    let storage = scanned(vec![
        course("CS101", vec!["20240115_Intro.webm"]),
        course("MATH", vec!["20240115_Algebra.webm"]),
    ]);
    assert_eq!(get_dates_with_lectures("root", &storage), Ok(vec!["20240115".to_string()]));
}

#[test]
fn dates_come_in_the_order_in_which_courses_bring_them_up() {
    let storage = scanned(vec![
        course("CS101", vec!["20240101_a.webm", "20240301_b.webm", "20240101_c.webm"]),
        course("MATH", vec!["20240201_x.webm", "20240301_y.webm", "20250101_z.webm"]),
    ]);
    assert_eq!(
        get_dates_with_lectures("root", &storage),
        Ok(vec![
            "20240301".to_string(),
            "20240101".to_string(),
            "20250101".to_string(),
            "20240201".to_string(),
        ])
    );
}

#[test]
fn dates_ignore_what_is_no_recording() {
    let storage = scanned(vec![CourseRead {
        name: "CS101".to_string(),
        read: DirRead::Listed(vec![
            recording("20240115_Intro.webm"),
            recording("20240116_Notes.txt"),
            FileEntry { name: Some("20240117_Dir.webm".to_string()), kind: EntryKind::Directory },
            FileEntry { name: None, kind: EntryKind::File },
        ]),
    }]);
    assert_eq!(get_dates_with_lectures("root", &storage), Ok(vec!["20240115".to_string()]));
}

#[test]
fn asking_twice_gives_the_same() {
    let storage = two_courses();
    assert_eq!(
        get_lectures_for_date("root", &storage, "20240115"),
        get_lectures_for_date("root", &storage, "20240115")
    );
    assert_eq!(get_dates_with_lectures("root", &storage), get_dates_with_lectures("root", &storage));
}
