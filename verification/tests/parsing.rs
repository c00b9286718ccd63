use echo_lectures::lecture::has_media_extension;
use echo_lectures::lecture::parse_entry;
use echo_lectures::lecture::LectureInfo;
use echo_lectures::paths::file_path;
use echo_lectures::storage::EntryKind;
use echo_lectures::storage::FileEntry;

fn named_file(name: &str) -> FileEntry {
    FileEntry { name: Some(name.to_string()), kind: EntryKind::File }
}

fn parsed_in_course(name: &str) -> LectureInfo {
    match parse_entry("courses", &named_file(name)) {
        Some(lecture) => lecture,
        None => panic!("{} was not read as a recording", name),
    }
}

#[test]
fn date_and_title_are_split_at_the_first_underscore() {
    let lecture = parsed_in_course("20240115_Intro to Systems.webm");
    assert_eq!(lecture.date, "20240115");
    assert_eq!(lecture.title, "Intro to Systems");
    assert_eq!(lecture.filename, "20240115_Intro to Systems");
}

#[test]
fn a_name_without_separator_is_all_date() {
    let lecture = parsed_in_course("20240115.webm");
    assert_eq!(lecture.date, "20240115");
    assert_eq!(lecture.title, "");
    assert_eq!(lecture.filename, "20240115");
}

#[test]
fn the_title_keeps_its_own_underscores() {
    let lecture = parsed_in_course("20240115_part_one_of_two.webm");
    assert_eq!(lecture.date, "20240115");
    assert_eq!(lecture.title, "part_one_of_two");
    assert_eq!(lecture.filename, "20240115_part_one_of_two");
}

#[test]
fn a_separator_at_the_end_leaves_an_empty_title() {
    let lecture = parsed_in_course("20240115_.webm");
    assert_eq!(lecture.date, "20240115");
    assert_eq!(lecture.title, "");
    assert_eq!(lecture.filename, "20240115_");
}

#[test]
fn a_separator_at_the_start_leaves_an_empty_date() {
    let lecture = parsed_in_course("_untitled.webm");
    assert_eq!(lecture.date, "");
    assert_eq!(lecture.title, "untitled");
    assert_eq!(lecture.filename, "_untitled");
}

#[test]
fn the_date_is_not_read_as_a_calendar_date() {
    let lecture = parsed_in_course("someday_Later.webm");
    assert_eq!(lecture.date, "someday");
    assert_eq!(lecture.title, "Later");
}

#[test]
fn only_the_last_extension_is_taken_off() {
    let lecture = parsed_in_course("20240115_notes.v2.webm");
    assert_eq!(lecture.filename, "20240115_notes.v2");
    assert_eq!(lecture.date, "20240115");
    assert_eq!(lecture.title, "notes.v2");
}

#[test]
fn names_beyond_ascii_are_split_by_character() {
    let lecture = parsed_in_course("20240115_Einführung – Teil 1.webm");
    assert_eq!(lecture.date, "20240115");
    assert_eq!(lecture.title, "Einführung – Teil 1");
    assert_eq!(lecture.filename, "20240115_Einführung – Teil 1");
    let lecture = parsed_in_course("日付_講義.webm");
    assert_eq!(lecture.date, "日付");
    assert_eq!(lecture.title, "講義");
}

#[test]
fn the_path_is_the_file_in_its_directory() {
    let lecture = parsed_in_course("20240115_Intro.webm");
    let expected = std::path::Path::new("courses").join("20240115_Intro.webm");
    assert_eq!(lecture.path, expected.to_string_lossy());
    assert_eq!(lecture.path, file_path("courses", "20240115_Intro.webm"));
    assert_eq!(
        lecture.path,
        format!("courses{}20240115_Intro.webm", std::path::MAIN_SEPARATOR)
    );
}

#[test]
fn the_whole_record_is_as_expected() {
    let expected = LectureInfo {
        filename: "20240115_Intro to Systems".to_string(),
        date: "20240115".to_string(),
        title: "Intro to Systems".to_string(),
        path: format!("courses{}20240115_Intro to Systems.webm", std::path::MAIN_SEPARATOR),
    };
    assert_eq!(parsed_in_course("20240115_Intro to Systems.webm"), expected);
}

#[test]
fn other_extensions_are_passed_over() {
    assert_eq!(parse_entry("courses", &named_file("20240115_Intro.mp4")), None);
    assert_eq!(parse_entry("courses", &named_file("20240115_Intro.webm.part")), None);
    assert_eq!(parse_entry("courses", &named_file("20240115_Intro")), None);
    assert_eq!(parse_entry("courses", &named_file("20240115_Introwebm")), None);
    assert_eq!(parse_entry("courses", &named_file("notes.txt")), None);
    assert_eq!(parse_entry("courses", &named_file("")), None);
}

#[test]
fn the_extension_is_matched_by_case() {
    assert_eq!(parse_entry("courses", &named_file("20240115_Intro.WEBM")), None);
    assert_eq!(parse_entry("courses", &named_file("20240115_Intro.Webm")), None);
    assert!(parse_entry("courses", &named_file("20240115_Intro.webm")).is_some());
}

#[test]
fn a_name_that_is_only_the_extension_is_passed_over() {
    assert_eq!(parse_entry("courses", &named_file(".webm")), None);
    assert_eq!(parse_entry("courses", &named_file("webm")), None);
    assert!(parse_entry("courses", &named_file("a.webm")).is_some());
}

#[test]
fn what_is_not_a_regular_file_is_passed_over() {
    let directory =
        FileEntry { name: Some("20240115_Intro.webm".to_string()), kind: EntryKind::Directory };
    let other = FileEntry { name: Some("20240115_Intro.webm".to_string()), kind: EntryKind::Other };
    assert_eq!(parse_entry("courses", &directory), None);
    assert_eq!(parse_entry("courses", &other), None);
}

#[test]
fn a_name_that_is_not_text_is_passed_over() {
    let unreadable = FileEntry { name: None, kind: EntryKind::File };
    assert_eq!(parse_entry("courses", &unreadable), None);
}

#[test]
fn media_extension_is_recognized() {
    assert!(has_media_extension("a.webm"));
    assert!(has_media_extension("20240115_Intro to Systems.webm"));
    assert!(has_media_extension("a.b.webm"));
    assert!(has_media_extension("é.webm"));
    assert!(has_media_extension("..webm"));
    assert!(!has_media_extension(".webm"));
    assert!(!has_media_extension("webm"));
    assert!(!has_media_extension(""));
    assert!(!has_media_extension("a.webm "));
    assert!(!has_media_extension("a.WEBM"));
    assert!(!has_media_extension("a.web"));
    assert!(!has_media_extension("a.xwebm"));
    assert!(!has_media_extension("a_webm"));
}
