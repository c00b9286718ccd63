use echo_lectures::paths::course_dir_path;
use echo_lectures::paths::file_path;
use echo_lectures::paths::APP_DIR;
use echo_lectures::paths::CLASSES_DIR;
use echo_lectures::paths::FALLBACK_DIR;
use echo_lectures::paths::storage_root_under;
use std::path::Path;
use std::path::MAIN_SEPARATOR;

#[test]
fn the_storage_root_lies_two_segments_below_the_documents() {
    let root = storage_root_under(Some("documents".to_string()));
    assert_eq!(root, format!("documents{}echo{}Classes", MAIN_SEPARATOR, MAIN_SEPARATOR));
    assert_eq!(root, Path::new("documents").join("echo").join("Classes").to_string_lossy());
}

#[test]
fn without_documents_the_root_lies_below_the_current_directory() {
    let root = storage_root_under(None);
    assert_eq!(root, format!(".{}echo{}Classes", MAIN_SEPARATOR, MAIN_SEPARATOR));
    assert_eq!(root, Path::new(".").join("echo").join("Classes").to_string_lossy());
}

#[test]
fn a_documents_directory_that_ends_in_a_separator_gets_no_second_one() {
    let documents = format!("documents{}", MAIN_SEPARATOR);
    let root = storage_root_under(Some(documents));
    assert_eq!(root, format!("documents{}echo{}Classes", MAIN_SEPARATOR, MAIN_SEPARATOR));
}

#[test]
fn the_fixed_directories_have_their_names() {
    assert_eq!(APP_DIR, "echo");
    assert_eq!(CLASSES_DIR, "Classes");
    assert_eq!(FALLBACK_DIR, ".");
}

#[test]
fn the_root_ends_in_the_fixed_directories() {
    let root = storage_root_under(Some("documents".to_string()));
    assert!(Path::new(&root).ends_with(Path::new(APP_DIR).join(CLASSES_DIR)));
    let root = storage_root_under(None);
    assert!(Path::new(&root).starts_with(FALLBACK_DIR));
    assert_eq!(Path::new(&root), Path::new(FALLBACK_DIR).join(APP_DIR).join(CLASSES_DIR));
}

#[test]
fn an_absolute_documents_directory_gives_an_absolute_root() {
    let documents = format!("{}home{}ada{}Documents", MAIN_SEPARATOR, MAIN_SEPARATOR, MAIN_SEPARATOR);
    let root = storage_root_under(Some(documents.clone()));
    assert_eq!(root, format!("{}{}echo{}Classes", documents, MAIN_SEPARATOR, MAIN_SEPARATOR));
}

#[test]
fn a_course_directory_is_the_name_below_the_root() {
    assert_eq!(course_dir_path("root", "CS101"), format!("root{}CS101", MAIN_SEPARATOR));
    assert_eq!(course_dir_path("root", "Math 2"), Path::new("root").join("Math 2").to_string_lossy());
}

#[test]
fn the_course_name_is_used_as_it_is() {
    let nested = format!("a{}b", MAIN_SEPARATOR);
    assert_eq!(
        course_dir_path("root", &nested),
        format!("root{}a{}b", MAIN_SEPARATOR, MAIN_SEPARATOR)
    );
    assert_eq!(course_dir_path("root", ".."), Path::new("root").join("..").to_string_lossy());
}

#[test]
fn the_same_course_gives_the_same_directory() {
    assert_eq!(course_dir_path("root", "CS101"), course_dir_path("root", "CS101"));
    let root = storage_root_under(Some("documents".to_string()));
    assert_eq!(course_dir_path(&root, "CS101"), course_dir_path(&root, "CS101"));
    assert_ne!(course_dir_path(&root, "CS101"), course_dir_path(&root, "CS102"));
}

#[test]
fn a_file_lies_below_its_directory() {
    assert_eq!(file_path("dir", "a.webm"), format!("dir{}a.webm", MAIN_SEPARATOR));
    assert_eq!(file_path("", "a.webm"), "a.webm");
}
