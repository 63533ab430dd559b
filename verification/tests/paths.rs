use gate_keeper::plan_paths::{
    clean_directory_path, clean_path_segment, clean_plan_path, clean_relative_path,
    join_relative_path, parent_directory, plan_display_name, slugify_plan_name,
};
use gate_keeper::store::{folder_rename, folder_to_create, folder_to_delete, demo_error, RenameFolderInput};
use gate_keeper::error::ErrorKind;

#[test]
fn cleaned_paths_never_leave_the_plans_directory() {
    assert_eq!(clean_relative_path(" /team//api/ ", false).unwrap(), "team/api");
    assert_eq!(clean_relative_path("./team/./api", false).unwrap_err().message(), "path traversal is not allowed");
    assert_eq!(clean_relative_path("team/../etc", false).unwrap_err().message(), "path traversal is not allowed");
    assert_eq!(clean_relative_path("a\\b", false).unwrap_err().message(), "invalid path segment");
    assert_eq!(clean_relative_path("   ", true).unwrap_err().message(), "test plan path cannot be empty");
    assert_eq!(clean_directory_path("").unwrap(), "");
    assert_eq!(clean_plan_path("team/x.http").unwrap(), "team/x.http");
    for cleaned in [clean_relative_path("a/b/c", false).unwrap(), clean_relative_path("/x/", false).unwrap()] {
        assert!(cleaned.split('/').all(|s| !s.is_empty() && s != ".." && s != "."));
    }
}

#[test]
fn segments_names_and_slugs() {
    assert_eq!(clean_path_segment(" api ").unwrap(), "api");
    assert!(clean_path_segment("..").is_err());
    assert!(clean_path_segment("a/b").is_err());
    assert_eq!(join_relative_path("", "a.http"), "a.http");
    assert_eq!(join_relative_path("team", "a.http"), "team/a.http");
    assert_eq!(parent_directory("team/api"), Some("team".to_string()));
    assert_eq!(parent_directory("team"), Some(String::new()));
    assert_eq!(parent_directory(""), None);
    assert_eq!(plan_display_name("team/my_smoke-test.http"), "my smoke test");
    assert_eq!(slugify_plan_name("  Hello,   World!! "), "hello-world");
    assert_eq!(slugify_plan_name("!!!"), "untitled-test-plan");
    assert_eq!(slugify_plan_name(""), "untitled-test-plan");
}

#[test]
fn folders_are_checked_before_they_change() {
    assert_eq!(folder_to_create("new/dir").unwrap(), "new/dir");
    assert_eq!(folder_to_create(" / ").unwrap_err().message(), "folder path cannot be empty");
    assert_eq!(folder_to_delete("").unwrap_err().message(), "root folder cannot be deleted");
    let (from, to) = folder_rename(&RenameFolderInput { path: "team/old".to_string(), name: " new ".to_string() }).unwrap();
    assert_eq!(from, "team/old");
    assert_eq!(to, "team/new");
    let (_, to) = folder_rename(&RenameFolderInput { path: "old".to_string(), name: "new".to_string() }).unwrap();
    assert_eq!(to, "new");
    assert_eq!(
        folder_rename(&RenameFolderInput { path: "".to_string(), name: "x".to_string() }).unwrap_err().message(),
        "root folder cannot be renamed"
    );
    assert!(folder_rename(&RenameFolderInput { path: "a".to_string(), name: "..".to_string() }).is_err());
}

#[test]
fn the_error_demo_answers_each_kind() {
    assert_eq!(demo_error("bad-request").kind(), ErrorKind::BadRequest);
    assert_eq!(demo_error("not-found").kind(), ErrorKind::NotFound);
    assert_eq!(demo_error("other").kind(), ErrorKind::Internal);
    assert_eq!(demo_error("internal").message(), "something exploded deep inside the server (demo)");
}

#[test]
fn cleaning_a_cleaned_path_changes_nothing() {
    for (raw, file) in [(" /team//smoke/ ", false), ("a/ b /c.http", true), ("", false)] {
        let once = clean_relative_path(raw, file).unwrap();
        assert_eq!(clean_relative_path(&once, file).unwrap(), once);
    }
    assert_eq!(clean_relative_path(" /team//smoke/ ", false).unwrap(), "team/smoke");
}

#[test]
fn slugs_are_lowercase_words_joined_by_single_dashes() {
    for name in ["--Big__Smoke--Test--", "Ünïcode & More", "x", "A1 b2"] {
        let slug = slugify_plan_name(name);
        assert!(!slug.is_empty());
        assert!(slug.chars().all(|c| c.is_ascii_lowercase() || c.is_ascii_digit() || c == '-'));
        assert!(!slug.starts_with('-') && !slug.ends_with('-') && !slug.contains("--"));
    }
    assert_eq!(slugify_plan_name("--Big__Smoke--Test--"), "big-smoke-test");
    assert_eq!(slugify_plan_name("A1 b2"), "a1-b2");
}

#[test]
fn error_kinds_map_to_status_and_code() {
    assert_eq!(ErrorKind::BadRequest.status(), 400);
    assert_eq!(ErrorKind::NotFound.status(), 404);
    assert_eq!(ErrorKind::Internal.status(), 500);
    assert_eq!(ErrorKind::BadRequest.code(), "BAD_REQUEST");
    assert_eq!(ErrorKind::NotFound.code(), "NOT_FOUND");
    assert_eq!(ErrorKind::Internal.code(), "INTERNAL");
}
