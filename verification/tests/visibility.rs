//! The visibility toggles, on both platform variants.

use fileops::model::{make_hidden_name, make_visible_name, Directory, Entry, EntryKind};
use fileops::ops::{
    hide_files_in_directory, list_files, show_files_in_directory, Action, FsError, Platform,
};

fn file(name: &str) -> Entry {
    Entry { name: name.as_bytes().to_vec(), kind: EntryKind::File, attrs: 0 }
}

fn file_with_attrs(name: &str, attrs: u32) -> Entry {
    Entry { name: name.as_bytes().to_vec(), kind: EntryKind::File, attrs }
}

fn dir(entries: Vec<Entry>) -> Option<Directory> {
    Some(Directory { entries })
}

fn names(list: &[&str]) -> Vec<Vec<u8>> {
    list.iter().map(|n| n.as_bytes().to_vec()).collect()
}

#[test]
fn hidden_name_prepends_one_marker() {
    assert_eq!(make_hidden_name(&b"notes.txt".to_vec()), b".notes.txt".to_vec());
    assert_eq!(make_hidden_name(&b".already".to_vec()), b"..already".to_vec());
}

#[test]
fn visible_name_strips_every_leading_marker() {
    assert_eq!(make_visible_name(&b".notes".to_vec()), b"notes".to_vec());
    assert_eq!(make_visible_name(&b"...deep".to_vec()), b"deep".to_vec());
    assert_eq!(make_visible_name(&b"plain".to_vec()), b"plain".to_vec());
    assert_eq!(make_visible_name(&b"".to_vec()), b"".to_vec());
}

#[test]
fn hide_naming_renames_to_dotted() {
    let d = dir(vec![file("f"), file("g")]);
    let out = hide_files_in_directory(Platform::NamingConvention, &d, &names(&["f"]))
        .expect("directory exists");
    assert!(out.failure.is_none());
    assert_eq!(out.actions, vec![Action::Rename { from: b"f".to_vec(), to: b".f".to_vec() }]);
    assert_eq!(out.dir.entries, vec![file(".f"), file("g")]);
}

#[test]
fn hide_missing_directory_not_found() {
    let r = hide_files_in_directory(Platform::NamingConvention, &None, &names(&["f"]));
    assert_eq!(r.unwrap_err(), FsError::NotFound);
    let r = show_files_in_directory(Platform::AttributeFlag, &None, &names(&["f"]));
    assert_eq!(r.unwrap_err(), FsError::NotFound);
}

#[test]
fn hide_naming_skips_missing_file() {
    let d = dir(vec![file("f")]);
    let out = hide_files_in_directory(Platform::NamingConvention, &d, &names(&["g"]))
        .expect("directory exists");
    assert!(out.failure.is_none());
    assert!(out.actions.is_empty());
    assert_eq!(out.dir.entries, vec![file("f")]);
}

#[test]
fn hide_naming_conflict_already_exists() {
    let d = dir(vec![file("f"), file(".f")]);
    let out = hide_files_in_directory(Platform::NamingConvention, &d, &names(&["f"]))
        .expect("directory exists");
    let failure = out.failure.expect("the hidden form already exists");
    assert_eq!(failure.error, FsError::AlreadyExists);
    assert_eq!(failure.name, b".f".to_vec());
    // both files are untouched and no action was produced
    assert!(out.actions.is_empty());
    assert_eq!(out.dir.entries, vec![file("f"), file(".f")]);
}

#[test]
fn hide_naming_twice_is_idempotent() {
    let d = dir(vec![file("f"), file("g")]);
    let once = hide_files_in_directory(Platform::NamingConvention, &d, &names(&["f"]))
        .expect("directory exists");
    let twice =
        hide_files_in_directory(Platform::NamingConvention, &Some(once.dir), &names(&["f"]))
            .expect("directory exists");
    assert!(twice.failure.is_none());
    assert!(twice.actions.is_empty());
    assert_eq!(twice.dir.entries, vec![file(".f"), file("g")]);
}

#[test]
fn hide_attribute_sets_bits_and_keeps_name() {
    let d = dir(vec![file_with_attrs("f", 1)]);
    let out = hide_files_in_directory(Platform::AttributeFlag, &d, &names(&["f"]))
        .expect("directory exists");
    assert!(out.failure.is_none());
    assert_eq!(out.actions, vec![Action::SetAttributes { name: b"f".to_vec(), attrs: 7 }]);
    assert_eq!(out.dir.entries, vec![file_with_attrs("f", 7)]);
}

#[test]
fn hide_attribute_twice_is_idempotent() {
    let d = dir(vec![file_with_attrs("f", 1)]);
    let once = hide_files_in_directory(Platform::AttributeFlag, &d, &names(&["f"]))
        .expect("directory exists");
    let twice = hide_files_in_directory(Platform::AttributeFlag, &Some(once.dir), &names(&["f"]))
        .expect("directory exists");
    assert!(twice.failure.is_none());
    assert_eq!(twice.dir.entries, vec![file_with_attrs("f", 7)]);
}

#[test]
fn hide_attribute_missing_file_is_skipped() {
    let d = dir(vec![file("f")]);
    let out = hide_files_in_directory(Platform::AttributeFlag, &d, &names(&["g"]))
        .expect("directory exists");
    assert!(out.failure.is_none());
    assert!(out.actions.is_empty());
    assert_eq!(out.dir.entries, vec![file("f")]);
}

#[test]
fn show_naming_restores_original_name() {
    let d = dir(vec![file("f"), file("g")]);
    let hidden = hide_files_in_directory(Platform::NamingConvention, &d, &names(&["f"]))
        .expect("directory exists");
    let shown =
        show_files_in_directory(Platform::NamingConvention, &Some(hidden.dir), &names(&["f"]))
            .expect("directory exists");
    assert!(shown.failure.is_none());
    assert_eq!(shown.actions, vec![Action::Rename { from: b".f".to_vec(), to: b"f".to_vec() }]);
    assert_eq!(shown.dir.entries, vec![file("f"), file("g")]);
    let listed = list_files(&Some(shown.dir)).expect("directory exists");
    assert!(listed.contains(&b"f".to_vec()));
}

#[test]
fn show_naming_accepts_hidden_form_of_the_name() {
    let d = dir(vec![file(".f")]);
    let out = show_files_in_directory(Platform::NamingConvention, &d, &names(&[".f"]))
        .expect("directory exists");
    assert!(out.failure.is_none());
    assert_eq!(out.dir.entries, vec![file("f")]);
}

#[test]
fn show_naming_conflict_already_exists() {
    let d = dir(vec![file(".f"), file("f")]);
    let out = show_files_in_directory(Platform::NamingConvention, &d, &names(&["f"]))
        .expect("directory exists");
    let failure = out.failure.expect("the visible form already exists");
    assert_eq!(failure.error, FsError::AlreadyExists);
    assert_eq!(failure.name, b"f".to_vec());
    assert_eq!(out.dir.entries, vec![file(".f"), file("f")]);
}

#[test]
fn show_naming_skips_missing_hidden_counterpart() {
    let d = dir(vec![file("f")]);
    let out = show_files_in_directory(Platform::NamingConvention, &d, &names(&["f"]))
        .expect("directory exists");
    assert!(out.failure.is_none());
    assert!(out.actions.is_empty());
    assert_eq!(out.dir.entries, vec![file("f")]);
}

#[test]
fn show_attribute_round_trip_restores_attrs() {
    let d = dir(vec![file_with_attrs("f", 1)]);
    let hidden = hide_files_in_directory(Platform::AttributeFlag, &d, &names(&["f"]))
        .expect("directory exists");
    let shown = show_files_in_directory(Platform::AttributeFlag, &Some(hidden.dir), &names(&["f"]))
        .expect("directory exists");
    assert!(shown.failure.is_none());
    assert_eq!(shown.dir.entries, vec![file_with_attrs("f", 1)]);
    let listed = list_files(&Some(shown.dir)).expect("directory exists");
    assert!(listed.contains(&b"f".to_vec()));
}

#[test]
fn batch_stops_at_first_conflict_and_keeps_prefix() {
    let d = dir(vec![file("a"), file("b"), file(".b"), file("c")]);
    let out = hide_files_in_directory(Platform::NamingConvention, &d, &names(&["a", "b", "c"]))
        .expect("directory exists");
    let failure = out.failure.expect("hiding b collides with .b");
    assert_eq!(failure.error, FsError::AlreadyExists);
    assert_eq!(failure.name, b".b".to_vec());
    // a was hidden before the conflict; b and c stay untouched
    assert_eq!(out.actions, vec![Action::Rename { from: b"a".to_vec(), to: b".a".to_vec() }]);
    assert_eq!(out.dir.entries, vec![file(".a"), file("b"), file(".b"), file("c")]);
}

#[test]
fn hide_then_show_of_dotted_name_is_not_a_round_trip() {
    // A name that itself starts with the marker hides to a doubly-marked
    // form, but show strips every marker and looks for the singly-marked
    // counterpart, so it does not find the doubly-marked file.
    let d = dir(vec![file(".x")]);
    let hidden = hide_files_in_directory(Platform::NamingConvention, &d, &names(&[".x"]))
        .expect("directory exists");
    assert_eq!(hidden.dir.entries, vec![file("..x")]);
    let shown =
        show_files_in_directory(Platform::NamingConvention, &Some(hidden.dir), &names(&[".x"]))
            .expect("directory exists");
    assert!(shown.failure.is_none());
    assert!(shown.actions.is_empty());
    assert_eq!(shown.dir.entries, vec![file("..x")]);
}
