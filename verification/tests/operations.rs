//! Listing and moving, exercised on concrete directory snapshots.

use fileops::model::{Directory, Entry, EntryKind};
use fileops::ops::{list_files, move_files_from_directory, FsError};

fn file(name: &str) -> Entry {
    Entry { name: name.as_bytes().to_vec(), kind: EntryKind::File, attrs: 0 }
}

fn file_with_attrs(name: &str, attrs: u32) -> Entry {
    Entry { name: name.as_bytes().to_vec(), kind: EntryKind::File, attrs }
}

fn subdir(name: &str) -> Entry {
    Entry { name: name.as_bytes().to_vec(), kind: EntryKind::Subdir, attrs: 0 }
}

fn dir(entries: Vec<Entry>) -> Option<Directory> {
    Some(Directory { entries })
}

fn names(d: &Option<Directory>) -> Vec<Vec<u8>> {
    list_files(d).expect("directory should list")
}

#[test]
fn list_files_returns_only_regular_files() {
    let d = dir(vec![file("a.txt"), subdir("sub"), file("b.txt"), subdir("other")]);
    let listed = names(&d);
    assert_eq!(listed, vec![b"a.txt".to_vec(), b"b.txt".to_vec()]);
}

#[test]
fn list_files_missing_directory_not_found() {
    assert_eq!(list_files(&None), Err(FsError::NotFound));
}

#[test]
fn list_files_empty_directory() {
    let d = dir(vec![]);
    assert_eq!(names(&d), Vec::<Vec<u8>>::new());
}

#[test]
fn list_files_lists_hidden_attribute_files_too() {
    let d = dir(vec![file_with_attrs("secret.txt", 6), file("plain.txt")]);
    assert_eq!(names(&d), vec![b"secret.txt".to_vec(), b"plain.txt".to_vec()]);
}

#[test]
fn move_into_empty_destination() {
    let s = dir(vec![file("f1"), subdir("keepme"), file("f2")]);
    let d = dir(vec![]);
    let out = move_files_from_directory(&s, &d).expect("move should succeed");
    assert_eq!(out.moved, vec![b"f1".to_vec(), b"f2".to_vec()]);
    // the source keeps only the subdirectory and lists no file any more
    assert_eq!(out.source.entries, vec![subdir("keepme")]);
    assert_eq!(names(&Some(out.source)), Vec::<Vec<u8>>::new());
    // the destination lists exactly the moved files
    assert_eq!(names(&Some(out.dest)), vec![b"f1".to_vec(), b"f2".to_vec()]);
}

#[test]
fn move_missing_source_not_found() {
    let d = dir(vec![file("f1")]);
    assert_eq!(move_files_from_directory(&None, &d), Err(FsError::NotFound));
}

#[test]
fn move_missing_destination_not_found() {
    let s = dir(vec![file("f1")]);
    assert_eq!(move_files_from_directory(&s, &None), Err(FsError::NotFound));
}

#[test]
fn move_overwrites_same_named_destination_file() {
    let s = dir(vec![file_with_attrs("f1", 1)]);
    let d = dir(vec![file_with_attrs("f1", 9), file("other")]);
    let out = move_files_from_directory(&s, &d).expect("move should succeed");
    assert_eq!(out.moved, vec![b"f1".to_vec()]);
    // the arriving file replaced the old one; the unrelated file survived
    assert_eq!(out.dest.entries, vec![file("other"), file_with_attrs("f1", 1)]);
}

#[test]
fn move_from_empty_source_moves_nothing() {
    let s = dir(vec![subdir("only")]);
    let d = dir(vec![file("kept")]);
    let out = move_files_from_directory(&s, &d).expect("move should succeed");
    assert_eq!(out.moved, Vec::<Vec<u8>>::new());
    assert_eq!(out.dest.entries, vec![file("kept")]);
    assert_eq!(out.source.entries, vec![subdir("only")]);
}
