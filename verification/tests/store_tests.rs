use findex::db::{Database, DatabaseError, Which};
use findex::model::{abspath_to_path, Entry};

fn entry(path: &str, abspath: &str, signature: &str, size: u64, updated: u64) -> Entry {
    Entry::new_simple(path, abspath, "name", "/dir", signature, size, 50, updated)
}

#[test]
fn init_records_metadata_once() {
    let mut db = Database::new();
    db.init_for("/data", 1000, false).unwrap();
    let meta = db.get_metadata(None).unwrap();
    assert_eq!("/data", meta.path);
    assert_eq!(1000, meta.last_updated);

    db.init_for("/data", 2000, false).unwrap();
    let meta = db.get_metadata(Some(Which::First)).unwrap();
    assert_eq!(1000, meta.last_updated);
}

#[test]
fn init_rejects_different_root() {
    let mut db = Database::new();
    db.init_for("/data", 1000, false).unwrap();
    let r = db.init_for("/elsewhere", 2000, false);
    assert!(matches!(r, Err(DatabaseError::RootMismatch)));
    assert_eq!("/data", db.get_metadata(None).unwrap().path);
}

#[test]
fn metadata_absent_is_unexpected() {
    let db = Database::new();
    assert!(matches!(db.get_metadata(None), Err(DatabaseError::Unexpected)));
}

#[test]
fn get_entry_distinguishes_not_found() {
    let mut db = Database::new();
    db.add_entry(&entry("a", "/r/a", "aa", 1, 10));
    let found = db.get_entry(&"a".to_string()).unwrap();
    assert_eq!("/r/a", found.abspath);
    assert_eq!("aa", found.signature);
    let missing = db.get_entry(&"b".to_string());
    assert!(matches!(missing, Err(DatabaseError::EntryNotFound)));
}

#[test]
fn add_entry_upserts_by_path() {
    let mut db = Database::new();
    db.add_entry(&entry("a", "/r/a", "old", 1, 10));
    db.add_entry(&entry("b", "/r/b", "bb", 2, 10));
    db.add_entry(&entry("a", "/r/a", "new", 3, 20));
    assert_eq!(2, db.get_count(None).unwrap());
    let got = db.get_entry(&"a".to_string()).unwrap();
    assert_eq!("new", got.signature);
    assert_eq!(3, got.size);
    assert_eq!(20, got.updated);
}

#[test]
fn remove_entry_deletes_one_row() {
    let mut db = Database::new();
    db.add_entry(&entry("a", "/r/a", "aa", 1, 10));
    db.add_entry(&entry("b", "/r/b", "bb", 2, 10));
    db.remove_entry(&"a".to_string()).unwrap();
    assert_eq!(1, db.get_count(None).unwrap());
    assert!(matches!(db.get_entry(&"a".to_string()), Err(DatabaseError::EntryNotFound)));
    assert_eq!("bb", db.get_entry(&"b".to_string()).unwrap().signature);
}

#[test]
fn size_sums_all_entries() {
    let mut db = Database::new();
    assert_eq!(0, db.get_size().unwrap());
    db.add_entry(&entry("a", "/r/a", "aa", 100, 10));
    db.add_entry(&entry("b", "/r/b", "bb", 23, 10));
    assert_eq!(123, db.get_size().unwrap());
}

#[test]
fn size_overflow_is_unexpected() {
    let mut db = Database::new();
    db.add_entry(&entry("a", "/r/a", "aa", u64::MAX, 10));
    db.add_entry(&entry("b", "/r/b", "bb", 1, 10));
    assert!(matches!(db.get_size(), Err(DatabaseError::Unexpected)));
}

#[test]
fn all_paths_in_scan_order() {
    let mut db = Database::new();
    db.add_entry(&entry("a", "/r/a", "aa", 1, 10));
    db.add_entry(&entry("b", "/r/b", "bb", 2, 10));
    let paths = db.select_all_paths().unwrap();
    assert_eq!(vec!["/r/a".to_string(), "/r/b".to_string()], paths);
}

#[test]
fn second_catalog_queries_need_binding() {
    let db = Database::new();
    assert!(matches!(db.get_count(Some(Which::Second)), Err(DatabaseError::Unexpected)));
    assert!(matches!(db.get_metadata(Some(Which::Second)), Err(DatabaseError::Unexpected)));
    assert!(matches!(db.find_missing(), Err(DatabaseError::Unexpected)));
    assert!(matches!(db.compare(), Err(DatabaseError::Unexpected)));
}

#[test]
fn compare_reports_missing_and_differing() {
    let mut first = Database::new();
    first.init_for("/a", 1000, false).unwrap();
    first.add_entry(&entry("common", "/a/common", "samesig", 1, 10));
    first.add_entry(&entry("changed", "/a/changed", "sig-one", 1, 10));
    first.add_entry(&entry("only_in_first", "/a/only_in_first", "xx", 1, 10));

    let mut second = Database::new();
    second.init_for("/b", 2000, false).unwrap();
    second.add_entry(&entry("common", "/b/common", "samesig", 1, 10));
    second.add_entry(&entry("changed", "/b/changed", "sig-two", 1, 10));
    second.add_entry(&entry("only_in_second", "/b/only_in_second", "yy", 1, 10));

    first.bind_second(second);
    assert_eq!(3, first.get_count(Some(Which::First)).unwrap());
    assert_eq!(3, first.get_count(Some(Which::Second)).unwrap());
    assert_eq!("/b", first.get_metadata(Some(Which::Second)).unwrap().path);

    let (missing_in_first, missing_in_second) = first.find_missing().unwrap();
    assert_eq!(vec!["only_in_second".to_string()], missing_in_first);
    assert_eq!(vec!["only_in_first".to_string()], missing_in_second);

    let differing = first.compare().unwrap();
    assert_eq!(1, differing.len());
    let row = &differing[0];
    assert_eq!("changed", row.0);
    assert_eq!("/a/changed", row.1);
    assert_eq!("sig-one", row.2);
    assert_eq!("/b/changed", row.4);
    assert_eq!("sig-two", row.5);
}

#[test]
fn metadata_new_keeps_fields() {
    let m = findex::db::DatabaseMetadata::new("/data".to_string(), 42);
    assert_eq!("/data", m.path);
    assert_eq!(42, m.last_updated);
}

#[test]
fn abspath_to_path_strips_root_and_separator() {
    assert_eq!("file1", abspath_to_path("/path/to", "/path/to/file1"));
    assert_eq!("to/file1", abspath_to_path("/path", "/path/to/file1"));
    assert_eq!("", abspath_to_path("/path/to", "/path/to"));
}

#[test]
fn entry_new_derives_paths() {
    let e = Entry::new("/root/dir/file.txt", "/root", &"sig".to_string(), 5, 10, 20);
    assert_eq!("dir/file.txt", e.path);
    assert_eq!("/root/dir/file.txt", e.abspath);
    assert_eq!("file.txt", e.basename);
    assert_eq!("/root/dir", e.dirname);
    assert_eq!("sig", e.signature);
    assert_eq!(5, e.size);
    assert_eq!(10, e.timestamp);
    assert_eq!(20, e.updated);
}
