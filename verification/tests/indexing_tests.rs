use findex::db::Database;
use findex::hashing::hash_bytes;
use findex::indexing::{
    index, process_file, verify_root_path, IndexCounts, IndexingOptions, ScannedFile,
};
use findex::model::Entry;
use findex::traversal::{ChildAction, FileKind, Traversal};

fn scanned(abspath: &str, mod_timestamp: u64, content: &[u8]) -> ScannedFile {
    ScannedFile {
        abspath: abspath.to_string(),
        size: content.len() as u64,
        mod_timestamp,
        hash: Ok(hash_bytes(content)),
    }
}

fn options(skip_delete_check: bool) -> IndexingOptions {
    IndexingOptions { skip_delete_check, duration: None, no_sync: false }
}

#[test]
fn first_run_adds_everything() {
    let mut db = Database::new();
    db.init_for("/r", 100, false).unwrap();
    let files = vec![scanned("/r/a", 50, b"aaa"), scanned("/r/sub/b", 50, b"bbb")];
    let disk = vec!["/r/a".to_string(), "/r/sub/b".to_string()];

    let counts = index(&mut db, "/r", 100, &files, &disk, &options(false));
    assert_eq!(2, counts.added);
    assert_eq!(0, counts.updated);
    assert_eq!(0, counts.deleted);
    assert_eq!(0, counts.skipped);
    assert_eq!(0, counts.errors);

    let e = db.get_entry(&"a".to_string()).unwrap();
    assert_eq!(hash_bytes(b"aaa"), e.signature);
    assert_eq!(100, e.updated);
    assert_eq!(50, e.timestamp);
    let e = db.get_entry(&"sub/b".to_string()).unwrap();
    assert_eq!("b", e.basename);
    assert_eq!("/r/sub", e.dirname);
}

#[test]
fn rerun_without_change_is_idempotent() {
    let mut db = Database::new();
    db.init_for("/r", 100, false).unwrap();
    let files = vec![scanned("/r/a", 50, b"aaa"), scanned("/r/b", 50, b"bbb")];
    let disk = vec!["/r/a".to_string(), "/r/b".to_string()];
    index(&mut db, "/r", 100, &files, &disk, &options(false));

    let counts = index(&mut db, "/r", 200, &files, &disk, &options(false));
    assert_eq!(0, counts.added);
    assert_eq!(0, counts.updated);
    assert_eq!(0, counts.deleted);
    assert_eq!(2, counts.skipped);
    assert_eq!(0, counts.errors);
    assert_eq!(100, db.get_entry(&"a".to_string()).unwrap().updated);
}

#[test]
fn staleness_boundary_decides_update() {
    let mut db = Database::new();
    db.add_entry(&Entry::new_simple("a", "/r/a", "a", "/r", "oldsig", 3, 100, 100));
    let mut counts = IndexCounts::new();

    let same_time = scanned("/r/a", 100, b"aaa");
    process_file(&mut db, &mut counts, "/r", &same_time, 300);
    assert_eq!(1, counts.skipped);
    assert_eq!(0, counts.updated);
    assert_eq!("oldsig", db.get_entry(&"a".to_string()).unwrap().signature);

    let one_second_later = scanned("/r/a", 101, b"aaa");
    process_file(&mut db, &mut counts, "/r", &one_second_later, 300);
    assert_eq!(1, counts.skipped);
    assert_eq!(1, counts.updated);
    let e = db.get_entry(&"a".to_string()).unwrap();
    assert_eq!(hash_bytes(b"aaa"), e.signature);
    assert_eq!(300, e.updated);
    assert_eq!(101, e.timestamp);
}

#[test]
fn hash_failure_counts_error_and_continues() {
    let mut db = Database::new();
    db.init_for("/r", 100, false).unwrap();
    let files = vec![
        ScannedFile {
            abspath: "/r/bad".to_string(),
            size: 1,
            mod_timestamp: 50,
            hash: Err("unreadable".to_string()),
        },
        scanned("/r/good", 50, b"ok"),
    ];
    let disk = vec!["/r/bad".to_string(), "/r/good".to_string()];
    let counts = index(&mut db, "/r", 100, &files, &disk, &options(false));
    assert_eq!(1, counts.errors);
    assert_eq!(1, counts.added);
    assert_eq!(1, db.get_count(None).unwrap());
}

#[test]
fn delete_sweep_removes_vanished_paths() {
    let mut db = Database::new();
    db.init_for("/r", 100, false).unwrap();
    let files = vec![scanned("/r/keep", 50, b"k"), scanned("/r/gone", 50, b"g")];
    let disk = vec!["/r/keep".to_string(), "/r/gone".to_string()];
    index(&mut db, "/r", 100, &files, &disk, &options(false));
    assert_eq!(2, db.get_count(None).unwrap());

    let files = vec![scanned("/r/keep", 50, b"k")];
    let disk = vec!["/r/keep".to_string()];
    let counts = index(&mut db, "/r", 200, &files, &disk, &options(false));
    assert_eq!(1, counts.deleted);
    assert_eq!(1, counts.skipped);
    assert_eq!(1, db.get_count(None).unwrap());
    assert!(db.get_entry(&"gone".to_string()).is_err());
    assert!(db.get_entry(&"keep".to_string()).is_ok());
}

#[test]
fn skipped_sweep_reports_sentinel() {
    let mut db = Database::new();
    db.init_for("/r", 100, false).unwrap();
    let files = vec![scanned("/r/a", 50, b"a")];
    index(&mut db, "/r", 100, &files, &Vec::new(), &options(true));
    assert_eq!(1, db.get_count(None).unwrap());

    let counts = index(&mut db, "/r", 200, &Vec::new(), &Vec::new(), &options(true));
    assert_eq!(-1, counts.deleted);
    assert_eq!(1, db.get_count(None).unwrap());
}

#[test]
fn root_validation() {
    assert!(verify_root_path(true, true));
    assert!(!verify_root_path(false, true));
    assert!(!verify_root_path(true, false));
}

#[test]
fn zero_second_deadline_times_out() {
    let mut t = Traversal::new("/r".to_string(), 1000, Some(0));
    let dir = t.next_dir().unwrap();
    assert_eq!("/r", dir);
    let action = t.process_child(&"/r/a".to_string(), FileKind::Regular, 1001);
    assert!(matches!(action, ChildAction::Timeout));
}

#[test]
fn traversal_defers_subdirectories_and_visits_files() {
    let mut t = Traversal::new("/r".to_string(), 1000, None);
    assert_eq!("/r", t.next_dir().unwrap());
    assert!(matches!(
        t.process_child(&"/r/sub".to_string(), FileKind::Directory, 5000),
        ChildAction::Recurse
    ));
    assert!(matches!(
        t.process_child(&"/r/file".to_string(), FileKind::Regular, 5000),
        ChildAction::Visit
    ));
    assert!(matches!(
        t.process_child(&"/r/link".to_string(), FileKind::Symlink, 5000),
        ChildAction::Skip
    ));
    assert!(matches!(
        t.process_child(&"/r/sock".to_string(), FileKind::Other, 5000),
        ChildAction::Skip
    ));
    assert_eq!("/r/sub", t.next_dir().unwrap());
    assert!(t.next_dir().is_none());
}

#[test]
fn deadline_allows_work_until_cutoff() {
    let mut t = Traversal::new("/r".to_string(), 1000, Some(60));
    t.next_dir().unwrap();
    assert!(matches!(
        t.process_child(&"/r/a".to_string(), FileKind::Regular, 1060),
        ChildAction::Visit
    ));
    assert!(matches!(
        t.process_child(&"/r/b".to_string(), FileKind::Regular, 1061),
        ChildAction::Timeout
    ));
}
