use findex::db::Database;
use findex::model::Entry;

fn total_entries(m: &multimap::MultiMap<String, Entry>) -> usize {
    m.flat_iter().count()
}

#[test]
fn has_dupes() {
    let mut database = Database::new();
    database.init_for("/path/to", 1000, false).unwrap();

    let entry1 = Entry::new_simple(
        "to/file1", "/path/to/file1", "file1", "/path/to", "00deadbeef", 100, 100, 100,
    );
    let entry2 = Entry::new_simple(
        "to/file2", "/path/to/file2", "file2", "/path/to", "00deadbeef", 100, 100, 100,
    );
    let entry3 = Entry::new_simple(
        "to/file3", "/path/to/file3", "file3", "/path/to", "00cafecafe", 100, 100, 100,
    );

    database.add_entry(&entry1);
    database.add_entry(&entry2);
    database.add_entry(&entry3);
    assert_eq!(3, database.get_count(None).unwrap());

    let dupe_files = database.find_dupes().unwrap();
    assert_eq!(2, total_entries(&dupe_files));
    let entries = dupe_files.get_vec("00deadbeef").unwrap();
    assert_eq!(entry1.path, entries.get(0).unwrap().path);
    assert_eq!(entry2.path, entries.get(1).unwrap().path);
}

#[test]
fn has_triple_dupes() {
    let mut database = Database::new();
    database.init_for("/path/to", 1000, false).unwrap();

    let entry1 = Entry::new_simple(
        "to/file1", "/path/to/file1", "file1", "/path/to", "00deadbeef", 100, 100, 100,
    );
    let entry2 = Entry::new_simple(
        "to/file2", "/path/to/file2", "file2", "/path/to", "00deadbeef", 100, 100, 100,
    );
    let entry3 = Entry::new_simple(
        "to/file3", "/path/to/file3", "file3", "/path/to", "00deadbeef", 100, 100, 100,
    );

    database.add_entry(&entry1);
    database.add_entry(&entry2);
    database.add_entry(&entry3);
    assert_eq!(3, database.get_count(None).unwrap());

    let dupe_files = database.find_dupes().unwrap();
    assert_eq!(3, total_entries(&dupe_files));
    let entries = dupe_files.get_vec("00deadbeef").unwrap();
    assert_eq!(entry1.path, entries.get(0).unwrap().path);
    assert_eq!(entry2.path, entries.get(1).unwrap().path);
    assert_eq!(entry3.path, entries.get(2).unwrap().path);
}

#[test]
fn has_no_dupes() {
    let mut database = Database::new();
    database.init_for("/path/to", 1000, false).unwrap();

    let entry1 = Entry::new_simple(
        "to/file1", "/path/to/file1", "file1", "/path/to", "00deadbeef", 100, 100, 100,
    );
    let entry2 = Entry::new_simple(
        "to/file2", "/path/to/file2", "file2", "/path/to", "0000000000", 100, 100, 100,
    );
    let entry3 = Entry::new_simple(
        "to/file3", "/path/to/file3", "file3", "/path/to", "00cafecafe", 100, 100, 100,
    );

    database.add_entry(&entry1);
    database.add_entry(&entry2);
    database.add_entry(&entry3);
    assert_eq!(3, database.get_count(None).unwrap());

    let dupe_files = database.find_dupes().unwrap();
    assert_eq!(0, total_entries(&dupe_files));
}

#[test]
fn dupe_group_count_matches_groups() {
    let mut database = Database::new();
    database.init_for("/path/to", 1000, false).unwrap();

    let entry1 = Entry::new_simple(
        "to/file1", "/path/to/file1", "file1", "/path/to", "00deadbeef", 100, 100, 100,
    );
    let entry2 = Entry::new_simple(
        "to/file2", "/path/to/file2", "file2", "/path/to", "00deadbeef", 100, 100, 100,
    );
    let entry3 = Entry::new_simple(
        "to/file3", "/path/to/file3", "file3", "/path/to", "00cafecafe", 100, 100, 100,
    );

    database.add_entry(&entry1);
    database.add_entry(&entry2);
    database.add_entry(&entry3);

    let dupe_files = database.find_dupes().unwrap();
    assert_eq!(1, dupe_files.keys().count());
    assert!(dupe_files.get_vec("00cafecafe").is_none());
}
