//! The incremental indexer: the staleness rule, the per-file decision and
//! catalog update, the deletion sweep, and the one-run composition of them.
//!
//! The caller walks the tree, stats files, and hashes content — all of it
//! I/O — and hands the observations in as plain values; which files are
//! added, re-hashed, skipped, counted as errors or swept away is decided and
//! proved here.

use vstd::prelude::*;

use crate::db::{entry_at, has_path, index_of_path, paths_unique, upsert_spec, Database};
use crate::model::{
    abspath_to_path, basename_spec, dirname_spec, is_path_prefix, strip_prefix_spec, Entry,
    EntryView,
};

verus! {

/// Options for one indexing run: whether to skip the deletion sweep, an
/// optional traversal duration in seconds, and whether the store trades
/// durability for throughput.
pub struct IndexingOptions {
    pub skip_delete_check: bool,
    pub duration: Option<u64>,
    pub no_sync: bool,
}

/// Why a traversal ended early: a directory could not be read (the message
/// carries the cause), or the deadline passed — a distinguished signal, not
/// a failure, since everything already visited stands.
#[derive(Debug)]
pub enum IndexingError {
    ExecutionError(String),
    ExecutionTimeout,
}

/// The outcome counters of one indexing run. `deleted` is `-1` when the
/// deletion sweep was skipped by configuration.
pub struct IndexCounts {
    pub added: u64,
    pub updated: u64,
    pub deleted: i64,
    pub skipped: u64,
    pub errors: u64,
}

/// The four per-file counters, unbounded, for stating a run's outcome.
pub ghost struct CountsView {
    pub added: nat,
    pub updated: nat,
    pub skipped: nat,
    pub errors: nat,
}

/// The per-file counters of `c`, as unbounded numbers.
pub open spec fn counts_view(c: IndexCounts) -> CountsView {
    CountsView {
        added: c.added as nat,
        updated: c.updated as nat,
        skipped: c.skipped as nat,
        errors: c.errors as nat,
    }
}

impl IndexCounts {
    /// All counters at zero.
    pub fn new() -> (c: IndexCounts)
        ensures
            c.added == 0 && c.updated == 0 && c.deleted == 0 && c.skipped == 0 && c.errors == 0,
    {
        IndexCounts { added: 0, updated: 0, deleted: 0, skipped: 0, errors: 0 }
    }

    /// Counts one added file.
    pub fn note_added(&mut self)
        requires
            old(self).added < u64::MAX,
        ensures
            *final(self) == (IndexCounts { added: (old(self).added + 1) as u64, ..*old(self) }),
    {
        self.added = self.added + 1;
    }

    /// Counts one updated file.
    pub fn note_updated(&mut self)
        requires
            old(self).updated < u64::MAX,
        ensures
            *final(self) == (IndexCounts { updated: (old(self).updated + 1) as u64, ..*old(self) }),
    {
        self.updated = self.updated + 1;
    }

    /// Counts one skipped file.
    pub fn note_skipped(&mut self)
        requires
            old(self).skipped < u64::MAX,
        ensures
            *final(self) == (IndexCounts { skipped: (old(self).skipped + 1) as u64, ..*old(self) }),
    {
        self.skipped = self.skipped + 1;
    }

    /// Counts one per-file error.
    pub fn note_error(&mut self)
        requires
            old(self).errors < u64::MAX,
        ensures
            *final(self) == (IndexCounts { errors: (old(self).errors + 1) as u64, ..*old(self) }),
    {
        self.errors = self.errors + 1;
    }
}

/// What the staleness check decides for one visited file.
pub enum FileStatus {
    New,
    Stale,
    Current,
}

/// The staleness rule: a stored entry needs re-indexing exactly when its
/// last-write time is strictly older than the file's modification time.
pub open spec fn needs_reindex(stored_updated: u64, mod_timestamp: u64) -> bool {
    stored_updated < mod_timestamp
}

/// Staleness boundary: an entry whose last-write time equals the file's
/// modification time is current — skipped — while one written even a second
/// earlier is stale.
pub proof fn lemma_staleness_boundary(t: u64)
    ensures
        !needs_reindex(t, t),
        t > 0 ==> needs_reindex((t - 1) as u64, t),
{
}

/// The decision for a file stored (or not) under `key` with modification
/// time `mod_timestamp`.
pub open spec fn file_status_spec(es: Seq<EntryView>, key: Seq<char>, mod_timestamp: u64) -> FileStatus {
    if !has_path(es, key) {
        FileStatus::New
    } else if needs_reindex(entry_at(es, key).updated, mod_timestamp) {
        FileStatus::Stale
    } else {
        FileStatus::Current
    }
}

/// The file changed since the indexer last wrote its entry.
pub fn is_newer_than_last_write(entry: &Entry, mod_timestamp: u64) -> (r: bool)
    ensures
        r == needs_reindex(entry@.updated, mod_timestamp),
{
    entry.updated < mod_timestamp
}

/// Looks `key` up in the catalog and applies the staleness rule.
pub fn check_file(db: &Database, key: &String, mod_timestamp: u64) -> (s: FileStatus)
    requires
        db@.wf(),
    ensures
        s == file_status_spec(db@.main.entries, key@, mod_timestamp),
{
    match db.get_entry(key) {
        Ok(entry) => {
            if is_newer_than_last_write(&entry, mod_timestamp) {
                FileStatus::Stale
            } else {
                FileStatus::Current
            }
        },
        Err(_) => FileStatus::New,
    }
}

/// The root validation of an indexing run: it proceeds only against an
/// existing directory; anything else is fatal to the caller.
pub fn verify_root_path(exists: bool, is_dir: bool) -> (ok: bool)
    ensures
        ok == (exists && is_dir),
{
    exists && is_dir
}

/// One file observation handed to the indexer: the file's absolute path,
/// size and modification time, and the outcome of hashing its content —
/// the signature, or the error text. The hash outcome is consulted only
/// when the staleness rule asks for it.
pub struct ScannedFile {
    pub abspath: String,
    pub size: u64,
    pub mod_timestamp: u64,
    pub hash: Result<String, String>,
}

/// The mathematical image of a `ScannedFile`.
pub ghost struct ScannedFileView {
    pub abspath: Seq<char>,
    pub size: u64,
    pub mod_timestamp: u64,
    pub hash: Result<Seq<char>, Seq<char>>,
}

impl View for ScannedFile {
    type V = ScannedFileView;

    open spec fn view(&self) -> ScannedFileView {
        ScannedFileView {
            abspath: self.abspath@,
            size: self.size,
            mod_timestamp: self.mod_timestamp,
            hash: match self.hash {
                Ok(ref s) => Ok(s@),
                Err(ref s) => Err(s@),
            },
        }
    }
}

/// A scanned file the indexer can take: its absolute path lies under the
/// root and does not end in a separator.
pub open spec fn scanned_ok(f: ScannedFileView, root: Seq<char>) -> bool {
    &&& is_path_prefix(root, f.abspath)
    &&& f.abspath.len() > 0
    &&& f.abspath[f.abspath.len() - 1] != '/'
}

/// The images of a sequence of scanned files.
pub open spec fn scanned_views(fs: Seq<ScannedFile>) -> Seq<ScannedFileView> {
    fs.map_values(|f: ScannedFile| f@)
}

/// The record the indexer writes for a scanned file whose hash is `sig`.
pub open spec fn new_entry_view(f: ScannedFileView, root: Seq<char>, now: u64, sig: Seq<char>) -> EntryView {
    EntryView {
        path: strip_prefix_spec(root, f.abspath),
        abspath: f.abspath,
        basename: basename_spec(f.abspath),
        dirname: dirname_spec(f.abspath),
        signature: sig,
        size: f.size,
        timestamp: f.mod_timestamp,
        updated: now,
    }
}

/// The catalog rows after one file visit: unchanged for a current file or a
/// failed hash, an upsert of the fresh record otherwise.
pub open spec fn visit_entries(es: Seq<EntryView>, f: ScannedFileView, root: Seq<char>, now: u64) -> Seq<EntryView> {
    let key = strip_prefix_spec(root, f.abspath);
    if file_status_spec(es, key, f.mod_timestamp) is Current {
        es
    } else {
        match f.hash {
            Ok(sig) => upsert_spec(es, new_entry_view(f, root, now, sig)),
            Err(_) => es,
        }
    }
}

/// The counters after one file visit: a current file is skipped; otherwise
/// a successful hash counts as added or updated by the staleness rule, and
/// a failed hash counts as an error.
pub open spec fn visit_counts(es: Seq<EntryView>, f: ScannedFileView, root: Seq<char>, c: CountsView) -> CountsView {
    let key = strip_prefix_spec(root, f.abspath);
    match file_status_spec(es, key, f.mod_timestamp) {
        FileStatus::Current => CountsView {
            added: c.added,
            updated: c.updated,
            skipped: c.skipped + 1,
            errors: c.errors,
        },
        FileStatus::New => match f.hash {
            Ok(_) => CountsView {
                added: c.added + 1,
                updated: c.updated,
                skipped: c.skipped,
                errors: c.errors,
            },
            Err(_) => CountsView {
                added: c.added,
                updated: c.updated,
                skipped: c.skipped,
                errors: c.errors + 1,
            },
        },
        FileStatus::Stale => match f.hash {
            Ok(_) => CountsView {
                added: c.added,
                updated: c.updated + 1,
                skipped: c.skipped,
                errors: c.errors,
            },
            Err(_) => CountsView {
                added: c.added,
                updated: c.updated,
                skipped: c.skipped,
                errors: c.errors + 1,
            },
        },
    }
}

/// The catalog rows after visiting the first `n` scanned files in order.
pub open spec fn run_entries(es: Seq<EntryView>, fs: Seq<ScannedFileView>, root: Seq<char>, now: u64, n: int) -> Seq<EntryView>
    decreases n,
{
    if n <= 0 {
        es
    } else {
        visit_entries(run_entries(es, fs, root, now, n - 1), fs[n - 1], root, now)
    }
}

/// The counters after visiting the first `n` scanned files in order.
pub open spec fn run_counts(es: Seq<EntryView>, fs: Seq<ScannedFileView>, root: Seq<char>, now: u64, n: int) -> CountsView
    decreases n,
{
    if n <= 0 {
        CountsView { added: 0, updated: 0, skipped: 0, errors: 0 }
    } else {
        visit_counts(
            run_entries(es, fs, root, now, n - 1),
            fs[n - 1],
            root,
            run_counts(es, fs, root, now, n - 1),
        )
    }
}

/// Applies one file visit to the catalog and the counters: a current file
/// is skipped without re-hashing; a new or stale file whose hash succeeded
/// is upserted and counted; a hash failure is counted as an error and the
/// run goes on.
pub fn process_file(db: &mut Database, counts: &mut IndexCounts, root: &str, file: &ScannedFile, now_timestamp: u64)
    requires
        old(db)@.wf(),
        scanned_ok(file@, root@),
        old(counts).added < u64::MAX,
        old(counts).updated < u64::MAX,
        old(counts).skipped < u64::MAX,
        old(counts).errors < u64::MAX,
    ensures
        final(db)@.wf(),
        final(db)@.main.metadata == old(db)@.main.metadata,
        final(db)@.second == old(db)@.second,
        final(db)@.no_sync == old(db)@.no_sync,
        final(db)@.main.entries == visit_entries(old(db)@.main.entries, file@, root@, now_timestamp),
        counts_view(*final(counts)) == visit_counts(old(db)@.main.entries, file@, root@, counts_view(*old(counts))),
        final(counts).deleted == old(counts).deleted,
{
    let ghost es = old(db)@.main.entries;
    let key = abspath_to_path(root, file.abspath.as_str());
    let status = check_file(db, &key, file.mod_timestamp);
    match status {
        FileStatus::Current => {
            counts.skipped = counts.skipped + 1;
        },
        FileStatus::New | FileStatus::Stale => {
            match file.hash {
                Ok(ref sig) => {
                    let entry = Entry::new(
                        file.abspath.as_str(),
                        root,
                        sig,
                        file.size,
                        file.mod_timestamp,
                        now_timestamp,
                    );
                    db.add_entry(&entry);
                    proof {
                        let e = entry@;
                        if has_path(es, e.path) {
                            let i = index_of_path(es, e.path);
                            assert(0 <= i < es.len() && es[i].path == e.path);
                            assert(db@.main.entries == es.update(i, e));
                        }
                        assert(db@.main.entries == upsert_spec(es, e));
                    }
                    match status {
                        FileStatus::New => {
                            counts.added = counts.added + 1;
                        },
                        _ => {
                            counts.updated = counts.updated + 1;
                        },
                    }
                },
                Err(_) => {
                    counts.errors = counts.errors + 1;
                },
            }
        },
    }
}

/// Maps an entry to itself when its absolute path is still on disk.
pub open spec fn swept_f(disk: Seq<Seq<char>>) -> spec_fn(EntryView) -> Option<EntryView> {
    |e: EntryView|
        if disk.contains(e.abspath) {
            Some(e)
        } else {
            None
        }
}

/// The rows the deletion sweep keeps: those whose absolute path is still on
/// disk, in their stored order.
pub open spec fn swept_entries(es: Seq<EntryView>, disk: Seq<Seq<char>>) -> Seq<EntryView> {
    es.filter_map(swept_f(disk))
}

/// Catalog/root consistency: each row's logical path is its absolute path
/// relative to `root`. Rows written by the indexer have it by construction.
pub open spec fn paths_consistent(es: Seq<EntryView>, root: Seq<char>) -> bool {
    forall|i: int|
        0 <= i < es.len() ==> is_path_prefix(root, (#[trigger] es[i]).abspath) && es[i].path
            == strip_prefix_spec(root, es[i].abspath)
}

/// Whether `v` holds a string equal to `s`.
fn contains_string(v: &Vec<String>, s: &String) -> (r: bool)
    ensures
        r == v.deep_view().contains(s@),
{
    let mut i: usize = 0;
    while i < v.len()
        invariant
            i <= v@.len(),
            forall|k: int| 0 <= k < i ==> v.deep_view()[k] != s@,
        decreases v@.len() - i,
    {
        if v[i] == *s {
            proof {
                assert(v.deep_view()[i as int] == s@);
            }
            return true;
        }
        i = i + 1;
    }
    proof {
        assert forall|k: int| 0 <= k < v.deep_view().len() implies v.deep_view()[k] != s@ by {}
        if v.deep_view().contains(s@) {
            let k = choose|k: int| 0 <= k < v.deep_view().len() && v.deep_view()[k] == s@;
            assert(false);
        }
    }
    false
}

/// The deletion sweep: every row whose absolute path no longer appears in
/// `disk_paths` is removed, in stored order, and the removals are counted —
/// exactly the difference between the old and the new row count.
pub fn remove_deleted_files(db: &mut Database, root: &str, disk_paths: &Vec<String>) -> (count: usize)
    requires
        old(db)@.wf(),
        paths_consistent(old(db)@.main.entries, root@),
    ensures
        final(db)@.wf(),
        final(db)@.main.metadata == old(db)@.main.metadata,
        final(db)@.second == old(db)@.second,
        final(db)@.no_sync == old(db)@.no_sync,
        final(db)@.main.entries == swept_entries(old(db)@.main.entries, disk_paths.deep_view()),
        count == old(db)@.main.entries.len() - final(db)@.main.entries.len(),
{
    let ghost es = old(db)@.main.entries;
    let ghost disk = disk_paths.deep_view();
    let ghost f = swept_f(disk);
    let paths = match db.select_all_paths() {
        Ok(p) => p,
        Err(_) => {
            proof {
                assert(false);
            }
            Vec::new()
        },
    };
    proof {
        assert(paths.deep_view().len() == paths@.len());
        assert(es.map_values(|e: EntryView| e.abspath).len() == es.len());
    }
    let mut count: usize = 0;
    let mut j: usize = 0;
    while j < paths.len()
        invariant
            j <= es.len(),
            paths@.len() == es.len(),
            paths.deep_view() == es.map_values(|e: EntryView| e.abspath),
            disk == disk_paths.deep_view(),
            f == swept_f(disk),
            paths_consistent(es, root@),
            db@.wf(),
            db@.main.metadata == old(db)@.main.metadata,
            db@.second == old(db)@.second,
            db@.no_sync == old(db)@.no_sync,
            db@.main.entries =~= es.take(j as int).filter_map(f) + es.skip(j as int),
            count == j - es.take(j as int).filter_map(f).len(),
        decreases es.len() - j,
    {
        let ghost cur = db@.main.entries;
        let ghost e = es[j as int];
        proof {
            assert(paths.deep_view()[j as int] == es.map_values(|ev: EntryView| ev.abspath)[j as int]);
            es.lemma_filter_map_take_succ(f, j as int);
            assert(es.skip(j as int) =~= seq![e] + es.skip(j + 1));
        }
        if contains_string(disk_paths, &paths[j]) {
            proof {
                assert(f(e) == Some(e));
                assert(db@.main.entries =~= es.take(j + 1).filter_map(f) + es.skip(j + 1));
            }
        } else {
            let key = abspath_to_path(root, paths[j].as_str());
            proof {
                assert(key@ == e.path);
                let i0 = es.take(j as int).filter_map(f).len() as int;
                assert(cur[i0] == e);
                assert(has_path(cur, key@));
            }
            let _ = db.remove_entry(&key);
            proof {
                let i0 = es.take(j as int).filter_map(f).len() as int;
                assert(cur[i0].path == key@);
                assert(db@.main.entries == cur.remove(i0));
                assert(f(e) is None);
                assert(cur.remove(i0) =~= es.take(j as int).filter_map(f) + es.skip(j + 1));
            }
            count = count + 1;
        }
        j = j + 1;
    }
    proof {
        assert(es.take(es.len() as int) =~= es);
        assert(es.skip(es.len() as int) =~= Seq::<EntryView>::empty());
        assert(db@.main.entries =~= es.filter_map(f));
    }
    count
}

/// The rows an indexing run starts from: the catalog as loaded, after the
/// deletion sweep unless it is skipped.
pub open spec fn sweep_start(es: Seq<EntryView>, disk: Seq<Seq<char>>, skip_delete_check: bool) -> Seq<EntryView> {
    if skip_delete_check {
        es
    } else {
        swept_entries(es, disk)
    }
}

/// One indexing run over an initialised catalog: the deletion sweep (unless
/// skipped by configuration), then one visit per scanned file in order. The
/// returned counters report added, updated, skipped and per-file errors,
/// and the sweep's removals — or `-1` when the sweep was skipped.
pub fn index(db: &mut Database, root: &str, now_timestamp: u64, files: &Vec<ScannedFile>, disk_paths: &Vec<String>, options: &IndexingOptions) -> (counts: IndexCounts)
    requires
        old(db)@.wf(),
        !options.skip_delete_check ==> paths_consistent(old(db)@.main.entries, root@),
        forall|i: int| 0 <= i < files@.len() ==> scanned_ok((#[trigger] files@[i])@, root@),
        old(db)@.main.entries.len() <= i64::MAX,
    ensures
        final(db)@.wf(),
        final(db)@.main.metadata == old(db)@.main.metadata,
        final(db)@.second == old(db)@.second,
        final(db)@.no_sync == old(db)@.no_sync,
        final(db)@.main.entries == run_entries(
            sweep_start(old(db)@.main.entries, disk_paths.deep_view(), options.skip_delete_check),
            scanned_views(files@),
            root@,
            now_timestamp,
            files@.len() as int,
        ),
        counts_view(counts) == run_counts(
            sweep_start(old(db)@.main.entries, disk_paths.deep_view(), options.skip_delete_check),
            scanned_views(files@),
            root@,
            now_timestamp,
            files@.len() as int,
        ),
        options.skip_delete_check ==> counts.deleted == -1,
        !options.skip_delete_check ==> counts.deleted == old(db)@.main.entries.len() - sweep_start(
            old(db)@.main.entries,
            disk_paths.deep_view(),
            options.skip_delete_check,
        ).len(),
{
    let ghost es0 = old(db)@.main.entries;
    let ghost fviews = scanned_views(files@);
    let deleted: i64 = if options.skip_delete_check {
        -1
    } else {
        let removed = remove_deleted_files(db, root, disk_paths);
        removed as i64
    };
    let ghost start = db@.main.entries;
    let mut counts = IndexCounts { added: 0, updated: 0, deleted, skipped: 0, errors: 0 };
    let mut i: usize = 0;
    while i < files.len()
        invariant
            i <= files@.len(),
            fviews == scanned_views(files@),
            fviews.len() == files@.len(),
            forall|k: int| 0 <= k < files@.len() ==> scanned_ok((#[trigger] files@[k])@, root@),
            db@.wf(),
            db@.main.metadata == old(db)@.main.metadata,
            db@.second == old(db)@.second,
            db@.no_sync == old(db)@.no_sync,
            db@.main.entries == run_entries(start, fviews, root@, now_timestamp, i as int),
            counts_view(counts) == run_counts(start, fviews, root@, now_timestamp, i as int),
            counts.added + counts.updated + counts.skipped + counts.errors == i,
            counts.deleted == deleted,
        decreases files@.len() - i,
    {
        proof {
            assert(fviews[i as int] == files@[i as int]@);
        }
        process_file(db, &mut counts, root, &files[i], now_timestamp);
        i = i + 1;
    }
    counts
}

/// The sweep keeps the paths unique, and every row it keeps is on disk.
proof fn lemma_swept_unique_and_on_disk(es: Seq<EntryView>, disk: Seq<Seq<char>>)
    requires
        paths_unique(es),
    ensures
        paths_unique(swept_entries(es, disk)),
        forall|idx: int|
            0 <= idx < swept_entries(es, disk).len() ==> disk.contains(
                (#[trigger] swept_entries(es, disk)[idx]).abspath,
            ),
    decreases es.len(),
{
    let f = swept_f(disk);
    let s = es.filter_map(f);
    if es.len() == 0 {
        assert(s =~= Seq::<EntryView>::empty());
    } else {
        let head = es.drop_last();
        let last = es.last();
        lemma_swept_unique_and_on_disk(head, disk);
        let sub = head.filter_map(f);
        if disk.contains(last.abspath) {
            assert(s == sub + seq![last]);
            assert forall|a: int, b: int| 0 <= a < b < s.len() implies s[a].path != s[b].path by {
                if b == sub.len() {
                    assert(sub.contains(s[a]));
                    head.lemma_filter_map_contains(f, s[a]);
                    let t = choose|t: EntryView| head.contains(t) && f(t) == Some(s[a]);
                    assert(t == s[a]);
                    let k = choose|k: int| 0 <= k < head.len() && head[k] == t;
                    assert(es[k] == t && es[es.len() - 1] == last);
                    assert(t.path != last.path);
                } else {
                    assert(s[a] == sub[a] && s[b] == sub[b]);
                }
            }
            assert forall|idx: int| 0 <= idx < s.len() implies disk.contains(
                (#[trigger] s[idx]).abspath,
            ) by {
                if idx < sub.len() {
                    assert(s[idx] == sub[idx]);
                }
            }
        } else {
            assert(s == sub);
        }
    }
}

/// After one run over files with distinct logical paths, all hashed and no
/// newer than the run's timestamp: each file has a stored entry written no
/// earlier than its modification time, the paths stay unique, and — given
/// that the starting rows and the scanned files all lie in `disk` — so do
/// the rows that come out.
proof fn lemma_run_makes_current(start: Seq<EntryView>, fs: Seq<ScannedFileView>, disk: Seq<Seq<char>>, root: Seq<char>, now: u64, n: int)
    requires
        paths_unique(start),
        forall|i: int| 0 <= i < fs.len() ==> scanned_ok(#[trigger] fs[i], root),
        forall|i: int| 0 <= i < fs.len() ==> (#[trigger] fs[i]).hash is Ok,
        forall|i: int| 0 <= i < fs.len() ==> (#[trigger] fs[i]).mod_timestamp <= now,
        forall|i: int, j: int|
            0 <= i < j < fs.len() ==> strip_prefix_spec(root, fs[i].abspath) != strip_prefix_spec(
                root,
                fs[j].abspath,
            ),
        forall|idx: int| 0 <= idx < start.len() ==> disk.contains((#[trigger] start[idx]).abspath),
        forall|i: int| 0 <= i < fs.len() ==> disk.contains((#[trigger] fs[i]).abspath),
        0 <= n <= fs.len(),
    ensures
        paths_unique(run_entries(start, fs, root, now, n)),
        forall|i: int|
            0 <= i < n ==> {
                let key = strip_prefix_spec(root, (#[trigger] fs[i]).abspath);
                let run = run_entries(start, fs, root, now, n);
                has_path(run, key) && entry_at(run, key).updated >= fs[i].mod_timestamp
            },
        forall|idx: int|
            0 <= idx < run_entries(start, fs, root, now, n).len() ==> disk.contains(
                (#[trigger] run_entries(start, fs, root, now, n)[idx]).abspath,
            ),
    decreases n,
{
    if n > 0 {
        lemma_run_makes_current(start, fs, disk, root, now, n - 1);
        let prev = run_entries(start, fs, root, now, n - 1);
        let run = run_entries(start, fs, root, now, n);
        let f = fs[n - 1];
        let key = strip_prefix_spec(root, f.abspath);
        if file_status_spec(prev, key, f.mod_timestamp) is Current {
            assert(run == prev);
            assert(entry_at(prev, key).updated >= f.mod_timestamp);
        } else {
            let e = new_entry_view(f, root, now, f.hash->Ok_0);
            assert(run == upsert_spec(prev, e));
            crate::db::lemma_upsert_at_key(prev, e);
            assert(entry_at(run, key).updated == now);
            assert forall|i: int|
                0 <= i < n - 1 implies {
                    let k = strip_prefix_spec(root, (#[trigger] fs[i]).abspath);
                    has_path(run, k) && entry_at(run, k).updated >= fs[i].mod_timestamp
                } by {
                let k = strip_prefix_spec(root, fs[i].abspath);
                assert(k != key);
                crate::db::lemma_upsert_other(prev, e, k);
            }
            assert forall|idx: int| 0 <= idx < run.len() implies disk.contains(
                (#[trigger] run[idx]).abspath,
            ) by {
                if has_path(prev, key) {
                    let at = crate::db::index_of_path(prev, key);
                    assert(run == prev.update(at, e));
                    if idx != at {
                        assert(run[idx] == prev[idx]);
                    }
                } else {
                    assert(run == prev.push(e));
                    if idx < prev.len() {
                        assert(run[idx] == prev[idx]);
                    }
                }
            }
        }
    }
}

/// Idempotence over two whole runs: an indexing run straight after another —
/// the same scanned files, all readable and unchanged, and the same on-disk
/// paths — removes no row, adds, updates and fails nothing, skips every
/// file, and leaves the catalog rows exactly as the first run left them.
pub proof fn lemma_reindex_idempotent(es0: Seq<EntryView>, fs: Seq<ScannedFileView>, disk: Seq<Seq<char>>, root: Seq<char>, now1: u64, now2: u64)
    requires
        paths_unique(es0),
        forall|i: int| 0 <= i < fs.len() ==> scanned_ok(#[trigger] fs[i], root),
        forall|i: int| 0 <= i < fs.len() ==> (#[trigger] fs[i]).hash is Ok,
        forall|i: int| 0 <= i < fs.len() ==> (#[trigger] fs[i]).mod_timestamp <= now1,
        forall|i: int, j: int|
            0 <= i < j < fs.len() ==> strip_prefix_spec(root, fs[i].abspath) != strip_prefix_spec(
                root,
                fs[j].abspath,
            ),
        forall|i: int| 0 <= i < fs.len() ==> disk.contains((#[trigger] fs[i]).abspath),
    ensures
        ({
            let first = run_entries(
                sweep_start(es0, disk, false),
                fs,
                root,
                now1,
                fs.len() as int,
            );
            &&& swept_entries(first, disk) == first
            &&& run_entries(first, fs, root, now2, fs.len() as int) == first
            &&& run_counts(first, fs, root, now2, fs.len() as int) == (CountsView {
                added: 0,
                updated: 0,
                skipped: fs.len(),
                errors: 0,
            })
        }),
{
    let start = swept_entries(es0, disk);
    lemma_swept_unique_and_on_disk(es0, disk);
    lemma_run_makes_current(start, fs, disk, root, now1, fs.len() as int);
    let first = run_entries(start, fs, root, now1, fs.len() as int);
    assert forall|i: int|
        0 <= i < fs.len() implies {
            let key = strip_prefix_spec(root, (#[trigger] fs[i]).abspath);
            has_path(first, key) && !needs_reindex(
                entry_at(first, key).updated,
                fs[i].mod_timestamp,
            )
        } by {}
    lemma_index_idempotent(first, fs, disk, root, now2, fs.len() as int);
}

/// The sweep keeps everything when every stored absolute path is still on
/// disk.
proof fn lemma_swept_all_kept(es: Seq<EntryView>, disk: Seq<Seq<char>>)
    requires
        forall|i: int| 0 <= i < es.len() ==> disk.contains((#[trigger] es[i]).abspath),
    ensures
        swept_entries(es, disk) == es,
    decreases es.len(),
{
    if es.len() > 0 {
        lemma_swept_all_kept(es.drop_last(), disk);
        assert(swept_f(disk)(es.last()) == Some(es.last()));
        assert(swept_entries(es, disk) =~= es);
    } else {
        assert(swept_entries(es, disk) =~= es);
    }
}

/// Idempotence: when every scanned file already has a current entry — the
/// stored last-write time is at least the file's modification time — and
/// every stored absolute path is still on disk, a re-index changes nothing:
/// the sweep removes no row, no file is added, updated or counted as an
/// error, every file is skipped, and the catalog rows are unchanged.
pub proof fn lemma_index_idempotent(es: Seq<EntryView>, fs: Seq<ScannedFileView>, disk: Seq<Seq<char>>, root: Seq<char>, now: u64, n: int)
    requires
        0 <= n <= fs.len(),
        forall|i: int|
            0 <= i < fs.len() ==> {
                let key = strip_prefix_spec(root, (#[trigger] fs[i]).abspath);
                has_path(es, key) && !needs_reindex(entry_at(es, key).updated, fs[i].mod_timestamp)
            },
        forall|i: int| 0 <= i < es.len() ==> disk.contains((#[trigger] es[i]).abspath),
    ensures
        swept_entries(es, disk) == es,
        run_entries(es, fs, root, now, n) == es,
        run_counts(es, fs, root, now, n) == (CountsView {
            added: 0,
            updated: 0,
            skipped: n as nat,
            errors: 0,
        }),
    decreases n,
{
    lemma_swept_all_kept(es, disk);
    if n > 0 {
        lemma_index_idempotent(es, fs, disk, root, now, n - 1);
        let key = strip_prefix_spec(root, fs[n - 1].abspath);
        assert(file_status_spec(es, key, fs[n - 1].mod_timestamp) is Current);
    }
}

} // verus!
