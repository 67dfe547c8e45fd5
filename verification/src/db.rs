//! The catalog store: entry rows, the singleton metadata row, and the
//! relational queries over one or two catalogs.
//!
//! A `Database` holds one catalog and may be bound, for a session, to a
//! second read-only catalog for the cross-catalog queries. Loading rows from
//! and writing rows back to persistent storage is the caller's business; the
//! store itself is a value, and every operation on it is specified here.

use vstd::map::*;
use vstd::prelude::*;

use crate::dupemap::{count_signature, dupes_map, group_f, mm_insert, mm_model, mm_new, sig_group, DupeMap};
use crate::model::{Entry, EntryView};

verus! {

/// Why a store operation failed.
///
/// `EntryNotFound` is a lookup miss; `Unexpected` is a query against state
/// that cannot answer it (no metadata row, no bound second catalog, a size
/// sum beyond `u64`); `RootMismatch` is the fatal configuration error of
/// re-initialising a catalog against a different root.
#[derive(Debug)]
pub enum DatabaseError {
    EntryNotFound,
    Unexpected,
    RootMismatch,
}

/// Selects the primary catalog or the bound secondary catalog.
pub enum Which {
    First,
    Second,
}

/// The singleton metadata row: the root path the catalog was built against,
/// and when the catalog was last updated (unix seconds).
#[derive(Debug)]
pub struct DatabaseMetadata {
    pub path: String,
    pub last_updated: u64,
}

/// The mathematical image of a `DatabaseMetadata`.
pub ghost struct MetadataView {
    pub path: Seq<char>,
    pub last_updated: u64,
}

impl View for DatabaseMetadata {
    type V = MetadataView;

    open spec fn view(&self) -> MetadataView {
        MetadataView { path: self.path@, last_updated: self.last_updated }
    }
}

impl Clone for DatabaseMetadata {
    fn clone(&self) -> (r: DatabaseMetadata)
        ensures
            r@ == self@,
    {
        DatabaseMetadata { path: self.path.clone(), last_updated: self.last_updated }
    }
}

impl DatabaseMetadata {
    /// Builds the metadata row from its fields, unchanged.
    pub fn new(path: String, last_updated: u64) -> (m: DatabaseMetadata)
        ensures
            m@.path == path@,
            m@.last_updated == last_updated,
    {
        DatabaseMetadata { path, last_updated }
    }
}

/// One catalog: its entry rows in scan order, and its metadata row if any.
struct CatalogData {
    entries: Vec<Entry>,
    metadata: Option<DatabaseMetadata>,
}

/// The mathematical image of one catalog.
pub ghost struct CatalogView {
    pub entries: Seq<EntryView>,
    pub metadata: Option<MetadataView>,
}

/// The mathematical image of a `Database`: the primary catalog, the bound
/// secondary catalog if any, and whether durability syncing is disabled.
pub ghost struct DatabaseView {
    pub main: CatalogView,
    pub second: Option<CatalogView>,
    pub no_sync: bool,
}

/// There is an entry with logical path `p`.
pub open spec fn has_path(es: Seq<EntryView>, p: Seq<char>) -> bool {
    exists|i: int| 0 <= i < es.len() && es[i].path == p
}

/// The entry with logical path `p`; meaningful only under `paths_unique`
/// when `has_path` holds.
pub open spec fn entry_at(es: Seq<EntryView>, p: Seq<char>) -> EntryView {
    es[choose|i: int| 0 <= i < es.len() && es[i].path == p]
}

/// The index of the entry with logical path `p`; meaningful only under
/// `paths_unique` when `has_path` holds.
pub open spec fn index_of_path(es: Seq<EntryView>, p: Seq<char>) -> int {
    choose|i: int| 0 <= i < es.len() && es[i].path == p
}

/// Insert-or-replace as a function of the rows: a stored path is overwritten
/// in place, a new one is appended.
pub open spec fn upsert_spec(es: Seq<EntryView>, e: EntryView) -> Seq<EntryView> {
    if has_path(es, e.path) {
        es.update(index_of_path(es, e.path), e)
    } else {
        es.push(e)
    }
}

/// Logical paths are unique: the path is the catalog's key.
pub open spec fn paths_unique(es: Seq<EntryView>) -> bool {
    forall|i: int, j: int| 0 <= i < j < es.len() ==> es[i].path != es[j].path
}

/// An upsert stores exactly the new record under its path and keeps the
/// paths unique.
pub proof fn lemma_upsert_at_key(es: Seq<EntryView>, e: EntryView)
    requires
        paths_unique(es),
    ensures
        has_path(upsert_spec(es, e), e.path),
        entry_at(upsert_spec(es, e), e.path) == e,
        paths_unique(upsert_spec(es, e)),
{
    let u = upsert_spec(es, e);
    if has_path(es, e.path) {
        let i = index_of_path(es, e.path);
        assert(0 <= i < es.len() && es[i].path == e.path);
        assert(u[i] == e);
        assert(has_path(u, e.path));
        assert forall|a: int, b: int| 0 <= a < b < u.len() implies u[a].path != u[b].path by {
            assert(u[a].path == es[a].path);
            assert(u[b].path == es[b].path);
        }
        let j = choose|j: int| 0 <= j < u.len() && u[j].path == e.path;
        if j != i {
            assert(u[j].path == u[i].path);
            assert(false);
        }
    } else {
        let n = es.len() as int;
        assert(u[n] == e);
        assert(has_path(u, e.path));
        assert forall|a: int, b: int| 0 <= a < b < u.len() implies u[a].path != u[b].path by {
            if b == n {
                assert(u[a] == es[a]);
                assert(!(es[a].path == e.path));
            } else {
                assert(u[a] == es[a] && u[b] == es[b]);
            }
        }
        let j = choose|j: int| 0 <= j < u.len() && u[j].path == e.path;
        if j != n {
            assert(u[j] == es[j]);
            assert(has_path(es, e.path));
            assert(false);
        }
    }
}

/// An upsert leaves every other path's presence and record alone.
pub proof fn lemma_upsert_other(es: Seq<EntryView>, e: EntryView, k: Seq<char>)
    requires
        paths_unique(es),
        k != e.path,
    ensures
        has_path(upsert_spec(es, e), k) == has_path(es, k),
        has_path(es, k) ==> entry_at(upsert_spec(es, e), k) == entry_at(es, k),
{
    let u = upsert_spec(es, e);
    if has_path(es, e.path) {
        let i = index_of_path(es, e.path);
        assert(0 <= i < es.len() && es[i].path == e.path);
        assert forall|a: int| 0 <= a < u.len() implies u[a].path == es[a].path by {}
        if has_path(es, k) {
            let j = choose|j: int| 0 <= j < es.len() && es[j].path == k;
            assert(u[j].path == k);
            assert(has_path(u, k));
            let j2 = choose|j2: int| 0 <= j2 < u.len() && u[j2].path == k;
            assert(es[j2].path == k);
            if j2 != j {
                assert(false);
            }
            assert(j2 != i);
            assert(entry_at(u, k) == u[j2] && u[j2] == es[j2]);
            assert(entry_at(es, k) == es[j]);
        }
        if has_path(u, k) {
            let j2 = choose|j2: int| 0 <= j2 < u.len() && u[j2].path == k;
            assert(es[j2].path == k);
            assert(has_path(es, k));
        }
    } else {
        let n = es.len() as int;
        if has_path(es, k) {
            let j = choose|j: int| 0 <= j < es.len() && es[j].path == k;
            assert(u[j] == es[j]);
            assert(has_path(u, k));
            let j2 = choose|j2: int| 0 <= j2 < u.len() && u[j2].path == k;
            assert(j2 != n);
            assert(es[j2].path == k);
            if j2 != j {
                assert(false);
            }
            assert(entry_at(u, k) == u[j2] && u[j2] == es[j2]);
        }
        if has_path(u, k) {
            let j2 = choose|j2: int| 0 <= j2 < u.len() && u[j2].path == k;
            assert(j2 != n);
            assert(u[j2] == es[j2]);
            assert(has_path(es, k));
        }
    }
}

impl CatalogView {
    /// The catalog invariant.
    pub open spec fn wf(self) -> bool {
        paths_unique(self.entries)
    }
}

impl DatabaseView {
    /// Both catalogs, where bound, satisfy the catalog invariant.
    pub open spec fn wf(self) -> bool {
        &&& self.main.wf()
        &&& (self.second is Some ==> self.second->0.wf())
    }
}

/// A catalog store, optionally bound to a second catalog for comparison
/// queries.
pub struct Database {
    main: CatalogData,
    second: Option<CatalogData>,
    no_sync: bool,
}

spec fn catalog_view(c: &CatalogData) -> CatalogView {
    CatalogView {
        entries: c.entries@.map_values(|e: Entry| e@),
        metadata: match c.metadata {
            Some(m) => Some(m@),
            None => None,
        },
    }
}

impl View for Database {
    type V = DatabaseView;

    closed spec fn view(&self) -> DatabaseView {
        DatabaseView {
            main: catalog_view(&self.main),
            second: match self.second {
                Some(ref c) => Some(catalog_view(c)),
                None => None,
            },
            no_sync: self.no_sync,
        }
    }
}

/// The index of the entry whose logical path is `key`, if any; the scan
/// stops at the first match.
fn find_in(entries: &Vec<Entry>, key: &String) -> (r: Option<usize>)
    ensures
        match r {
            Some(i) => i < entries@.len() && entries@[i as int]@.path == key@,
            None => !has_path(entries@.map_values(|e: Entry| e@), key@),
        },
{
    let ghost es = entries@.map_values(|e: Entry| e@);
    let mut i: usize = 0;
    while i < entries.len()
        invariant
            i <= entries@.len(),
            es == entries@.map_values(|e: Entry| e@),
            forall|k: int| 0 <= k < i ==> es[k].path != key@,
        decreases entries@.len() - i,
    {
        if entries[i].path == *key {
            return Some(i);
        }
        i = i + 1;
    }
    None
}

impl Database {
    /// An empty store: no entries, no metadata, no bound second catalog.
    pub fn new() -> (db: Database)
        ensures
            db@.main.entries == Seq::<EntryView>::empty(),
            db@.main.metadata is None,
            db@.second is None,
            db@.no_sync == false,
            db@.wf(),
    {
        let db = Database {
            main: CatalogData { entries: Vec::new(), metadata: None },
            second: None,
            no_sync: false,
        };
        proof {
            assert(db@.main.entries =~= Seq::<EntryView>::empty());
        }
        db
    }

    /// Initialises the catalog for an indexing run against `path`: records
    /// the metadata row on first use, and refuses — fatally, to the caller —
    /// a root that differs from the one the catalog was built against.
    /// `no_sync` records that the caller trades durability for throughput.
    pub fn init_for(&mut self, path: &str, now_timestamp: u64, no_sync: bool) -> (r: Result<(), DatabaseError>)
        requires
            old(self)@.wf(),
        ensures
            final(self)@.wf(),
            final(self)@.main.entries == old(self)@.main.entries,
            final(self)@.second == old(self)@.second,
            final(self)@.no_sync == no_sync,
            match old(self)@.main.metadata {
                None => {
                    &&& r is Ok
                    &&& final(self)@.main.metadata == Some(
                        MetadataView { path: path@, last_updated: now_timestamp },
                    )
                },
                Some(m) => {
                    &&& final(self)@.main.metadata == old(self)@.main.metadata
                    &&& (m.path == path@ <==> r is Ok)
                    &&& (m.path != path@ <==> r == Err::<(), DatabaseError>(DatabaseError::RootMismatch))
                },
            },
    {
        self.no_sync = no_sync;
        match self.main.metadata {
            None => {
                self.main.metadata = Some(
                    DatabaseMetadata { path: path.to_owned(), last_updated: now_timestamp },
                );
                Ok(())
            },
            Some(ref m) => {
                let supplied = path.to_owned();
                if m.path == supplied {
                    Ok(())
                } else {
                    Err(DatabaseError::RootMismatch)
                }
            },
        }
    }

    /// Binds `other`'s primary catalog as this store's read-only second
    /// catalog for the rest of the session.
    pub fn bind_second(&mut self, other: Database)
        ensures
            final(self)@.main == old(self)@.main,
            final(self)@.no_sync == old(self)@.no_sync,
            final(self)@.second == Some(other@.main),
    {
        let Database { main, second: _, no_sync: _ } = other;
        self.second = Some(main);
    }

    /// The metadata row of the selected catalog. Fails with `Unexpected`
    /// when the catalog has no metadata row, or when the second catalog is
    /// asked for and none is bound.
    pub fn get_metadata(&self, which: Option<Which>) -> (r: Result<DatabaseMetadata, DatabaseError>)
        ensures
            match spec_selected(self@, which) {
                Some(c) => match c.metadata {
                    Some(m) => r matches Ok(got) && got@ == m,
                    None => r == Err::<DatabaseMetadata, DatabaseError>(DatabaseError::Unexpected),
                },
                None => r == Err::<DatabaseMetadata, DatabaseError>(DatabaseError::Unexpected),
            },
    {
        let cat = match which {
            None | Some(Which::First) => Some(&self.main),
            Some(Which::Second) => match self.second {
                Some(ref c) => Some(c),
                None => None,
            },
        };
        match cat {
            Some(c) => match c.metadata {
                Some(ref m) => Ok(m.clone()),
                None => Err(DatabaseError::Unexpected),
            },
            None => Err(DatabaseError::Unexpected),
        }
    }

    /// Insert-or-replace by logical path: a new path is appended in scan
    /// order; an existing path has all its other fields overwritten in
    /// place.
    pub fn add_entry(&mut self, entry: &Entry)
        requires
            old(self)@.wf(),
        ensures
            final(self)@.wf(),
            final(self)@.main.metadata == old(self)@.main.metadata,
            final(self)@.second == old(self)@.second,
            final(self)@.no_sync == old(self)@.no_sync,
            !has_path(old(self)@.main.entries, entry@.path) ==> final(self)@.main.entries
                == old(self)@.main.entries.push(entry@),
            forall|i: int|
                0 <= i < old(self)@.main.entries.len() && old(self)@.main.entries[i].path == entry@.path
                    ==> final(self)@.main.entries == old(self)@.main.entries.update(i, entry@),
    {
        let ghost es = self@.main.entries;
        let found = find_in(&self.main.entries, &entry.path);
        match found {
            Some(i) => {
                proof {
                    assert(es[i as int] == old(self).main.entries@[i as int]@);
                }
                self.main.entries[i] = entry.clone();
                proof {
                    assert(self@.main.entries =~= es.update(i as int, entry@));
                    assert forall|j: int|
                        0 <= j < es.len() && es[j].path == entry@.path implies self@.main.entries
                        == es.update(j, entry@) by {
                        if j != i as int {
                            assert(es[j].path == es[i as int].path);
                            assert(false);
                        }
                    }
                }
            },
            None => {
                self.main.entries.push(entry.clone());
                proof {
                    assert(self@.main.entries =~= es.push(entry@));
                }
            },
        }
    }

    /// The entry stored under logical path `key`, or `EntryNotFound`.
    pub fn get_entry(&self, key: &String) -> (r: Result<Entry, DatabaseError>)
        requires
            self@.wf(),
        ensures
            match r {
                Ok(e) => has_path(self@.main.entries, key@) && e@ == entry_at(
                    self@.main.entries,
                    key@,
                ),
                Err(err) => err == DatabaseError::EntryNotFound && !has_path(
                    self@.main.entries,
                    key@,
                ),
            },
    {
        match find_in(&self.main.entries, key) {
            Some(i) => {
                let e = self.main.entries[i].clone();
                proof {
                    let es = self@.main.entries;
                    assert(es[i as int] == self.main.entries@[i as int]@);
                    assert(0 <= (i as int) < es.len() && es[i as int].path == key@);
                    assert(has_path(es, key@));
                    let j = choose|j: int| 0 <= j < es.len() && es[j].path == key@;
                    if j != i as int {
                        assert(es[j].path == es[i as int].path);
                        assert(false);
                    }
                }
                Ok(e)
            },
            None => Err(DatabaseError::EntryNotFound),
        }
    }

    /// Deletes the one entry stored under `key`. Callers only remove paths
    /// they have confirmed present, so a present key is required; the row
    /// order of the remaining entries is kept.
    pub fn remove_entry(&mut self, key: &String) -> (r: Result<(), DatabaseError>)
        requires
            old(self)@.wf(),
            has_path(old(self)@.main.entries, key@),
        ensures
            final(self)@.wf(),
            final(self)@.main.metadata == old(self)@.main.metadata,
            final(self)@.second == old(self)@.second,
            final(self)@.no_sync == old(self)@.no_sync,
            r is Ok,
            forall|i: int|
                0 <= i < old(self)@.main.entries.len() && old(self)@.main.entries[i].path == key@
                    ==> final(self)@.main.entries == old(self)@.main.entries.remove(i),
    {
        let ghost es = self@.main.entries;
        let found = find_in(&self.main.entries, key);
        match found {
            Some(i) => {
                proof {
                    assert(es[i as int] == old(self).main.entries@[i as int]@);
                }
                self.main.entries.remove(i);
                proof {
                    assert(self@.main.entries =~= es.remove(i as int));
                    assert forall|j: int|
                        0 <= j < es.len() && es[j].path == key@ implies self@.main.entries
                        == es.remove(j) by {
                        if j != i as int {
                            assert(es[j].path == es[i as int].path);
                            assert(false);
                        }
                    }
                }
                Ok(())
            },
            None => {
                proof {
                    assert(false);
                }
                Err(DatabaseError::Unexpected)
            },
        }
    }

    /// How many entries the selected catalog holds; `Unexpected` when the
    /// second catalog is asked for and none is bound.
    pub fn get_count(&self, which: Option<Which>) -> (r: Result<u64, DatabaseError>)
        ensures
            match spec_selected(self@, which) {
                Some(c) => r matches Ok(n) && n == c.entries.len(),
                None => r == Err::<u64, DatabaseError>(DatabaseError::Unexpected),
            },
    {
        match which {
            None | Some(Which::First) => Ok(self.main.entries.len() as u64),
            Some(Which::Second) => match self.second {
                Some(ref c) => Ok(c.entries.len() as u64),
                None => Err(DatabaseError::Unexpected),
            },
        }
    }

    /// The sum of the stored sizes, in bytes; `Unexpected` if that sum does
    /// not fit in a `u64`.
    pub fn get_size(&self) -> (r: Result<u64, DatabaseError>)
        ensures
            total_size(self@.main.entries) <= u64::MAX ==> (r matches Ok(s) && s
                == total_size(self@.main.entries)),
            total_size(self@.main.entries) > u64::MAX ==> r == Err::<u64, DatabaseError>(
                DatabaseError::Unexpected,
            ),
    {
        let ghost es = self@.main.entries;
        let mut sum: u64 = 0;
        let mut i: usize = 0;
        while i < self.main.entries.len()
            invariant
                i <= es.len(),
                es == self@.main.entries,
                self@.main.entries.len() == self.main.entries@.len(),
                sum == total_size(es.take(i as int)),
            decreases es.len() - i,
        {
            proof {
                assert(es.take(i + 1).drop_last() =~= es.take(i as int));
                assert(es.take(i + 1).last() == es[i as int]);
            }
            let size = self.main.entries[i].size;
            match sum.checked_add(size) {
                Some(s) => {
                    sum = s;
                },
                None => {
                    proof {
                        lemma_total_size_monotonic(es, i + 1, es.len() as int);
                        assert(es.take(es.len() as int) =~= es);
                    }
                    return Err(DatabaseError::Unexpected);
                },
            }
            i = i + 1;
        }
        proof {
            assert(es.take(es.len() as int) =~= es);
        }
        Ok(sum)
    }

    /// All rows of the primary catalog, in scan order, for persisting.
    pub fn all_entries(&self) -> (r: Vec<Entry>)
        ensures
            r@.map_values(|e: Entry| e@) == self@.main.entries,
    {
        let ghost es = self@.main.entries;
        let mut out: Vec<Entry> = Vec::new();
        let mut i: usize = 0;
        while i < self.main.entries.len()
            invariant
                i <= es.len(),
                es == self@.main.entries,
                self@.main.entries.len() == self.main.entries@.len(),
                out@.len() == i,
                forall|k: int| 0 <= k < i ==> out@[k]@ == es[k],
            decreases es.len() - i,
        {
            proof {
                assert(es[i as int] == self.main.entries@[i as int]@);
            }
            out.push(self.main.entries[i].clone());
            i = i + 1;
        }
        proof {
            assert(out@.map_values(|e: Entry| e@) =~= es);
        }
        out
    }

    /// Whether this run trades durability for throughput; the caller applies
    /// it when persisting.
    pub fn no_sync(&self) -> (r: bool)
        ensures
            r == self@.no_sync,
    {
        self.no_sync
    }

    /// All stored absolute paths, in scan order.
    pub fn select_all_paths(&self) -> (r: Result<Vec<String>, DatabaseError>)
        ensures
            r matches Ok(v) && v.deep_view() == self@.main.entries.map_values(
                |e: EntryView| e.abspath,
            ),
    {
        let ghost es = self@.main.entries;
        let mut out: Vec<String> = Vec::new();
        let mut i: usize = 0;
        while i < self.main.entries.len()
            invariant
                i <= es.len(),
                es == self@.main.entries,
                self@.main.entries.len() == self.main.entries@.len(),
                out@.len() == i,
                forall|k: int| 0 <= k < i ==> out@[k]@ == es[k].abspath,
            decreases es.len() - i,
        {
            proof {
                assert(es[i as int] == self.main.entries@[i as int]@);
            }
            out.push(self.main.entries[i].abspath.clone());
            i = i + 1;
        }
        proof {
            assert(out.deep_view() =~= es.map_values(|e: EntryView| e.abspath));
        }
        Ok(out)
    }
}

/// One row of the content-mismatch report: a logical path present in both
/// catalogs whose signatures differ, with both sides' absolute path,
/// signature and modification time.
pub ghost struct DiffView {
    pub path: Seq<char>,
    pub first_abspath: Seq<char>,
    pub first_signature: Seq<char>,
    pub first_timestamp: u64,
    pub second_abspath: Seq<char>,
    pub second_signature: Seq<char>,
    pub second_timestamp: u64,
}

/// Maps an entry of one catalog to its logical path when the other catalog
/// `b` has no entry under that path.
pub open spec fn missing_f(b: Seq<EntryView>) -> spec_fn(EntryView) -> Option<Seq<char>> {
    |e: EntryView|
        if !has_path(b, e.path) {
            Some(e.path)
        } else {
            None
        }
}

/// The logical paths of `a`'s entries that `b` lacks, in `a`'s scan order:
/// one side of the symmetric anti-join.
pub open spec fn missing_spec(a: Seq<EntryView>, b: Seq<EntryView>) -> Seq<Seq<char>> {
    a.filter_map(missing_f(b))
}

/// Maps an entry of the primary catalog to a mismatch row when the second
/// catalog `b` stores the same logical path with a different signature.
pub open spec fn diff_f(b: Seq<EntryView>) -> spec_fn(EntryView) -> Option<DiffView> {
    |e: EntryView|
        if has_path(b, e.path) && entry_at(b, e.path).signature != e.signature {
            Some(
                DiffView {
                    path: e.path,
                    first_abspath: e.abspath,
                    first_signature: e.signature,
                    first_timestamp: e.timestamp,
                    second_abspath: entry_at(b, e.path).abspath,
                    second_signature: entry_at(b, e.path).signature,
                    second_timestamp: entry_at(b, e.path).timestamp,
                },
            )
        } else {
            None
        }
}

/// The inner join of the two catalogs on logical path, restricted to rows
/// whose signatures differ, in the primary catalog's scan order.
pub open spec fn compare_spec(a: Seq<EntryView>, b: Seq<EntryView>) -> Seq<DiffView> {
    a.filter_map(diff_f(b))
}

/// The executable mismatch rows `v` carry exactly the fields of the
/// mathematical rows `d`, in order.
pub open spec fn rows_match(
    v: Seq<(String, String, String, u64, String, String, u64)>,
    d: Seq<DiffView>,
) -> bool {
    &&& v.len() == d.len()
    &&& forall|i: int|
        0 <= i < v.len() ==> {
            &&& (#[trigger] v[i]).0@ == d[i].path
            &&& v[i].1@ == d[i].first_abspath
            &&& v[i].2@ == d[i].first_signature
            &&& v[i].3 == d[i].first_timestamp
            &&& v[i].4@ == d[i].second_abspath
            &&& v[i].5@ == d[i].second_signature
            &&& v[i].6 == d[i].second_timestamp
        }
}

/// An element that the map sends to `Some` lands in the `filter_map` image.
proof fn lemma_filter_map_membership<A, B>(s: Seq<A>, f: spec_fn(A) -> Option<B>, i: int)
    requires
        0 <= i < s.len(),
        f(s[i]) is Some,
    ensures
        s.filter_map(f).contains(f(s[i])->0),
    decreases s.len(),
{
    if i == s.len() - 1 {
        assert(s.filter_map(f) == s.drop_last().filter_map(f) + seq![f(s.last())->0]);
        assert(s.filter_map(f)[s.filter_map(f).len() - 1] == f(s[i])->0);
    } else {
        lemma_filter_map_membership(s.drop_last(), f, i);
        let sub = s.drop_last().filter_map(f);
        let k = choose|k: int| 0 <= k < sub.len() && sub[k] == f(s[i])->0;
        assert(s.filter_map(f)[k] == f(s[i])->0);
    }
}

/// Comparison symmetry: a path stored in `a` but not in `b` appears among
/// the paths missing from `b`; a path stored in both with differing
/// signatures appears in the mismatch report, carrying both sides'
/// signatures.
pub proof fn lemma_compare_symmetry(a: Seq<EntryView>, b: Seq<EntryView>, i: int)
    requires
        paths_unique(b),
        0 <= i < a.len(),
    ensures
        !has_path(b, a[i].path) ==> missing_spec(a, b).contains(a[i].path),
        has_path(b, a[i].path) && entry_at(b, a[i].path).signature != a[i].signature
            ==> compare_spec(a, b).contains(
            (DiffView {
                path: a[i].path,
                first_abspath: a[i].abspath,
                first_signature: a[i].signature,
                first_timestamp: a[i].timestamp,
                second_abspath: entry_at(b, a[i].path).abspath,
                second_signature: entry_at(b, a[i].path).signature,
                second_timestamp: entry_at(b, a[i].path).timestamp,
            }),
        ),
{
    if !has_path(b, a[i].path) {
        assert(missing_f(b)(a[i]) == Some(a[i].path));
        lemma_filter_map_membership(a, missing_f(b), i);
    }
    if has_path(b, a[i].path) && entry_at(b, a[i].path).signature != a[i].signature {
        assert(diff_f(b)(a[i]) is Some);
        lemma_filter_map_membership(a, diff_f(b), i);
    }
}

/// The logical paths of `a`'s entries that have no entry in `b`, in `a`'s
/// scan order.
fn missing_paths(a: &Vec<Entry>, b: &Vec<Entry>) -> (r: Vec<String>)
    ensures
        r.deep_view() == missing_spec(
            a@.map_values(|e: Entry| e@),
            b@.map_values(|e: Entry| e@),
        ),
{
    let ghost av = a@.map_values(|e: Entry| e@);
    let ghost bv = b@.map_values(|e: Entry| e@);
    let ghost f = missing_f(bv);
    let mut out: Vec<String> = Vec::new();
    let mut i: usize = 0;
    while i < a.len()
        invariant
            i <= av.len(),
            av == a@.map_values(|e: Entry| e@),
            bv == b@.map_values(|e: Entry| e@),
            f == missing_f(bv),
            out.deep_view() =~= av.take(i as int).filter_map(f),
        decreases av.len() - i,
    {
        proof {
            assert(av[i as int] == a@[i as int]@);
            av.lemma_filter_map_take_succ(f, i as int);
        }
        let ghost prev = out.deep_view();
        match find_in(b, &a[i].path) {
            Some(j) => {
                proof {
                    assert(bv[j as int] == b@[j as int]@);
                    assert(has_path(bv, av[i as int].path));
                    assert(f(av[i as int]) is None);
                }
            },
            None => {
                out.push(a[i].path.clone());
                proof {
                    assert(out.deep_view() =~= prev + seq![av[i as int].path]);
                }
            },
        }
        proof {
            assert(out.deep_view() =~= av.take(i + 1).filter_map(f));
        }
        i = i + 1;
    }
    proof {
        assert(av.take(av.len() as int) =~= av);
    }
    out
}

impl Database {
    /// The symmetric anti-join on logical path: the paths the primary lacks
    /// (present only in the second catalog), and the paths the second
    /// catalog lacks. Fails with `Unexpected` when no second catalog is
    /// bound.
    pub fn find_missing(&self) -> (r: Result<(Vec<String>, Vec<String>), DatabaseError>)
        ensures
            self@.second is None ==> r == Err::<(Vec<String>, Vec<String>), DatabaseError>(
                DatabaseError::Unexpected,
            ),
            self@.second matches Some(sc) ==> (r matches Ok(p)
                && p.0.deep_view() == missing_spec(sc.entries, self@.main.entries)
                && p.1.deep_view() == missing_spec(self@.main.entries, sc.entries)),
    {
        match self.second {
            Some(ref c) => {
                let missing_in_first = missing_paths(&c.entries, &self.main.entries);
                let missing_in_second = missing_paths(&self.main.entries, &c.entries);
                Ok((missing_in_first, missing_in_second))
            },
            None => Err(DatabaseError::Unexpected),
        }
    }

    /// The content-mismatch report: one row per logical path stored in both
    /// catalogs with differing signatures, carrying path, then the primary's
    /// absolute path, signature and timestamp, then the second catalog's.
    /// Fails with `Unexpected` when no second catalog is bound.
    pub fn compare(&self) -> (r: Result<
        Vec<(String, String, String, u64, String, String, u64)>,
        DatabaseError,
    >)
        requires
            self@.wf(),
        ensures
            self@.second is None ==> r == Err::<
                Vec<(String, String, String, u64, String, String, u64)>,
                DatabaseError,
            >(DatabaseError::Unexpected),
            self@.second matches Some(sc) ==> (r matches Ok(v) && rows_match(
                v@,
                compare_spec(self@.main.entries, sc.entries),
            )),
    {
        let c = match self.second {
            Some(ref c) => c,
            None => {
                return Err(DatabaseError::Unexpected);
            },
        };
        let ghost av = self@.main.entries;
        let ghost bv = self@.second->0.entries;
        let ghost f = diff_f(bv);
        let mut out: Vec<(String, String, String, u64, String, String, u64)> = Vec::new();
        let mut i: usize = 0;
        while i < self.main.entries.len()
            invariant
                i <= av.len(),
                av == self@.main.entries,
                self.main.entries@.len() == av.len(),
                paths_unique(bv),
                bv == catalog_view(c).entries,
                c.entries@.len() == bv.len(),
                f == diff_f(bv),
                rows_match(out@, av.take(i as int).filter_map(f)),
            decreases av.len() - i,
        {
            proof {
                assert(av[i as int] == self.main.entries@[i as int]@);
                av.lemma_filter_map_take_succ(f, i as int);
            }
            let a = &self.main.entries[i];
            match find_in(&c.entries, &a.path) {
                Some(j) => {
                    proof {
                        assert(bv[j as int] == c.entries@[j as int]@);
                        assert(has_path(bv, av[i as int].path));
                        let k = choose|k: int| 0 <= k < bv.len() && bv[k].path == av[i as int].path;
                        if k != j as int {
                            assert(bv[k].path == bv[j as int].path);
                            assert(false);
                        }
                        assert(entry_at(bv, av[i as int].path) == bv[j as int]);
                    }
                    let b = &c.entries[j];
                    if a.signature != b.signature {
                        out.push(
                            (
                                a.path.clone(),
                                a.abspath.clone(),
                                a.signature.clone(),
                                a.timestamp,
                                b.abspath.clone(),
                                b.signature.clone(),
                                b.timestamp,
                            ),
                        );
                    }
                },
                None => {
                    proof {
                        assert(f(av[i as int]) is None);
                    }
                },
            }
            proof {
                assert(rows_match(out@, av.take(i + 1).filter_map(f)));
            }
            i = i + 1;
        }
        proof {
            assert(av.take(av.len() as int) =~= av);
        }
        Ok(out)
    }
}

/// The duplicate groups over the first `n` entries, keyed by the signatures
/// that at least two entries of the whole catalog share.
spec fn partial_dupes(es: Seq<EntryView>, n: int) -> Map<Seq<char>, Seq<EntryView>> {
    Map::new(
        |sig: Seq<char>| sig_group(es, sig).len() >= 2 && sig_group(es.take(n), sig).len() >= 1,
        |sig: Seq<char>| sig_group(es.take(n), sig),
    )
}

impl Database {
    /// The duplicate groups of the primary catalog: every signature that at
    /// least two entries share, mapped to those entries in scan order.
    pub fn find_dupes(&self) -> (r: Result<DupeMap, DatabaseError>)
        ensures
            r matches Ok(m) && mm_model(m) == dupes_map(self@.main.entries),
    {
        let ghost es = self@.main.entries;
        let mut dupe_files = mm_new();
        proof {
            assert_maps_equal!(mm_model(dupe_files), partial_dupes(es, 0), sig => {
                assert(es.take(0) =~= Seq::<EntryView>::empty());
                assert(sig_group(es.take(0), sig).len() == 0);
            });
        }
        let mut i: usize = 0;
        while i < self.main.entries.len()
            invariant
                i <= es.len(),
                es == self@.main.entries,
                self.main.entries@.len() == es.len(),
                mm_model(dupe_files) == partial_dupes(es, i as int),
            decreases es.len() - i,
        {
            proof {
                assert(es[i as int] == self.main.entries@[i as int]@);
            }
            let ghost prev = mm_model(dupe_files);
            let ghost j = i as int;
            let e = &self.main.entries[i];
            let cnt = count_signature(&self.main.entries, &e.signature);
            let inserted = cnt >= 2;
            if inserted {
                mm_insert(&mut dupe_files, e.signature.clone(), e.clone());
            }
            proof {
                let sig0 = es[j].signature;
                let cur = mm_model(dupe_files);
                assert_maps_equal!(cur, partial_dupes(es, j + 1), sig => {
                    es.lemma_filter_map_take_succ(group_f(sig), j);
                    let g_j = sig_group(es.take(j), sig);
                    let g_j1 = sig_group(es.take(j + 1), sig);
                    let gg = sig_group(es, sig);
                    if sig == sig0 {
                        assert(g_j1 =~= g_j.push(es[j]));
                        assert(cnt == gg.len());
                        if inserted {
                            if g_j.len() >= 1 {
                                assert(prev.dom().contains(sig0));
                                assert(cur[sig0] =~= g_j1);
                            } else {
                                assert(!prev.dom().contains(sig0));
                                assert(cur[sig0] =~= g_j1);
                            }
                        }
                    } else {
                        assert(g_j1 =~= g_j);
                        if cur.dom().contains(sig) || partial_dupes(es, j + 1).dom().contains(sig) {
                            assert(cur[sig] == prev[sig]);
                        }
                    }
                });
            }
            i = i + 1;
        }
        proof {
            assert(es.take(es.len() as int) =~= es);
            assert_maps_equal!(mm_model(dupe_files), dupes_map(es), sig => {
                assert(sig_group(es.take(es.len() as int), sig) == sig_group(es, sig));
            });
        }
        Ok(dupe_files)
    }
}

/// The catalog selected by `which`: the primary for `None` or `First`, the
/// bound second catalog for `Second` if one is bound.
pub open spec fn spec_selected(db: DatabaseView, which: Option<Which>) -> Option<CatalogView> {
    match which {
        None | Some(Which::First) => Some(db.main),
        Some(Which::Second) => db.second,
    }
}

/// The sum of the entries' sizes, as an unbounded integer.
pub open spec fn total_size(es: Seq<EntryView>) -> int
    decreases es.len(),
{
    if es.len() == 0 {
        0
    } else {
        total_size(es.drop_last()) + es.last().size
    }
}

proof fn lemma_total_size_monotonic(es: Seq<EntryView>, i: int, j: int)
    requires
        0 <= i <= j <= es.len(),
    ensures
        total_size(es.take(i)) <= total_size(es.take(j)),
    decreases j - i,
{
    if i < j {
        lemma_total_size_monotonic(es, i, j - 1);
        assert(es.take(j).drop_last() =~= es.take(j - 1));
    }
}

} // verus!
