//! Grouping entries by signature, and the trusted boundary to the
//! `multimap` crate's `MultiMap`, which carries the groups to callers.

use vstd::prelude::*;

use crate::model::{Entry, EntryView};

verus! {

/// Declares the `multimap` crate's map type to the verifier; its values are
/// opaque and are spoken of only through `mm_model`.
#[verifier::external_type_specification]
#[verifier::external_body]
#[verifier::reject_recursive_types(K)]
#[verifier::reject_recursive_types(V)]
#[verifier::reject_recursive_types(S)]
pub struct ExMultiMap<K, V, S>(multimap::MultiMap<K, V, S>);

/// The signature-keyed grouping of duplicate entries, as callers receive it.
pub type DupeMap = multimap::MultiMap<String, Entry>;

/// What a signature-keyed multimap holds: for each present key, the entries
/// inserted under it, in insertion order.
pub uninterp spec fn mm_model(m: DupeMap) -> Map<Seq<char>, Seq<EntryView>>;

/// The model of a multimap that holds no keys.
pub open spec fn mm_empty_model() -> Map<Seq<char>, Seq<EntryView>> {
    Map::empty()
}

/// Relies on multimap::MultiMap::new: the new map holds no keys.
#[verifier::external_body]
pub fn mm_new() -> (r: DupeMap)
    ensures
        mm_model(r) == mm_empty_model(),
{
    multimap::MultiMap::new()
}

/// Relies on multimap::MultiMap::insert: a vacant key now maps to the one
/// value; an occupied key has the value pushed onto the end of its vector.
#[verifier::external_body]
pub fn mm_insert(m: &mut DupeMap, k: String, v: Entry)
    ensures
        mm_model(*final(m)) == (if mm_model(*old(m)).dom().contains(k@) {
            mm_model(*old(m)).insert(k@, mm_model(*old(m))[k@].push(v@))
        } else {
            mm_model(*old(m)).insert(k@, seq![v@])
        }),
{
    m.insert(k, v);
}

/// Maps an entry to itself when its signature is `sig`.
pub open spec fn group_f(sig: Seq<char>) -> spec_fn(EntryView) -> Option<EntryView> {
    |e: EntryView|
        if e.signature == sig {
            Some(e)
        } else {
            None
        }
}

/// The entries whose signature is `sig`, in scan order.
pub open spec fn sig_group(es: Seq<EntryView>, sig: Seq<char>) -> Seq<EntryView> {
    es.filter_map(group_f(sig))
}

/// The duplicate groups of a catalog: each signature that at least two
/// entries share, mapped to those entries in scan order.
pub open spec fn dupes_map(es: Seq<EntryView>) -> Map<Seq<char>, Seq<EntryView>> {
    Map::new(
        |sig: Seq<char>| sig_group(es, sig).len() >= 2,
        |sig: Seq<char>| sig_group(es, sig),
    )
}

/// How many entries carry the signature `sig`.
pub fn count_signature(entries: &Vec<Entry>, sig: &String) -> (c: usize)
    ensures
        c == sig_group(entries@.map_values(|e: Entry| e@), sig@).len(),
{
    let ghost es = entries@.map_values(|e: Entry| e@);
    let ghost f = group_f(sig@);
    let mut c: usize = 0;
    let mut i: usize = 0;
    while i < entries.len()
        invariant
            i <= es.len(),
            es == entries@.map_values(|e: Entry| e@),
            f == group_f(sig@),
            c <= i,
            c == es.take(i as int).filter_map(f).len(),
        decreases es.len() - i,
    {
        proof {
            assert(es[i as int] == entries@[i as int]@);
            es.lemma_filter_map_take_succ(f, i as int);
        }
        if entries[i].signature == *sig {
            c = c + 1;
        }
        i = i + 1;
    }
    proof {
        assert(es.take(es.len() as int) =~= es);
    }
    c
}

} // verus!
