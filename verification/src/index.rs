//! The in-memory index: which bytes of which log file hold each live key.
//!
//! The index is a `DashMap` shared between one writer and any number of
//! readers. The writer's handle, `Index`, is the only one that changes
//! the map, so what the map holds is a function of what the writer did.
//! A reader's handle, `IndexReader`, sees the map at some moment between
//! two steps of the writer and promises nothing about which.

use dashmap::DashMap;
use std::sync::Arc;
use vstd::prelude::*;

verus! {

/// Where one record lies on disk: `length` bytes at `offset` of log `file_id`.
#[derive(Clone, Copy, Debug, PartialEq, Eq, Structural)]
pub struct RecordInfo {
    pub file_id: u64,
    pub offset: u64,
    pub length: u64,
}

impl RecordInfo {
    /// The location of `length` bytes at `offset` in log `file_id`.
    pub fn new(file_id: u64, offset: u64, length: u64) -> (info: RecordInfo)
        ensures
            info == (RecordInfo { file_id, offset, length }),
    {
        RecordInfo { file_id, offset, length }
    }
}

/// `dashmap::DashMap`, known only by what its entries are.
#[verifier::external_type_specification]
#[verifier::external_body]
#[verifier::reject_recursive_types(K)]
#[verifier::reject_recursive_types(V)]
#[verifier::reject_recursive_types(S)]
pub struct ExDashMap<K, V, S>(DashMap<K, V, S>);

/// The entries that a `DashMap` from keys to record locations holds.
pub uninterp spec fn map_entries(map: DashMap<String, RecordInfo>) -> Map<Seq<char>, RecordInfo>;

/// What `entries` holds for `key`, if anything.
pub open spec fn lookup(entries: Map<Seq<char>, RecordInfo>, key: Seq<char>) -> Option<RecordInfo> {
    if entries.contains_key(key) {
        Some(entries[key])
    } else {
        None
    }
}

/// Whether `listing` names every entry of `entries` once and nothing else.
pub open spec fn lists(listing: Seq<(String, RecordInfo)>, entries: Map<Seq<char>, RecordInfo>) -> bool {
    &&& forall|i: int|
        0 <= i < listing.len() ==> lookup(entries, (#[trigger] listing[i]).0@) == Some(listing[i].1)
    &&& forall|i: int, j: int|
        0 <= i < j < listing.len() ==> (#[trigger] listing[i]).0@ != (#[trigger] listing[j]).0@
    &&& forall|key: Seq<char>| #[trigger]
        entries.contains_key(key) ==> exists|i: int| 0 <= i < listing.len() && (#[trigger] listing[i]).0@ == key
}

/// `DashMap::new`: a map without entries.
#[verifier::external_body]
fn map_new() -> (fresh: DashMap<String, RecordInfo>)
    ensures
        map_entries(fresh) =~= Map::empty(),
{
    DashMap::new()
}

/// `DashMap::insert`: binds `key` to `record` and hands back the location
/// that `key` had before, if it had one. No other key is touched.
#[verifier::external_body]
fn map_insert(map: &mut Arc<DashMap<String, RecordInfo>>, key: String, record: RecordInfo) -> (previous:
    Option<RecordInfo>)
    ensures
        map_entries(**final(map)) == map_entries(**old(map)).insert(key@, record),
        previous == lookup(map_entries(**old(map)), key@),
{
    map.insert(key, record)
}

/// `DashMap::remove`: takes the entry of `key` out, if there is one, and
/// hands back its location. No other key is touched.
#[verifier::external_body]
fn map_remove(map: &mut Arc<DashMap<String, RecordInfo>>, key: &str) -> (previous: Option<RecordInfo>)
    ensures
        map_entries(**final(map)) == map_entries(**old(map)).remove(key@),
        previous == lookup(map_entries(**old(map)), key@),
{
    map.remove(key).map(|(_, record)| record)
}

/// `DashMap::contains_key` through the writer's handle: whether `key` is
/// bound.
#[verifier::external_body]
fn map_contains(map: &Arc<DashMap<String, RecordInfo>>, key: &str) -> (bound: bool)
    ensures
        bound == map_entries(**map).contains_key(key@),
{
    map.contains_key(key)
}

/// `DashMap::get` through a reader's handle: the location that `key` is
/// bound to when the call looks. The writer may be at work in another
/// thread, so nothing is said of what comes back.
#[verifier::external_body]
fn map_get(map: &Arc<DashMap<String, RecordInfo>>, key: &str) -> Option<RecordInfo> {
    map.get(key).map(|entry| *entry.value())
}

/// `DashMap::iter` through the writer's handle: every entry once, in no
/// order that could be named.
#[verifier::external_body]
fn map_list(map: &Arc<DashMap<String, RecordInfo>>) -> (listing: Vec<(String, RecordInfo)>)
    ensures
        lists(listing@, map_entries(**map)),
{
    let mut listing = Vec::new();
    for entry in map.iter() {
        listing.push((entry.key().clone(), *entry.value()));
    }
    listing
}

/// `Arc::clone`: a second handle on the same map.
#[verifier::external_body]
fn map_share(map: &Arc<DashMap<String, RecordInfo>>) -> Arc<DashMap<String, RecordInfo>> {
    Arc::clone(map)
}

/// The writer's handle on the index.
pub struct Index {
    map: Arc<DashMap<String, RecordInfo>>,
}

/// A reader's handle on the index.
pub struct IndexReader {
    map: Arc<DashMap<String, RecordInfo>>,
}

impl View for Index {
    type V = Map<Seq<char>, RecordInfo>;

    closed spec fn view(&self) -> Map<Seq<char>, RecordInfo> {
        map_entries(*self.map)
    }
}

impl Index {
    /// An index without entries.
    pub fn new() -> (index: Index)
        ensures
            index@ == Map::<Seq<char>, RecordInfo>::empty(),
    {
        Index { map: Arc::new(map_new()) }
    }

    /// Binds `key` to `record`; hands back the location it replaces.
    pub fn insert(&mut self, key: String, record: RecordInfo) -> (previous: Option<RecordInfo>)
        ensures
            final(self)@ == old(self)@.insert(key@, record),
            previous == lookup(old(self)@, key@),
    {
        map_insert(&mut self.map, key, record)
    }

    /// Unbinds `key`; hands back the location it had.
    pub fn remove(&mut self, key: &str) -> (previous: Option<RecordInfo>)
        ensures
            final(self)@ == old(self)@.remove(key@),
            previous == lookup(old(self)@, key@),
    {
        map_remove(&mut self.map, key)
    }

    /// Whether `key` is bound.
    pub fn contains_key(&self, key: &str) -> (bound: bool)
        ensures
            bound == self@.contains_key(key@),
    {
        map_contains(&self.map, key)
    }

    /// Every entry once, in no particular order.
    pub fn entries(&self) -> (listing: Vec<(String, RecordInfo)>)
        ensures
            lists(listing@, self@),
    {
        map_list(&self.map)
    }

    /// A handle for a reader, on the same map.
    pub fn reader(&self) -> IndexReader {
        IndexReader { map: map_share(&self.map) }
    }
}

impl IndexReader {
    /// The location that `key` is bound to at the moment of the call, if
    /// any.
    pub fn get(&self, key: &str) -> Option<RecordInfo> {
        map_get(&self.map, key)
    }

    /// Another handle for a reader, on the same map.
    pub fn another(&self) -> IndexReader {
        IndexReader { map: map_share(&self.map) }
    }
}

} // verus!
