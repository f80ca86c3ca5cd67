//! Declarations of the `fnv` hashed maps the engine keeps, and the trusted
//! wrappers through which verified code reads and updates them.

use std::sync::Arc;
use fnv::{FnvHashMap, FnvHashSet};
use vstd::prelude::*;
use crate::blob::BlobEntry;
use crate::cache::CachedEntry;

verus! {

#[verifier::external_type_specification]
#[verifier::external_body]
pub struct ExFnvHasher(fnv::FnvHasher);

#[verifier::external_type_specification]
#[verifier::external_body]
#[verifier::reject_recursive_types(H)]
pub struct ExBuildHasherDefault<H>(std::hash::BuildHasherDefault<H>);

/// The URL-to-bytes entries of a response map, keyed by the URL's characters.
pub uninterp spec fn url_bytes_entries(m: FnvHashMap<String, Arc<Vec<u8>>>) -> Map<Seq<char>, Seq<u8>>;

/// Calls `FnvHashMap::default`: an empty map.
#[verifier::external_body]
pub(crate) fn url_bytes_new() -> (m: FnvHashMap<String, Arc<Vec<u8>>>)
    ensures
        url_bytes_entries(m).dom().is_empty(),
{
    FnvHashMap::default()
}

/// Calls `HashMap::get` and clones the `Arc` found: the value stored under `k`.
#[verifier::external_body]
pub(crate) fn url_bytes_get(m: &FnvHashMap<String, Arc<Vec<u8>>>, k: &str) -> (r: Option<Arc<Vec<u8>>>)
    ensures
        match r {
            Some(v) => url_bytes_entries(*m).contains_key(k@) && v@ == url_bytes_entries(*m)[k@],
            None => !url_bytes_entries(*m).contains_key(k@),
        },
{
    m.get(k).cloned()
}

/// Calls `HashMap::insert`: `k` now maps to `v`, other keys are unchanged.
#[verifier::external_body]
pub(crate) fn url_bytes_insert(m: &mut FnvHashMap<String, Arc<Vec<u8>>>, k: String, v: Arc<Vec<u8>>)
    ensures
        url_bytes_entries(*final(m)) == url_bytes_entries(*old(m)).insert(k@, v@),
{
    m.insert(k, v);
}

/// Calls `HashMap::remove`: drops the entry for `k` and returns its value.
#[verifier::external_body]
pub(crate) fn url_bytes_remove(m: &mut FnvHashMap<String, Arc<Vec<u8>>>, k: &str) -> (r: Option<Arc<Vec<u8>>>)
    ensures
        url_bytes_entries(*final(m)) == url_bytes_entries(*old(m)).remove(k@),
        match r {
            Some(v) => url_bytes_entries(*old(m)).contains_key(k@) && v@ == url_bytes_entries(*old(m))[k@],
            None => !url_bytes_entries(*old(m)).contains_key(k@),
        },
{
    m.remove(k)
}

/// Calls `HashMap::clear`: no entries remain.
#[verifier::external_body]
pub(crate) fn url_bytes_clear(m: &mut FnvHashMap<String, Arc<Vec<u8>>>)
    ensures
        url_bytes_entries(*final(m)).dom().is_empty(),
{
    m.clear();
}

/// Calls `HashMap::len`: the number of entries.
#[verifier::external_body]
pub(crate) fn url_bytes_len(m: &FnvHashMap<String, Arc<Vec<u8>>>) -> (r: usize)
    ensures
        r == url_bytes_entries(*m).len(),
{
    m.len()
}

/// The members of a set of node handles.
pub uninterp spec fn id_set_members(s: FnvHashSet<u32>) -> Set<u32>;

/// Calls `FnvHashSet::default`: an empty set.
#[verifier::external_body]
pub(crate) fn id_set_new() -> (s: FnvHashSet<u32>)
    ensures
        id_set_members(s).is_empty(),
{
    FnvHashSet::default()
}

/// Calls `HashSet::insert`: adds `x`, and reports whether it was absent.
#[verifier::external_body]
pub(crate) fn id_set_insert(s: &mut FnvHashSet<u32>, x: u32) -> (r: bool)
    ensures
        id_set_members(*final(s)) == id_set_members(*old(s)).insert(x),
        r == !id_set_members(*old(s)).contains(x),
{
    s.insert(x)
}

/// The live blob entries of a blob map, keyed by the URL's characters.
pub uninterp spec fn blob_entries(m: FnvHashMap<String, Arc<BlobEntry>>) -> Map<Seq<char>, BlobEntry>;

/// Calls `FnvHashMap::default`: an empty map.
#[verifier::external_body]
pub(crate) fn blob_map_new() -> (m: FnvHashMap<String, Arc<BlobEntry>>)
    ensures
        blob_entries(m).dom().is_empty(),
{
    FnvHashMap::default()
}

/// Calls `HashMap::contains_key`: whether `k` has an entry.
#[verifier::external_body]
pub(crate) fn blob_map_contains(m: &FnvHashMap<String, Arc<BlobEntry>>, k: &str) -> (r: bool)
    ensures
        r == blob_entries(*m).contains_key(k@),
{
    m.contains_key(k)
}

/// Calls `HashMap::get` and clones the `Arc` found: the entry under `k`.
#[verifier::external_body]
pub(crate) fn blob_map_get(m: &FnvHashMap<String, Arc<BlobEntry>>, k: &str) -> (r: Option<Arc<BlobEntry>>)
    ensures
        match r {
            Some(v) => blob_entries(*m).contains_key(k@) && *v == blob_entries(*m)[k@],
            None => !blob_entries(*m).contains_key(k@),
        },
{
    m.get(k).cloned()
}

/// Calls `HashMap::insert`: `k` now maps to `v`, other keys are unchanged.
#[verifier::external_body]
pub(crate) fn blob_map_insert(m: &mut FnvHashMap<String, Arc<BlobEntry>>, k: String, v: Arc<BlobEntry>)
    ensures
        blob_entries(*final(m)) == blob_entries(*old(m)).insert(k@, *v),
{
    m.insert(k, v);
}

/// Calls `HashMap::remove`: drops the entry for `k` and returns it.
#[verifier::external_body]
pub(crate) fn blob_map_remove(m: &mut FnvHashMap<String, Arc<BlobEntry>>, k: &str) -> (r: Option<Arc<BlobEntry>>)
    ensures
        blob_entries(*final(m)) == blob_entries(*old(m)).remove(k@),
        r is Some <==> blob_entries(*old(m)).contains_key(k@),
{
    m.remove(k)
}

/// Calls `HashMap::len`: the number of entries.
#[verifier::external_body]
pub(crate) fn blob_map_len(m: &FnvHashMap<String, Arc<BlobEntry>>) -> (r: usize)
    ensures
        r == blob_entries(*m).len(),
{
    m.len()
}

/// The entries of a network-cache map, keyed by the URL's characters.
pub uninterp spec fn cache_entries(m: FnvHashMap<String, Arc<CachedEntry>>) -> Map<Seq<char>, CachedEntry>;

/// Calls `FnvHashMap::default`: an empty map.
#[verifier::external_body]
pub(crate) fn cache_map_new() -> (m: FnvHashMap<String, Arc<CachedEntry>>)
    ensures
        cache_entries(m).dom().is_empty(),
{
    FnvHashMap::default()
}

/// Calls `HashMap::get` and clones the `Arc` found: the entry under `k`.
#[verifier::external_body]
pub(crate) fn cache_map_get(m: &FnvHashMap<String, Arc<CachedEntry>>, k: &str) -> (r: Option<Arc<CachedEntry>>)
    ensures
        match r {
            Some(v) => cache_entries(*m).contains_key(k@) && *v == cache_entries(*m)[k@],
            None => !cache_entries(*m).contains_key(k@),
        },
{
    m.get(k).cloned()
}

/// Calls `HashMap::insert`: `k` now maps to `v`, other keys are unchanged.
#[verifier::external_body]
pub(crate) fn cache_map_insert(m: &mut FnvHashMap<String, Arc<CachedEntry>>, k: String, v: Arc<CachedEntry>)
    ensures
        cache_entries(*final(m)) == cache_entries(*old(m)).insert(k@, *v),
{
    m.insert(k, v);
}

/// Calls `HashMap::remove`: drops the entry for `k` and returns it.
#[verifier::external_body]
pub(crate) fn cache_map_remove(m: &mut FnvHashMap<String, Arc<CachedEntry>>, k: &str) -> (r: Option<Arc<CachedEntry>>)
    ensures
        cache_entries(*final(m)) == cache_entries(*old(m)).remove(k@),
        match r {
            Some(v) => cache_entries(*old(m)).contains_key(k@) && *v == cache_entries(*old(m))[k@],
            None => !cache_entries(*old(m)).contains_key(k@),
        },
{
    m.remove(k)
}

/// Calls `HashMap::clear`: no entries remain.
#[verifier::external_body]
pub(crate) fn cache_map_clear(m: &mut FnvHashMap<String, Arc<CachedEntry>>)
    ensures
        cache_entries(*final(m)).dom().is_empty(),
{
    m.clear();
}

/// Calls `HashMap::len`: the number of entries.
#[verifier::external_body]
pub(crate) fn cache_map_len(m: &FnvHashMap<String, Arc<CachedEntry>>) -> (r: usize)
    ensures
        r == cache_entries(*m).len(),
{
    m.len()
}

/// Calls `HashMap::keys` and clones each key: every key once, in the map's
/// own (unspecified) walk order.
#[verifier::external_body]
pub(crate) fn cache_map_keys(m: &FnvHashMap<String, Arc<CachedEntry>>) -> (r: Vec<String>)
    ensures
        forall|i: int| 0 <= i < r@.len() ==> cache_entries(*m).contains_key(#[trigger] r@[i]@),
        forall|k: Seq<char>| cache_entries(*m).contains_key(k) ==> exists|i: int| 0 <= i < r@.len() && #[trigger] r@[i]@ == k,
{
    m.keys().cloned().collect()
}

/// The parent links of a scroll registry: each scroll container's id to
/// its enclosing scroll container, if any.
pub uninterp spec fn parent_links(m: FnvHashMap<u64, Option<u64>>) -> Map<u64, Option<u64>>;

/// Calls `HashMap::get` and copies the value: the parent link stored under
/// `k`.
#[verifier::external_body]
pub(crate) fn parent_links_get(m: &FnvHashMap<u64, Option<u64>>, k: u64) -> (r: Option<Option<u64>>)
    ensures
        match r {
            Some(v) => parent_links(*m).contains_key(k) && v == parent_links(*m)[k],
            None => !parent_links(*m).contains_key(k),
        },
{
    m.get(&k).copied()
}

/// The entries of a layer-index map: a layer id to a position.
pub uninterp spec fn layer_index(m: FnvHashMap<u64, usize>) -> Map<u64, usize>;

/// Calls `FnvHashMap::default`: an empty map.
#[verifier::external_body]
pub(crate) fn layer_index_new() -> (m: FnvHashMap<u64, usize>)
    ensures
        layer_index(m).dom().is_empty(),
{
    FnvHashMap::default()
}

/// Calls `HashMap::get` and copies the value stored under `k`.
#[verifier::external_body]
pub(crate) fn layer_index_get(m: &FnvHashMap<u64, usize>, k: u64) -> (r: Option<usize>)
    ensures
        match r {
            Some(v) => layer_index(*m).contains_key(k) && v == layer_index(*m)[k],
            None => !layer_index(*m).contains_key(k),
        },
{
    m.get(&k).copied()
}

/// Calls `HashMap::insert`: `k` now maps to `v`, other keys are unchanged.
#[verifier::external_body]
pub(crate) fn layer_index_insert(m: &mut FnvHashMap<u64, usize>, k: u64, v: usize)
    ensures
        layer_index(*final(m)) == layer_index(*old(m)).insert(k, v),
{
    m.insert(k, v);
}

/// Calls `HashMap::keys` and copies them: every key once, in the map's
/// iteration order.
#[verifier::external_body]
pub(crate) fn layer_index_keys(m: &FnvHashMap<u64, usize>) -> (r: Vec<u64>)
    ensures
        r@.no_duplicates(),
        forall|k: u64| #[trigger] r@.contains(k) <==> layer_index(*m).contains_key(k),
{
    m.keys().copied().collect()
}

/// The members of a layer-id set.
pub uninterp spec fn layer_ids(s: FnvHashSet<u64>) -> Set<u64>;

/// Calls `FnvHashSet::default`: an empty set.
#[verifier::external_body]
pub(crate) fn layer_ids_new() -> (s: FnvHashSet<u64>)
    ensures
        layer_ids(s).is_empty(),
{
    FnvHashSet::default()
}

/// Calls `HashSet::contains`: whether `x` is a member.
#[verifier::external_body]
pub(crate) fn layer_ids_contains(s: &FnvHashSet<u64>, x: u64) -> (r: bool)
    ensures
        r == layer_ids(*s).contains(x),
{
    s.contains(&x)
}

/// Calls `HashSet::insert`: adds `x`.
#[verifier::external_body]
pub(crate) fn layer_ids_insert(s: &mut FnvHashSet<u64>, x: u64)
    ensures
        layer_ids(*final(s)) == layer_ids(*old(s)).insert(x),
{
    s.insert(x);
}

} // verus!
