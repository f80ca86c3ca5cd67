//! The resource manager: everything a guest fetches under a URL.
//!
//! It owns a network cache bounded by a byte budget, whose freshness
//! questions go to a host-injected [`CachePolicyProvider`] and whose
//! victims a host-injected [`EvictionPolicy`] picks, and the blob-URL
//! registry, which is unbounded and changes only on explicit revocation.

use std::sync::Arc;
use fnv::FnvHashMap;
use vstd::prelude::*;
use crate::blob::{blob_prefix, BlobEntry, BlobRegistry};
use crate::cache::{
    first_index, instant_now, CachePolicyProvider, CachedEntry, EvictionPolicy, Freshness, LruBytesEviction,
};
use crate::hashing::{
    cache_entries, cache_map_clear, cache_map_get, cache_map_insert, cache_map_keys, cache_map_len,
    cache_map_new, cache_map_remove,
};
use crate::text::{arc_clone, chars_of, eq_ignore_ascii_case, range_eq_ignore_ascii_case, trim_str, trimmed};

verus! {

/// The default byte budget of the network cache: 64 MiB.
pub const DEFAULT_BYTE_BUDGET: usize = 64 * 1024 * 1024;

/// Total body bytes of the entries of `m`.
pub open spec fn total_bytes(m: Map<Seq<char>, CachedEntry>) -> nat
    decreases m.len(),
{
    if m.dom().finite() && m.len() > 0 {
        let k = m.dom().choose();
        proof {
            assert(m.dom().contains(k));
            assert(m.remove(k).dom() =~= m.dom().remove(k));
        }
        m[k].bytes@.len() + total_bytes(m.remove(k))
    } else {
        0
    }
}

/// The bytes of a finite map are those of any one entry plus those of the
/// rest.
pub proof fn lemma_total_bytes_remove(m: Map<Seq<char>, CachedEntry>, k: Seq<char>)
    requires
        m.dom().finite(),
        m.dom().contains(k),
    ensures
        total_bytes(m) == m[k].bytes@.len() + total_bytes(m.remove(k)),
    decreases m.len(),
{
    assert(m.remove(k).dom() =~= m.dom().remove(k));
    assert(m.len() > 0);
    let c = m.dom().choose();
    if c != k {
        assert(m.remove(c).dom() =~= m.dom().remove(c));
        assert(m.remove(c).dom().contains(k));
        assert(m.remove(k).dom().contains(c));
        lemma_total_bytes_remove(m.remove(c), k);
        lemma_total_bytes_remove(m.remove(k), c);
        assert(m.remove(c).remove(k) =~= m.remove(k).remove(c));
    }
}

/// Storing `v` under `k` changes the bytes of a finite map by the size of
/// `v`, less the size of what `k` held.
pub proof fn lemma_total_bytes_insert(m: Map<Seq<char>, CachedEntry>, k: Seq<char>, v: CachedEntry)
    requires
        m.dom().finite(),
    ensures
        total_bytes(m.insert(k, v)) == v.bytes@.len() + total_bytes(m.remove(k)),
{
    let m1 = m.insert(k, v);
    assert(m1.dom() =~= m.dom().insert(k));
    lemma_total_bytes_remove(m1, k);
    assert(m1.remove(k) =~= m.remove(k));
}

/// Step `i` of an eviction run: the cache `cs[i]` was over `budget`, the
/// policy `es[i]` named a victim, became `es[i + 1]`, and the victim's
/// entry (if any) left the cache.
pub open spec fn eviction_step<E: EvictionPolicy>(
    es: Seq<E>,
    cs: Seq<Map<Seq<char>, CachedEntry>>,
    budget: usize,
    i: int,
) -> bool {
    let cur = total_bytes(cs[i]);
    &&& cur > budget
    &&& es[i].victim(cur as usize, budget) is Some
    &&& es[i].after_pick(cur as usize, budget, es[i + 1])
    &&& cs[i + 1] == cs[i].remove(es[i].victim(cur as usize, budget)->0)
}

/// An eviction run from policy `es[0]` and cache `cs[0]`: the policy's
/// victims are dropped one by one while the cache is over `budget`; the run
/// ends within budget, or when the policy names no victim.
pub open spec fn eviction_run<E: EvictionPolicy>(
    es: Seq<E>,
    cs: Seq<Map<Seq<char>, CachedEntry>>,
    budget: usize,
) -> bool {
    &&& es.len() == cs.len()
    &&& es.len() > 0
    &&& forall|i: int| 0 <= i < es.len() - 1 ==> #[trigger] eviction_step(es, cs, budget, i)
    &&& ({
        let n = es.len() - 1;
        total_bytes(cs[n]) <= budget || es[n].victim(total_bytes(cs[n]) as usize, budget) is None
    })
}

/// The value of the first header in `hs` whose name equals `name` ignoring
/// ASCII case, trimmed of surrounding white space.
pub open spec fn header_lookup(hs: Seq<(String, String)>, name: Seq<char>) -> Option<Seq<char>>
    decreases hs.len(),
{
    if hs.len() == 0 {
        None
    } else if eq_ignore_ascii_case(hs[0].0@, name) {
        Some(trimmed(hs[0].1@))
    } else {
        header_lookup(hs.drop_first(), name)
    }
}

/// The characters of an optional string.
pub open spec fn opt_chars(o: Option<String>) -> Option<Seq<char>> {
    match o {
        Some(s) => Some(s@),
        None => None,
    }
}

/// Case-insensitive header lookup: the first matching value, trimmed.
fn header_value(headers: &[(String, String)], name: &str) -> (r: Option<String>)
    ensures
        opt_chars(r) == header_lookup(headers@, name@),
{
    let ghost hs = headers@;
    let nv = chars_of(name);
    let mut i: usize = 0;
    proof {
        assert(hs.skip(0) =~= hs);
    }
    while i < headers.len()
        invariant
            hs == headers@,
            nv@ == name@,
            i <= hs.len(),
            header_lookup(hs, name@) == header_lookup(hs.skip(i as int), name@),
        decreases hs.len() - i,
    {
        let kv = chars_of(headers[i].0.as_str());
        proof {
            assert(hs.skip(i as int)[0] == hs[i as int]);
            assert(hs.skip(i as int).drop_first() =~= hs.skip(i + 1));
            assert(kv@.subrange(0, kv@.len() as int) =~= kv@);
        }
        if range_eq_ignore_ascii_case(kv.as_slice(), 0, kv.len(), nv.as_slice()) {
            return Some(trim_str(headers[i].1.as_str()));
        }
        i = i + 1;
    }
    None
}

/// Whether `url` starts with `blob:paws/`.
fn has_blob_prefix(url: &str) -> (r: bool)
    ensures
        r == blob_prefix().is_prefix_of(url@),
{
    let v = chars_of(url);
    let p: [char; 10] = ['b', 'l', 'o', 'b', ':', 'p', 'a', 'w', 's', '/'];
    proof {
        assert(p@ =~= blob_prefix());
    }
    if v.len() < 10 {
        return false;
    }
    let mut i: usize = 0;
    while i < 10
        invariant
            i <= 10,
            v@ == url@,
            v@.len() >= 10,
            p@ == blob_prefix(),
            forall|j: int| 0 <= j < i ==> v@[j] == p@[j],
        decreases 10 - i,
    {
        if v[i] != p[i] {
            return false;
        }
        i = i + 1;
    }
    proof {
        assert(url@.take(10) =~= blob_prefix());
    }
    true
}

/// The central resource registry: a network cache bounded by a byte budget
/// and the blob-URL registry.
pub struct ResourceManager<P: CachePolicyProvider = (), E: EvictionPolicy = LruBytesEviction> {
    policy: P,
    eviction: E,
    entries: FnvHashMap<String, Arc<CachedEntry>>,
    blob: BlobRegistry,
    byte_budget: usize,
    current_bytes: usize,
}

impl ResourceManager<(), LruBytesEviction> {
    /// A manager with the default policy provider, LRU eviction and the
    /// default byte budget.
    pub fn new() -> (r: Self)
        ensures
            r.wf(),
            r.cached().dom().is_empty(),
            r.blobs().dom().is_empty(),
            r.budget() == DEFAULT_BYTE_BUDGET,
            r.used() == 0,
            r.eviction_state()@ == Seq::<Seq<char>>::empty(),
            r.in_sync(),
    {
        let e = LruBytesEviction::new();
        proof {
            e.lemma_no_candidate();
        }
        Self::with_parts((), e, DEFAULT_BYTE_BUDGET)
    }
}

impl Default for ResourceManager<(), LruBytesEviction> {
    fn default() -> (r: Self)
        ensures
            r.wf(),
            r.cached().dom().is_empty(),
            r.blobs().dom().is_empty(),
            r.budget() == DEFAULT_BYTE_BUDGET,
            r.used() == 0,
    {
        Self::new()
    }
}

impl<P: CachePolicyProvider, E: EvictionPolicy> ResourceManager<P, E> {
    /// The network cache: each URL's entry.
    pub closed spec fn cached(&self) -> Map<Seq<char>, CachedEntry> {
        cache_entries(self.entries)
    }

    /// The live blob URLs and their entries.
    pub closed spec fn blobs(&self) -> Map<Seq<char>, BlobEntry> {
        self.blob@
    }

    /// The byte budget of the network cache.
    pub closed spec fn budget(&self) -> nat {
        self.byte_budget as nat
    }

    /// The bytes the network cache accounts for.
    pub closed spec fn used(&self) -> nat {
        self.current_bytes as nat
    }

    /// The injected policy provider.
    pub closed spec fn policy_provider(&self) -> P {
        self.policy
    }

    /// The injected eviction policy.
    pub closed spec fn eviction_state(&self) -> E {
        self.eviction
    }

    /// Finitely many entries, whose bytes the manager accounts for exactly.
    pub closed spec fn wf(&self) -> bool {
        &&& self.cached().dom().finite()
        &&& self.current_bytes == total_bytes(self.cached())
        &&& self.blob.wf()
    }

    /// The eviction policy keeps book of exactly the cached URLs, each
    /// once.
    pub open spec fn in_sync(&self) -> bool {
        forall|k: Seq<char>| #[trigger] self.eviction_state().booked().count(k) == if self.cached().contains_key(k) {
            1nat
        } else {
            0nat
        }
    }

    /// Staying in sync depends only on the entries and the policy's books.
    proof fn lemma_sync_frame(a: &Self, b: &Self)
        requires
            a.in_sync(),
            a.eviction_state().booked() == b.eviction_state().booked(),
            a.cached() == b.cached(),
        ensures
            b.in_sync(),
    {
        assert forall|k: Seq<char>| #[trigger] b.eviction_state().booked().count(k) == if b.cached().contains_key(k) {
            1nat
        } else {
            0nat
        } by {
            assert(a.eviction_state().booked().count(k) == if a.cached().contains_key(k) {
                1nat
            } else {
                0nat
            });
        }
    }

    /// The bytes the cache accounts for are exactly the body bytes of its
    /// entries.
    pub proof fn lemma_bytes_accounted(&self)
        requires
            self.wf(),
        ensures
            self.cached().dom().finite(),
            self.used() == total_bytes(self.cached()),
    {
    }

    /// A manager from explicit parts, with empty registries.
    pub fn with_parts(policy: P, eviction: E, byte_budget: usize) -> (r: Self)
        ensures
            r.wf(),
            r.cached().dom().is_empty(),
            r.blobs().dom().is_empty(),
            r.budget() == byte_budget,
            r.used() == 0,
            r.policy_provider() == policy,
            r.eviction_state() == eviction,
            (forall|k: Seq<char>| #[trigger] eviction.booked().count(k) == 0) ==> r.in_sync(),
    {
        let r = ResourceManager {
            policy,
            eviction,
            entries: cache_map_new(),
            blob: BlobRegistry::new(),
            byte_budget,
            current_bytes: 0,
        };
        proof {
            assert(r.cached().dom() =~= Set::<Seq<char>>::empty());
            assert(r.cached().len() == 0);
        }
        r
    }

    /// Drops the victims the eviction policy names until the cache is
    /// within budget or the policy names none.
    fn enforce_budget(&mut self)
        requires
            old(self).wf(),
        ensures
            final(self).wf(),
            final(self).cached().submap_of(old(self).cached()),
            old(self).used() <= old(self).budget() ==> *final(self) == *old(self),
            final(self).blobs() == old(self).blobs(),
            final(self).budget() == old(self).budget(),
            final(self).policy_provider() == old(self).policy_provider(),
            final(self).used() <= final(self).budget() || !final(self).eviction_state().has_candidate(),
            old(self).in_sync() ==> final(self).in_sync(),
            exists|es: Seq<E>, cs: Seq<Map<Seq<char>, CachedEntry>>|
                #[trigger] eviction_run(es, cs, old(self).byte_budget) && es[0] == old(self).eviction_state() && cs[0]
                    == old(self).cached() && es.last() == final(self).eviction_state() && cs.last() == final(self).cached(),
    {
        let ghost mut es: Seq<E> = seq![self.eviction];
        let ghost mut cs: Seq<Map<Seq<char>, CachedEntry>> = seq![self.cached()];
        while self.current_bytes > self.byte_budget
            invariant
                self.wf(),
                self.cached().submap_of(old(self).cached()),
                self.blobs() == old(self).blobs(),
                self.budget() == old(self).budget(),
                self.policy_provider() == old(self).policy_provider(),
                old(self).used() <= old(self).budget() ==> *self == *old(self),
                old(self).in_sync() ==> self.in_sync(),
                es.len() == cs.len(),
                es.len() > 0,
                es[0] == old(self).eviction_state(),
                cs[0] == old(self).cached(),
                es.last() == self.eviction,
                cs.last() == self.cached(),
                self.byte_budget == old(self).byte_budget,
                forall|i: int| 0 <= i < es.len() - 1 ==> #[trigger] eviction_step(es, cs, old(self).byte_budget, i),
            ensures
                self.current_bytes <= self.byte_budget || !self.eviction.has_candidate(),
                self.current_bytes <= self.byte_budget || self.eviction.victim(self.current_bytes, self.byte_budget) is None,
            decreases self.eviction.pending(),
        {
            let ghost ev0 = self.eviction;
            let ghost rm0 = *self;
            proof {
                if old(self).in_sync() {
                    assert(rm0.in_sync());
                }
            }
            match self.eviction.pick_victim(self.current_bytes, self.byte_budget) {
                Some(key) => {
                    let ghost m0 = self.cached();
                    let ghost mo = old(self).cached();
                    assert(m0.submap_of(mo));
                    if let Some(victim) = cache_map_remove(&mut self.entries, key.as_str()) {
                        proof {
                            lemma_total_bytes_remove(m0, key@);
                            assert(victim.bytes@.len() == m0[key@].bytes@.len());
                        }
                        self.current_bytes = self.current_bytes.saturating_sub(victim.size());
                    } else {
                        proof {
                            assert(self.cached() =~= m0);
                        }
                    }
                    proof {
                        assert(self.cached().dom() =~= m0.dom().remove(key@));
                        if old(self).in_sync() {
                            broadcast use vstd::multiset::group_multiset_axioms;
                            assert(rm0.eviction_state().booked().count(key@) == if rm0.cached().contains_key(key@) {
                                1nat
                            } else {
                                0nat
                            });
                            assert(ev0.booked().count(key@) == 1);
                            assert(self.eviction_state().booked().count(key@) == 0);
                            assert forall|k: Seq<char>| #[trigger] self.eviction_state().booked().count(k) == if self.cached().contains_key(k) {
                                1nat
                            } else {
                                0nat
                            } by {
                                if k != key@ {
                                    assert(self.eviction_state().booked().count(k) == ev0.booked().count(k));
                                }
                            }
                        }
                        assert forall|k: Seq<char>| #[trigger] self.cached().dom().contains(k) implies old(self).cached().dom().contains(k)
                            && self.cached()[k] == old(self).cached()[k] by {
                            assert(m0.dom().contains(k));
                            assert(self.cached()[k] == m0[k]);
                            assert(mo.dom().contains(k));
                            assert(m0[k] == mo[k]);
                        }
                        assert(self.cached() =~= m0.remove(key@));
                        let es0 = es;
                        let cs0 = cs;
                        let i0 = es0.len() - 1;
                        es = es.push(self.eviction);
                        cs = cs.push(self.cached());
                        assert(total_bytes(cs0[i0]) == rm0.current_bytes);
                        assert(eviction_step(es, cs, old(self).byte_budget, i0));
                        assert forall|i: int| 0 <= i < es.len() - 1 implies #[trigger] eviction_step(es, cs, old(self).byte_budget, i) by {
                            if i < i0 {
                                assert(eviction_step(es0, cs0, old(self).byte_budget, i));
                                assert(es[i] == es0[i] && es[i + 1] == es0[i + 1] && cs[i] == cs0[i] && cs[i + 1] == cs0[i + 1]);
                            }
                        }
                    }
                },
                None => {
                    proof {
                        if old(self).in_sync() {
                            Self::lemma_sync_frame(&rm0, self);
                        }
                    }
                    break;
                },
            }
        }
        proof {
            let n = es.len() - 1;
            assert(total_bytes(cs[n]) == self.current_bytes);
            assert(eviction_run(es, cs, old(self).byte_budget));
        }
    }

    /// Replaces the byte budget, evicting while the cache exceeds it.
    pub fn with_byte_budget(self, byte_budget: usize) -> (r: Self)
        requires
            self.wf(),
        ensures
            r.wf(),
            r.budget() == byte_budget,
            r.cached().submap_of(self.cached()),
            self.used() <= byte_budget ==> r.cached() == self.cached(),
            r.blobs() == self.blobs(),
            r.policy_provider() == self.policy_provider(),
            r.used() <= r.budget() || !r.eviction_state().has_candidate(),
            self.in_sync() ==> r.in_sync(),
            exists|es: Seq<E>, cs: Seq<Map<Seq<char>, CachedEntry>>|
                #[trigger] eviction_run(es, cs, byte_budget) && es[0] == self.eviction_state() && cs[0] == self.cached()
                    && es.last() == r.eviction_state() && cs.last() == r.cached(),
    {
        let mut s = self;
        s.byte_budget = byte_budget;
        proof {
            if self.in_sync() {
                Self::lemma_sync_frame(&self, &s);
            }
        }
        s.enforce_budget();
        s
    }

    /// Registers raw bytes under a new `blob:paws/<hex>` URL and returns the
    /// URL (`URL.createObjectURL`).
    pub fn create_object_url(&mut self, bytes: Vec<u8>, mime_type: String) -> (r: String)
        requires
            old(self).wf(),
        ensures
            final(self).wf(),
            exists|id: u64| r@ == crate::blob::blob_url(id),
            !old(self).blobs().contains_key(r@),
            final(self).blobs().contains_key(r@),
            final(self).blobs()[r@].bytes@ == bytes@,
            final(self).blobs()[r@].mime_type == mime_type,
            final(self).blobs().remove(r@) == old(self).blobs(),
            final(self).cached() == old(self).cached(),
            final(self).used() == old(self).used(),
            final(self).budget() == old(self).budget(),
            final(self).eviction_state() == old(self).eviction_state(),
    {
        self.blob.create(bytes, mime_type)
    }

    /// Drops the registration of a blob URL (`URL.revokeObjectURL`).
    /// Returns whether it was live.
    pub fn revoke_object_url(&mut self, url: &str) -> (r: bool)
        requires
            old(self).wf(),
        ensures
            final(self).wf(),
            r == old(self).blobs().contains_key(url@),
            final(self).blobs() == old(self).blobs().remove(url@),
            final(self).cached() == old(self).cached(),
            final(self).used() == old(self).used(),
            final(self).budget() == old(self).budget(),
            final(self).eviction_state() == old(self).eviction_state(),
    {
        self.blob.revoke(url)
    }

    /// The live blob entry for `url`, if any.
    pub fn resolve_blob(&self, url: &str) -> (r: Option<Arc<BlobEntry>>)
        ensures
            match r {
                Some(e) => self.blobs().contains_key(url@) && *e == self.blobs()[url@],
                None => !self.blobs().contains_key(url@),
            },
    {
        self.blob.resolve(url)
    }

    /// The cached entry for `url`, if any; a hit is reported to the
    /// eviction policy as an access.
    pub fn get(&mut self, url: &str) -> (r: Option<Arc<CachedEntry>>)
        requires
            old(self).wf(),
        ensures
            final(self).wf(),
            match r {
                Some(e) => old(self).cached().contains_key(url@) && *e == old(self).cached()[url@],
                None => !old(self).cached().contains_key(url@),
            },
            final(self).cached() == old(self).cached(),
            final(self).used() == old(self).used(),
            final(self).blobs() == old(self).blobs(),
            final(self).budget() == old(self).budget(),
            final(self).policy_provider() == old(self).policy_provider(),
            r is None ==> final(self).eviction_state() == old(self).eviction_state(),
            r is Some ==> old(self).eviction_state().after_access(url@, final(self).eviction_state()),
            old(self).in_sync() ==> final(self).in_sync(),
    {
        match cache_map_get(&self.entries, url) {
            Some(entry) => {
                self.eviction.on_access(url);
                proof {
                    assert(self.eviction_state().booked() == old(self).eviction_state().booked());
                    assert(self.cached() == old(self).cached());
                }
                Some(entry)
            },
            None => None,
        }
    }

    /// Inserts a network response. The policy provider turns the headers
    /// into the entry's policy; the `ETag` and `Last-Modified` validators
    /// are taken from the headers. A prior entry for `url` is replaced, and
    /// entries are evicted while the cache exceeds its budget.
    pub fn insert_network(
        &mut self,
        url: String,
        bytes: Arc<Vec<u8>>,
        mime_type: Option<String>,
        headers: Vec<(String, String)>,
    ) -> (r: Arc<CachedEntry>)
        requires
            old(self).wf(),
            total_bytes(old(self).cached().remove(url@)) + bytes@.len() <= usize::MAX,
        ensures
            final(self).wf(),
            r.bytes@ == bytes@,
            r.mime_type == mime_type,
            r.headers@ == headers@,
            r.policy.raw_directives@ == old(self).policy_provider().directives_for(headers@),
            opt_chars(r.etag) == header_lookup(headers@, seq!['e', 't', 'a', 'g']),
            opt_chars(r.last_modified) == header_lookup(
                headers@,
                seq!['l', 'a', 's', 't', '-', 'm', 'o', 'd', 'i', 'f', 'i', 'e', 'd'],
            ),
            final(self).cached().submap_of(old(self).cached().insert(url@, *r)),
            total_bytes(old(self).cached().remove(url@)) + bytes@.len() <= old(self).budget() ==> final(self).cached()
                == old(self).cached().insert(url@, *r),
            final(self).blobs() == old(self).blobs(),
            final(self).budget() == old(self).budget(),
            final(self).policy_provider() == old(self).policy_provider(),
            final(self).used() <= final(self).budget() || !final(self).eviction_state().has_candidate(),
            old(self).in_sync() ==> final(self).in_sync(),
            exists|e1: E, e2: E, es: Seq<E>, cs: Seq<Map<Seq<char>, CachedEntry>>|
                #![trigger eviction_run(es, cs, old(self).budget() as usize), e1.after_insert(url@, r.bytes@.len() as usize, e2)]
                eviction_run(es, cs, old(self).budget() as usize) && (if old(self).cached().contains_key(url@) {
                    old(self).eviction_state().after_remove(url@, e1)
                } else {
                    e1 == old(self).eviction_state()
                }) && e1.after_insert(url@, r.bytes@.len() as usize, e2) && es[0] == e2 && cs[0] == old(self).cached().insert(
                    url@,
                    *r,
                ) && es.last() == final(self).eviction_state() && cs.last() == final(self).cached(),
    {
        let now = instant_now();
        let policy = self.policy.parse_response(headers.as_slice());
        let etag = header_value(headers.as_slice(), "etag");
        let last_modified = header_value(headers.as_slice(), "last-modified");
        proof {
            reveal_strlit("etag");
            reveal_strlit("last-modified");
            assert("etag"@ =~= seq!['e', 't', 'a', 'g']);
            assert("last-modified"@ =~= seq!['l', 'a', 's', 't', '-', 'm', 'o', 'd', 'i', 'f', 'i', 'e', 'd']);
        }
        let size = bytes.len();
        let fresh = CachedEntry { bytes, mime_type, headers, policy, inserted_at: now, etag, last_modified };
        let ghost ev: CachedEntry = fresh;
        let entry = Arc::new(fresh);
        let ghost m0 = self.cached();
        if let Some(prior) = cache_map_remove(&mut self.entries, url.as_str()) {
            proof {
                lemma_total_bytes_remove(m0, url@);
            }
            self.current_bytes = self.current_bytes.saturating_sub(prior.size());
            self.eviction.on_remove(url.as_str());
        } else {
            proof {
                assert(m0.remove(url@) =~= m0);
            }
        }
        proof {
            assert(self.cached() =~= m0.remove(url@));
            assert(self.current_bytes == total_bytes(m0.remove(url@)));
        }
        let ghost e1 = self.eviction;
        cache_map_insert(&mut self.entries, url.clone(), arc_clone(&entry));
        self.eviction.on_insert(url.as_str(), size);
        let ghost e2 = self.eviction;
        proof {
            lemma_total_bytes_insert(m0.remove(url@), url@, ev);
            assert(m0.remove(url@).insert(url@, ev) =~= m0.insert(url@, ev));
            assert(m0.remove(url@).remove(url@) =~= m0.remove(url@));
        }
        self.current_bytes = self.current_bytes + size;
        proof {
            broadcast use vstd::multiset::group_multiset_axioms;
            if old(self).in_sync() {
                assert forall|k: Seq<char>| #[trigger] self.eviction_state().booked().count(k) == if self.cached().contains_key(k) {
                    1nat
                } else {
                    0nat
                } by {
                    assert(old(self).eviction_state().booked().count(k) == if old(self).cached().contains_key(k) {
                        1nat
                    } else {
                        0nat
                    });
                }
            }
        }
        let ghost c1 = self.cached();
        self.enforce_budget();
        proof {
            assert(c1 == old(self).cached().insert(url@, *entry));
            let (es, cs) = choose|es: Seq<E>, cs: Seq<Map<Seq<char>, CachedEntry>>|
                #[trigger] eviction_run(es, cs, old(self).byte_budget) && es[0] == e2 && cs[0] == c1
                    && es.last() == self.eviction_state() && cs.last() == self.cached();
            assert(old(self).budget() as usize == old(self).byte_budget);
            assert(eviction_run(es, cs, old(self).budget() as usize) && (if old(self).cached().contains_key(url@) {
                old(self).eviction_state().after_remove(url@, e1)
            } else {
                e1 == old(self).eviction_state()
            }) && e1.after_insert(url@, entry.bytes@.len() as usize, e2) && es[0] == e2 && cs[0] == old(self).cached().insert(
                url@,
                *entry,
            ) && es.last() == self.eviction_state() && cs.last() == self.cached());
        }
        entry
    }

    /// Removes the entry for `url`, if any.
    pub fn invalidate(&mut self, url: &str)
        requires
            old(self).wf(),
        ensures
            final(self).wf(),
            final(self).cached() == old(self).cached().remove(url@),
            final(self).blobs() == old(self).blobs(),
            final(self).budget() == old(self).budget(),
            final(self).used() <= old(self).used(),
            final(self).policy_provider() == old(self).policy_provider(),
            old(self).in_sync() ==> final(self).in_sync(),
    {
        let ghost m0 = self.cached();
        if let Some(prior) = cache_map_remove(&mut self.entries, url) {
            proof {
                lemma_total_bytes_remove(m0, url@);
            }
            self.current_bytes = self.current_bytes.saturating_sub(prior.size());
            self.eviction.on_remove(url);
        } else {
            proof {
                assert(m0.remove(url@) =~= m0);
            }
        }
        proof {
            broadcast use vstd::multiset::group_multiset_axioms;
            if old(self).in_sync() {
                assert forall|k: Seq<char>| #[trigger] self.eviction_state().booked().count(k) == if self.cached().contains_key(k) {
                    1nat
                } else {
                    0nat
                } by {
                    assert(old(self).eviction_state().booked().count(k) == if old(self).cached().contains_key(k) {
                        1nat
                    } else {
                        0nat
                    });
                }
            }
        }
    }

    /// Drops every network entry (the blob registry is untouched).
    pub fn clear(&mut self)
        requires
            old(self).wf(),
        ensures
            final(self).wf(),
            final(self).cached().dom().is_empty(),
            final(self).used() == 0,
            final(self).blobs() == old(self).blobs(),
            final(self).budget() == old(self).budget(),
            final(self).policy_provider() == old(self).policy_provider(),
            old(self).in_sync() ==> final(self).in_sync(),
    {
        let keys = cache_map_keys(&self.entries);
        let mut i: usize = 0;
        while i < keys.len()
            invariant
                i <= keys@.len(),
                self.wf(),
                self.cached() == old(self).cached(),
                self.blobs() == old(self).blobs(),
                self.budget() == old(self).budget(),
                self.policy_provider() == old(self).policy_provider(),
                old(self).in_sync() ==> forall|k: Seq<char>| #[trigger] self.eviction_state().booked().count(k) == if self.cached().contains_key(k)
                    && !(exists|j: int| 0 <= j < i && #[trigger] keys@[j]@ == k) {
                    1nat
                } else {
                    0nat
                },
            decreases keys@.len() - i,
        {
            let ghost b0 = self.eviction_state().booked();
            self.eviction.on_remove(keys[i].as_str());
            proof {
                broadcast use vstd::multiset::group_multiset_axioms;
                if old(self).in_sync() {
                    let ki = keys@[i as int]@;
                    assert forall|k: Seq<char>| #[trigger] self.eviction_state().booked().count(k) == if self.cached().contains_key(k)
                        && !(exists|j: int| 0 <= j < i + 1 && #[trigger] keys@[j]@ == k) {
                        1nat
                    } else {
                        0nat
                    } by {
                        if k == ki {
                            assert(keys@[i as int]@ == k);
                        } else {
                            assert(self.eviction_state().booked().count(k) == b0.count(k));
                            if exists|j: int| 0 <= j < i + 1 && #[trigger] keys@[j]@ == k {
                                let j = choose|j: int| 0 <= j < i + 1 && #[trigger] keys@[j]@ == k;
                                assert(j < i);
                            }
                        }
                    }
                }
            }
            i = i + 1;
        }
        proof {
            if old(self).in_sync() {
                assert forall|k: Seq<char>| #[trigger] self.eviction_state().booked().count(k) == 0 by {
                    if self.cached().contains_key(k) {
                        let j = choose|j: int| 0 <= j < keys@.len() && #[trigger] keys@[j]@ == k;
                        assert(keys@[j]@ == k);
                    }
                }
            }
        }
        let ghost b_end = self.eviction_state().booked();
        cache_map_clear(&mut self.entries);
        self.current_bytes = 0;
        proof {
            assert(self.cached().len() == 0);
            if old(self).in_sync() {
                assert forall|k: Seq<char>| #[trigger] self.eviction_state().booked().count(k) == if self.cached().contains_key(k) {
                    1nat
                } else {
                    0nat
                } by {
                    assert(b_end.count(k) == 0);
                }
            }
        }
    }

    /// With LRU eviction, the cache is settled: its bytes are accounted for
    /// exactly, its eviction order holds each cached URL once and nothing
    /// else, and it is within its byte budget.
    pub open spec fn lru_settled(rm: &ResourceManager<P, LruBytesEviction>) -> bool {
        &&& rm.wf()
        &&& rm.in_sync()
        &&& rm.used() <= rm.budget()
    }

    /// Every operation keeps an LRU cache settled. A manager made by
    /// `with_parts` over a fresh LRU order is settled (its contract gives an
    /// accounted, in-sync, empty cache), and any call of `insert_network`,
    /// `get`, `invalidate`, `clear` or `with_byte_budget` on a settled cache
    /// leaves it settled: each of their contracts gives the premises below.
    pub proof fn lemma_lru_settled_step(before: &ResourceManager<P, LruBytesEviction>, after: &ResourceManager<P, LruBytesEviction>)
        requires
            Self::lru_settled(before),
            after.wf(),
            after.in_sync(),
            (after.used() <= before.used() && after.budget() == before.budget()) || after.used() <= after.budget()
                || !after.eviction_state().has_candidate(),
        ensures
            Self::lru_settled(after),
    {
        if !(after.used() <= before.used() && after.budget() == before.budget()) {
            Self::lemma_lru_within_budget(after);
        }
    }

    /// With LRU eviction, a cache whose eviction order holds exactly its
    /// URLs, each once, and that ended its evictions (within budget, or
    /// with no candidate left) is within its byte budget: an LRU order runs
    /// out of candidates only once the cache is empty.
    pub proof fn lemma_lru_within_budget(rm: &ResourceManager<P, LruBytesEviction>)
        requires
            rm.wf(),
            rm.in_sync(),
            rm.used() <= rm.budget() || !rm.eviction_state().has_candidate(),
        ensures
            rm.used() <= rm.budget(),
            rm.used() > rm.budget() ==> false,
    {
        if !rm.eviction_state().has_candidate() {
            rm.eviction_state().lemma_no_candidate();
            assert forall|k: Seq<char>| !rm.cached().contains_key(k) by {
                assert(rm.eviction_state().booked().count(k) == 0);
            }
            assert(rm.cached().dom() =~= Set::<Seq<char>>::empty());
            assert(rm.cached().len() == 0);
        }
    }

    /// Number of cached network entries.
    pub fn len(&self) -> (r: usize)
        ensures
            r == self.cached().len(),
    {
        cache_map_len(&self.entries)
    }

    /// Whether the network cache is empty (blobs are not counted).
    pub fn is_empty(&self) -> (r: bool)
        ensures
            r == (self.cached().len() == 0),
    {
        cache_map_len(&self.entries) == 0
    }

    /// Bytes currently cached across all network entries.
    pub fn current_bytes(&self) -> (r: usize)
        ensures
            r == self.used(),
    {
        self.current_bytes
    }

    /// The configured byte budget.
    pub fn byte_budget(&self) -> (r: usize)
        ensures
            r == self.budget(),
    {
        self.byte_budget
    }

    /// The freshness of the entry for `url`: `Missing` on a miss, without
    /// consulting the provider; on a hit, the provider's verdict.
    pub fn freshness(&self, url: &str) -> (r: Freshness)
        requires
            self.cached().contains_key(url@) ==> self.policy_provider().evaluates(),
        ensures
            !self.cached().contains_key(url@) ==> r == Freshness::Missing,
            self.cached().contains_key(url@) ==> exists|now: std::time::Instant| r == self.policy_provider().verdict(self.cached()[url@], now),
    {
        match cache_map_get(&self.entries, url) {
            Some(entry) => {
                let now = instant_now();
                let r = self.policy.evaluate(&*entry, now);
                proof {
                    assert(r == self.policy_provider().verdict(self.cached()[url@], now));
                }
                r
            },
            None => Freshness::Missing,
        }
    }

    /// Conditional-revalidation headers for the entry at `url`: empty on a
    /// miss; on a hit, the provider's.
    pub fn conditional_headers(&self, url: &str) -> (r: Vec<(String, String)>)
        ensures
            !self.cached().contains_key(url@) ==> r@.len() == 0,
            self.cached().contains_key(url@) ==> r@ == self.policy_provider().revalidation(self.cached()[url@]),
    {
        match cache_map_get(&self.entries, url) {
            Some(entry) => self.policy.conditional_headers(&*entry),
            None => Vec::new(),
        }
    }

    /// The bytes behind `url`: a live blob for a `blob:paws/` URL, else the
    /// cached network body, if any. Does not count as an access.
    pub fn resolve(&self, url: &str) -> (r: Option<Arc<Vec<u8>>>)
        ensures
            blob_prefix().is_prefix_of(url@) ==> match r {
                Some(b) => self.blobs().contains_key(url@) && b@ == self.blobs()[url@].bytes@,
                None => !self.blobs().contains_key(url@),
            },
            !blob_prefix().is_prefix_of(url@) ==> match r {
                Some(b) => self.cached().contains_key(url@) && b@ == self.cached()[url@].bytes@,
                None => !self.cached().contains_key(url@),
            },
    {
        if has_blob_prefix(url) {
            return match self.blob.resolve(url) {
                Some(e) => Some(arc_clone(&e.bytes)),
                None => None,
            };
        }
        match cache_map_get(&self.entries, url) {
            Some(e) => Some(arc_clone(&e.bytes)),
            None => None,
        }
    }
}

} // verus!

verus! {

/// After `i` steps of an LRU eviction run that started from order `o` and
/// cache `c0`, the order has lost its first `i` keys and the cache the
/// entries under them.
proof fn lemma_lru_run_at(
    es: Seq<LruBytesEviction>,
    cs: Seq<Map<Seq<char>, CachedEntry>>,
    budget: usize,
    o: Seq<Seq<char>>,
    c0: Map<Seq<char>, CachedEntry>,
    i: int,
)
    requires
        eviction_run(es, cs, budget),
        es[0]@ == o,
        cs[0] == c0,
        0 <= i < es.len(),
    ensures
        i <= o.len(),
        es[i]@ == o.skip(i),
        forall|k: Seq<char>| #[trigger] cs[i].contains_key(k) == (c0.contains_key(k) && !o.take(i).contains(k)),
        forall|k: Seq<char>| #[trigger] cs[i].contains_key(k) ==> cs[i][k] == c0[k],
    decreases i,
{
    if i == 0 {
        assert(o.skip(0) =~= o);
        assert(o.take(0) =~= Seq::<Seq<char>>::empty());
    } else {
        lemma_lru_run_at(es, cs, budget, o, c0, i - 1);
        assert(eviction_step(es, cs, budget, i - 1));
        let cur = total_bytes(cs[i - 1]);
        assert(es[i - 1].victim(cur as usize, budget) is Some);
        assert(es[i - 1]@.len() > 0);
        assert(es[i - 1]@[0] == o[i - 1]);
        assert(es[i]@ =~= o.skip(i));
        assert(o.take(i) =~= o.take(i - 1).push(o[i - 1]));
        assert forall|k: Seq<char>| #[trigger] cs[i].contains_key(k) == (c0.contains_key(k) && !o.take(i).contains(k)) by {
            let ta = o.take(i);
            let tb = o.take(i - 1);
            assert(ta.contains(k) == (tb.contains(k) || k == o[i - 1])) by {
                if ta.contains(k) && k != o[i - 1] {
                    let j = choose|j: int| 0 <= j < ta.len() && ta[j] == k;
                    assert(tb[j] == k);
                }
                if tb.contains(k) {
                    let j = choose|j: int| 0 <= j < tb.len() && tb[j] == k;
                    assert(ta[j] == k);
                }
                if k == o[i - 1] {
                    assert(ta[i - 1] == k);
                }
            }
        }
    }
}

impl<P: CachePolicyProvider> ResourceManager<P, LruBytesEviction> {
    /// With LRU eviction, an insert into an in-sync cache keeps the entry it
    /// inserted whenever that entry alone fits the budget: the new URL goes
    /// to the back of the order, so it could only be picked once every other
    /// entry had gone, and by then the cache is within budget.
    pub proof fn lemma_lru_keeps_new_entry(
        before: &ResourceManager<P, LruBytesEviction>,
        after: &ResourceManager<P, LruBytesEviction>,
        url: Seq<char>,
        entry: CachedEntry,
    )
        requires
            before.wf(),
            before.in_sync(),
            entry.bytes@.len() <= before.budget(),
            exists|e1: LruBytesEviction, e2: LruBytesEviction, es: Seq<LruBytesEviction>, cs: Seq<Map<Seq<char>, CachedEntry>>|
                #![trigger eviction_run(es, cs, before.budget() as usize), e1.after_insert(url, entry.bytes@.len() as usize, e2)]
                eviction_run(es, cs, before.budget() as usize) && (if before.cached().contains_key(url) {
                    before.eviction_state().after_remove(url, e1)
                } else {
                    e1 == before.eviction_state()
                }) && e1.after_insert(url, entry.bytes@.len() as usize, e2) && es[0] == e2 && cs[0] == before.cached().insert(
                    url,
                    entry,
                ) && es.last() == after.eviction_state() && cs.last() == after.cached(),
        ensures
            after.cached().contains_key(url),
            after.cached()[url] == entry,
    {
        broadcast use vstd::multiset::group_multiset_axioms;
        let budget = before.budget() as usize;
        let (e1, e2, es, cs) = choose|e1: LruBytesEviction, e2: LruBytesEviction, es: Seq<LruBytesEviction>, cs: Seq<Map<Seq<char>, CachedEntry>>|
            #![trigger eviction_run(es, cs, before.budget() as usize), e1.after_insert(url, entry.bytes@.len() as usize, e2)]
            eviction_run(es, cs, before.budget() as usize) && (if before.cached().contains_key(url) {
                before.eviction_state().after_remove(url, e1)
            } else {
                e1 == before.eviction_state()
            }) && e1.after_insert(url, entry.bytes@.len() as usize, e2) && es[0] == e2 && cs[0] == before.cached().insert(
                url,
                entry,
            ) && es.last() == after.eviction_state() && cs.last() == after.cached();
        let o0 = before.eviction_state()@;
        let c0 = before.cached().insert(url, entry);
        let o1 = e1@;
        let o = e2@;
        assert(o == o1.push(url));
        // Every key of the old order is a cached URL, once.
        assert forall|k: Seq<char>| #[trigger] o0.to_multiset().count(k) == if before.cached().contains_key(k) {
            1nat
        } else {
            0nat
        } by {
            assert(before.eviction_state().booked().count(k) == if before.cached().contains_key(k) {
                1nat
            } else {
                0nat
            });
        }
        // The order before the insert holds every other cached URL, once,
        // and not `url`.
        assert forall|k: Seq<char>| #[trigger] o1.to_multiset().count(k) == if before.cached().contains_key(k) && k != url {
            1nat
        } else {
            0nat
        } by {
            assert(o0.to_multiset().count(k) == if before.cached().contains_key(k) { 1nat } else { 0nat });
            if before.cached().contains_key(url) {
                LruBytesEviction::lemma_first_index_bound(o0, url);
                vstd::seq_lib::to_multiset_contains(o0, url);
                assert(o0.to_multiset().count(url) > 0);
                assert(o0.contains(url));
                assert(first_index(o0, url) < o0.len());
                vstd::seq_lib::to_multiset_remove(o0, first_index(o0, url));
                assert(o1 == o0.remove(first_index(o0, url)));
            }
        }
        assert forall|k: Seq<char>| #[trigger] o1.contains(k) == (before.cached().contains_key(k) && k != url) by {
            vstd::seq_lib::to_multiset_contains(o1, k);
        }
        // The run never reaches `url`.
        let n = es.len() - 1;
        lemma_lru_run_at(es, cs, budget, o, c0, n);
        if n > o1.len() {
            let i = o1.len() as int;
            lemma_lru_run_at(es, cs, budget, o, c0, i);
            assert(o.take(i) =~= o1);
            assert(eviction_step(es, cs, budget, i));
            assert(cs[i].dom() =~= set![url]) by {
                assert forall|k: Seq<char>| cs[i].dom().contains(k) <==> k == url by {
                    if k == url {
                        assert(!o1.contains(url));
                        assert(c0.contains_key(url));
                    }
                }
            }
            assert(cs[i][url] == entry);
            assert(cs[i].dom().finite());
            lemma_total_bytes_remove(cs[i], url);
            assert(cs[i].remove(url).dom() =~= Set::<Seq<char>>::empty());
            assert(cs[i].remove(url).len() == 0);
            assert(total_bytes(cs[i]) == entry.bytes@.len());
            assert(false);
        }
        let tn = o.take(n);
        assert(!tn.contains(url)) by {
            if tn.contains(url) {
                let j = choose|j: int| 0 <= j < tn.len() && tn[j] == url;
                assert(o[j] == url);
                assert(j < o1.len());
                assert(o1[j] == url);
                assert(o1.contains(url));
            }
        }
    }
}

} // verus!
