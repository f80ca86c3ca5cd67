//! Network response cache entries, the cache-policy hand-off to the host,
//! and LRU-by-bytes eviction.

use std::collections::VecDeque;
use std::sync::Arc;
use std::time::Instant;
use vstd::prelude::*;
use crate::text::str_eq;
use vstd::multiset::Multiset;
use vstd::seq_lib::{to_multiset_build, to_multiset_contains, to_multiset_remove};

verus! {

#[verifier::external_type_specification]
#[verifier::external_body]
pub struct ExInstant(std::time::Instant);

/// Calls `Instant::now`. Nothing is stated of the instant it reads.
#[verifier::external_body]
pub(crate) fn instant_now() -> (t: Instant) {
    Instant::now()
}

/// Opaque policy stored alongside a cache entry: the raw directives a
/// policy provider chose to keep.
#[derive(Debug, Clone)]
pub struct CachePolicy {
    pub raw_directives: Vec<(String, String)>,
}

impl Default for CachePolicy {
    fn default() -> (r: Self)
        ensures
            r.raw_directives@.len() == 0,
    {
        CachePolicy { raw_directives: Vec::new() }
    }
}

/// Freshness classification of a cache entry.
#[derive(Debug, Clone, Copy, PartialEq, Eq)]
pub enum Freshness {
    /// Within its freshness window: serve without revalidation.
    Fresh,
    /// Stale but within a `stale-while-revalidate` tolerance.
    StaleRevalidatable,
    /// Past every freshness window: revalidate before serving.
    Stale,
    /// Not in the cache.
    Missing,
}

/// A single cache entry: the response body, its headers verbatim, the
/// provider's policy, the insertion time and the validators found in the
/// headers.
pub struct CachedEntry {
    pub bytes: Arc<Vec<u8>>,
    /// Content type if known; `None` means unknown.
    pub mime_type: Option<String>,
    pub headers: Vec<(String, String)>,
    pub policy: CachePolicy,
    pub inserted_at: Instant,
    /// The `ETag` validator, if any.
    pub etag: Option<String>,
    /// The `Last-Modified` validator, if any.
    pub last_modified: Option<String>,
}

impl CachedEntry {
    /// Size of the entry for eviction accounting: the body length.
    pub fn size(&self) -> (r: usize)
        ensures
            r == self.bytes@.len(),
    {
        self.bytes.len()
    }
}

/// Host-injected cache policy. The host parses response headers into a
/// [`CachePolicy`], judges freshness and produces revalidation headers;
/// the engine parses no caching header itself.
pub trait CachePolicyProvider {
    /// Whether this provider answers freshness questions at all; a provider
    /// does unless it says otherwise.
    open spec fn evaluates(&self) -> bool {
        true
    }

    /// The directives the provider keeps from `headers`. A verified provider
    /// defines it; the default is left unknown.
    open spec fn directives_for(&self, headers: Seq<(String, String)>) -> Seq<(String, String)> {
        arbitrary()
    }

    /// Parses response headers into the policy stored on the entry.
    fn parse_response(&self, headers: &[(String, String)]) -> (r: CachePolicy)
        ensures
            r.raw_directives@ == self.directives_for(headers@),
    ;

    /// The provider's freshness verdict on `entry` at `now`. A verified
    /// provider defines it; the default is left unknown.
    open spec fn verdict(&self, entry: CachedEntry, now: Instant) -> Freshness {
        arbitrary()
    }

    /// The provider's revalidation headers for `entry`. A verified provider
    /// defines it; the default is left unknown.
    open spec fn revalidation(&self, entry: CachedEntry) -> Seq<(String, String)> {
        arbitrary()
    }

    /// Whether `entry` is still usable at `now`.
    fn evaluate(&self, entry: &CachedEntry, now: Instant) -> (r: Freshness)
        requires
            self.evaluates(),
        ensures
            r == self.verdict(*entry, now),
    ;

    /// Conditional-revalidation headers (`If-None-Match`,
    /// `If-Modified-Since`) for `entry`; empty when not applicable.
    fn conditional_headers(&self, entry: &CachedEntry) -> (r: Vec<(String, String)>)
        ensures
            r@ == self.revalidation(*entry),
    ;
}

/// The default provider: keeps no policy, offers no revalidation headers,
/// and answers no freshness question.
impl CachePolicyProvider for () {
    open spec fn evaluates(&self) -> bool {
        false
    }

    open spec fn verdict(&self, entry: CachedEntry, now: Instant) -> Freshness {
        Freshness::Missing
    }

    open spec fn directives_for(&self, headers: Seq<(String, String)>) -> Seq<(String, String)> {
        Seq::empty()
    }

    open spec fn revalidation(&self, entry: CachedEntry) -> Seq<(String, String)> {
        Seq::empty()
    }

    fn parse_response(&self, headers: &[(String, String)]) -> (r: CachePolicy) {
        let r = CachePolicy::default();
        proof {
            assert(r.raw_directives@ =~= Seq::<(String, String)>::empty());
        }
        r
    }

    /// Never called: this provider does not evaluate, so no caller meets
    /// the precondition.
    fn evaluate(&self, entry: &CachedEntry, now: Instant) -> Freshness {
        Freshness::Missing
    }

    fn conditional_headers(&self, entry: &CachedEntry) -> (r: Vec<(String, String)>) {
        let r = Vec::new();
        proof {
            assert(r@ =~= Seq::<(String, String)>::empty());
        }
        r
    }
}

/// Host-injected eviction policy, told of every insert, access and removal
/// and asked for victims while the cache is over budget.
pub trait EvictionPolicy: Sized {
    /// How many more victims the policy can still name; each victim it
    /// names lowers this, so eviction ends.
    spec fn pending(&self) -> nat;

    /// The keys the policy keeps book of, each as often as it was told of
    /// it and not yet told of its removal.
    spec fn booked(&self) -> Multiset<Seq<char>>;

    /// Whether the policy has a candidate to name as the next victim.
    spec fn has_candidate(&self) -> bool;

    /// The victim the policy names for a cache holding `current_bytes`
    /// against `budget`, when it names one.
    spec fn victim(&self, current_bytes: usize, budget: usize) -> Option<Seq<char>>;

    /// `next` is the policy after naming its victim.
    spec fn after_pick(&self, current_bytes: usize, budget: usize, next: Self) -> bool;

    /// `next` is the policy after being told of an insert.
    spec fn after_insert(&self, key: Seq<char>, size: usize, next: Self) -> bool;

    /// `next` is the policy after being told of an access.
    spec fn after_access(&self, key: Seq<char>, next: Self) -> bool;

    /// `next` is the policy after being told of a removal.
    spec fn after_remove(&self, key: Seq<char>, next: Self) -> bool;

    /// A new entry of `size` bytes was inserted under `key`.
    fn on_insert(&mut self, key: &str, size: usize)
        ensures
            final(self).booked() == old(self).booked().insert(key@),
            old(self).after_insert(key@, size, *final(self)),
    ;

    /// The entry under `key` was read.
    fn on_access(&mut self, key: &str)
        ensures
            final(self).booked() == old(self).booked(),
            old(self).after_access(key@, *final(self)),
    ;

    /// The entry under `key` was removed.
    fn on_remove(&mut self, key: &str)
        ensures
            final(self).booked() == old(self).booked().remove(key@),
            old(self).after_remove(key@, *final(self)),
    ;

    /// The next entry to evict, dropped from the policy's books, or `None`
    /// (with the policy left as it was) when there is no candidate left.
    fn pick_victim(&mut self, current_bytes: usize, budget: usize) -> (r: Option<String>)
        ensures
            r is Some <==> old(self).has_candidate(),
            opt_key(r) == old(self).victim(current_bytes, budget),
            r is Some ==> final(self).pending() < old(self).pending() && old(self).after_pick(current_bytes, budget, *final(self)),
            r matches Some(k) ==> old(self).booked().count(k@) > 0 && final(self).booked() == old(self).booked().remove(k@),
            r is None ==> !final(self).has_candidate() && *final(self) == *old(self),
    ;
}

/// The characters of an optional key.
pub open spec fn opt_key(o: Option<String>) -> Option<Seq<char>> {
    match o {
        Some(k) => Some(k@),
        None => None,
    }
}

/// The index of the first occurrence of `k` in `s`, or `s.len()` when there
/// is none.
pub open spec fn first_index(s: Seq<Seq<char>>, k: Seq<char>) -> int
    decreases s.len(),
{
    if s.len() == 0 {
        0
    } else if s[0] == k {
        0
    } else {
        1 + first_index(s.drop_first(), k)
    }
}

/// `s` with the first occurrence of `k` (if any) removed.
pub open spec fn without_first(s: Seq<Seq<char>>, k: Seq<char>) -> Seq<Seq<char>> {
    if first_index(s, k) < s.len() {
        s.remove(first_index(s, k))
    } else {
        s
    }
}

/// LRU-by-bytes eviction: keys in access order, least recently used first;
/// the victim is always the front key.
pub struct LruBytesEviction {
    order: VecDeque<String>,
}

impl View for LruBytesEviction {
    type V = Seq<Seq<char>>;

    closed spec fn view(&self) -> Seq<Seq<char>> {
        self.order@.map_values(|s: String| s@)
    }
}

impl LruBytesEviction {
    pub fn new() -> (r: Self)
        ensures
            r@ == Seq::<Seq<char>>::empty(),
    {
        let r = LruBytesEviction { order: VecDeque::new() };
        proof {
            assert(r@ =~= Seq::<Seq<char>>::empty());
        }
        r
    }

    /// The position of the first key equal to `key`, if any.
    fn position(&self, key: &str) -> (r: Option<usize>)
        ensures
            match r {
                Some(i) => i == first_index(self@, key@) && i < self@.len(),
                None => first_index(self@, key@) == self@.len(),
            },
    {
        let ghost s = self@;
        let mut i: usize = 0;
        proof {
            assert(s.skip(0) =~= s);
        }
        while i < self.order.len()
            invariant
                s == self@,
                i <= s.len(),
                first_index(s, key@) == i + first_index(s.skip(i as int), key@),
            decreases s.len() - i,
        {
            proof {
                assert(s.skip(i as int)[0] == s[i as int]);
                assert(s.skip(i as int).drop_first() =~= s.skip(i + 1));
                assert(self.order@[i as int]@ == s[i as int]);
            }
            if str_eq(self.order[i].as_str(), key) {
                return Some(i);
            }
            i = i + 1;
        }
        proof {
            assert(s.skip(i as int).len() == 0);
        }
        None
    }

    pub proof fn lemma_first_index_bound(s: Seq<Seq<char>>, k: Seq<char>)
        ensures
            0 <= first_index(s, k) <= s.len(),
            first_index(s, k) < s.len() ==> s[first_index(s, k)] == k,
            first_index(s, k) == s.len() ==> !s.contains(k),
        decreases s.len(),
    {
        if s.len() > 0 && s[0] != k {
            Self::lemma_first_index_bound(s.drop_first(), k);
            if first_index(s, k) == s.len() && s.contains(k) {
                let i = choose|i: int| 0 <= i < s.len() && s[i] == k;
                assert(s.drop_first()[i - 1] == k);
            }
        }
    }

    /// An LRU order with no key left keeps book of nothing.
    pub proof fn lemma_no_candidate(&self)
        requires
            !self.has_candidate(),
        ensures
            forall|k: Seq<char>| #[trigger] self.booked().count(k) == 0,
    {
        broadcast use vstd::seq_lib::group_to_multiset_ensures;
        assert(self@ =~= Seq::<Seq<char>>::empty());
        assert forall|k: Seq<char>| #[trigger] self.booked().count(k) == 0 by {
            assert(!self@.contains(k));
        }
    }
}

impl Default for LruBytesEviction {
    fn default() -> (r: Self)
        ensures
            r@ == Seq::<Seq<char>>::empty(),
    {
        Self::new()
    }
}

impl EvictionPolicy for LruBytesEviction {
    open spec fn pending(&self) -> nat {
        self@.len()
    }

    open spec fn booked(&self) -> Multiset<Seq<char>> {
        self@.to_multiset()
    }

    open spec fn has_candidate(&self) -> bool {
        self@.len() > 0
    }

    /// The least recently used key.
    open spec fn victim(&self, current_bytes: usize, budget: usize) -> Option<Seq<char>> {
        if self@.len() > 0 { Some(self@[0]) } else { None }
    }

    open spec fn after_pick(&self, current_bytes: usize, budget: usize, next: Self) -> bool {
        next@ == self@.drop_first()
    }

    open spec fn after_insert(&self, key: Seq<char>, size: usize, next: Self) -> bool {
        next@ == self@.push(key)
    }

    open spec fn after_access(&self, key: Seq<char>, next: Self) -> bool {
        next@ == if first_index(self@, key) < self@.len() {
            without_first(self@, key).push(key)
        } else {
            self@
        }
    }

    open spec fn after_remove(&self, key: Seq<char>, next: Self) -> bool {
        next@ == without_first(self@, key)
    }

    /// Appends `key` as the most recently used.
    fn on_insert(&mut self, key: &str, size: usize)
        ensures
            final(self)@ == old(self)@.push(key@),
    {
        self.order.push_back(key.to_owned());
        proof {
            assert(self@ =~= old(self)@.push(key@));
            to_multiset_build(old(self)@, key@);
        }
    }

    /// Moves the first occurrence of `key` to the back (most recently used).
    fn on_access(&mut self, key: &str)
        ensures
            final(self)@ == if first_index(old(self)@, key@) < old(self)@.len() {
                without_first(old(self)@, key@).push(key@)
            } else {
                old(self)@
            },
    {
        proof {
            Self::lemma_first_index_bound(self@, key@);
        }
        if let Some(pos) = self.position(key) {
            let ghost s0 = self.order@;
            if let Some(k) = self.order.remove(pos) {
                proof {
                    assert(self.order@ == s0.remove(pos as int));
                }
                self.order.push_back(k);
                proof {
                    assert(self@ =~= old(self)@.remove(pos as int).push(key@));
                    to_multiset_remove(old(self)@, pos as int);
                    to_multiset_build(old(self)@.remove(pos as int), key@);
                    to_multiset_contains(old(self)@, key@);
                    assert(old(self)@.contains(key@));
                    assert(self.booked() =~= old(self).booked());
                }
            }
        }
    }

    /// Forgets the first occurrence of `key`.
    fn on_remove(&mut self, key: &str)
        ensures
            final(self)@ == without_first(old(self)@, key@),
    {
        proof {
            Self::lemma_first_index_bound(self@, key@);
        }
        if let Some(pos) = self.position(key) {
            let _ = self.order.remove(pos);
            proof {
                assert(self@ =~= old(self)@.remove(pos as int));
                to_multiset_remove(old(self)@, pos as int);
            }
        } else {
            proof {
                to_multiset_contains(old(self)@, key@);
                assert(old(self).booked().count(key@) == 0);
                assert(old(self).booked().remove(key@) =~= old(self).booked());
            }
        }
    }

    /// The least recently used key, removed from the order.
    fn pick_victim(&mut self, current_bytes: usize, budget: usize) -> (r: Option<String>)
        ensures
            old(self)@.len() > 0 ==> (r matches Some(k) && k@ == old(self)@[0] && final(self)@ == old(self)@.drop_first()),
            old(self)@.len() == 0 ==> r is None && final(self)@ == old(self)@,
    {
        if self.order.len() == 0 {
            return None;
        }
        let r = self.order.pop_front();
        proof {
            assert(self@ =~= old(self)@.drop_first() || old(self)@.len() == 0);
            if old(self)@.len() > 0 {
                assert(old(self)@.drop_first() =~= old(self)@.remove(0));
                to_multiset_remove(old(self)@, 0);
                to_multiset_contains(old(self)@, old(self)@[0]);
                assert(old(self)@.contains(old(self)@[0]));
            }
        }
        r
    }
}

} // verus!
