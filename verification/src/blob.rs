//! Blob-URL registry: `URL.createObjectURL` / `URL.revokeObjectURL`.
//!
//! A guest hands over bytes and a MIME type and gets back a fresh
//! `blob:paws/<16 hex digits>` URL, which resolves until it is revoked.

use std::sync::Arc;
use std::time::SystemTime;
use fnv::FnvHashMap;
use vstd::prelude::*;
use crate::hashing::{
    blob_entries, blob_map_contains, blob_map_get, blob_map_insert, blob_map_len, blob_map_new,
    blob_map_remove,
};
use crate::text::string_from_chars;

verus! {

#[verifier::external_type_specification]
#[verifier::external_body]
pub struct ExSystemTime(std::time::SystemTime);

/// Calls `SystemTime::now`. Nothing is stated of the time it reads.
#[verifier::external_body]
fn system_time_now() -> (t: SystemTime) {
    SystemTime::now()
}

/// Calls `SystemTime::duration_since(UNIX_EPOCH)`: the time elapsed since
/// the Unix epoch, `None` for a clock set before it. Nothing is stated of
/// the value.
#[verifier::external_body]
fn since_unix_epoch(t: &SystemTime) -> (r: Option<std::time::Duration>) {
    match t.duration_since(std::time::UNIX_EPOCH) {
        Ok(d) => Some(d),
        Err(_) => None,
    }
}

/// Calls `Duration::as_nanos`. Nothing is stated of the value.
#[verifier::external_body]
fn duration_nanos(d: &std::time::Duration) -> (r: u128) {
    d.as_nanos()
}

/// A blob behind a `blob:paws/*` URL: the guest's bytes and MIME type.
pub struct BlobEntry {
    pub bytes: Arc<Vec<u8>>,
    pub mime_type: String,
}

/// One step of the xorshift64 generator.
pub open spec fn xorshift(x: u64) -> u64 {
    let x1 = x ^ (x << 13u64);
    let x2 = x1 ^ (x1 >> 7u64);
    x2 ^ (x2 << 17u64)
}

/// The id minted from generator state `x` (xorshift64*).
pub open spec fn minted_id(x: u64) -> u64 {
    vstd::wrapping::u64_specs::wrapping_mul(x, 0x2545_f491_4f6c_dd1du64)
}

/// The lower-case hexadecimal digits.
pub open spec fn hex_alphabet() -> Seq<char> {
    seq!['0', '1', '2', '3', '4', '5', '6', '7', '8', '9', 'a', 'b', 'c', 'd', 'e', 'f']
}

/// The `k`-th of the 16 hexadecimal digits of `id`, most significant first.
pub open spec fn nibble(id: u64, k: int) -> int {
    ((id >> ((60 - 4 * k) as u64)) & 15u64) as int
}

/// `id` as 16 lower-case hexadecimal digits, zero-padded.
pub open spec fn hex16(id: u64) -> Seq<char> {
    Seq::new(16, |k: int| hex_alphabet()[nibble(id, k)])
}

/// The prefix of every blob URL.
pub open spec fn blob_prefix() -> Seq<char> {
    seq!['b', 'l', 'o', 'b', ':', 'p', 'a', 'w', 's', '/']
}

/// The blob URL for `id`: `blob:paws/` and `id` as 16 hex digits.
pub open spec fn blob_url(id: u64) -> Seq<char> {
    blob_prefix() + hex16(id)
}

/// Distinct ids give distinct blob URLs.
pub proof fn lemma_blob_url_injective(a: u64, b: u64)
    requires
        blob_url(a) == blob_url(b),
    ensures
        a == b,
{
    assert forall|k: int| 0 <= k < 16 implies nibble(a, k) == nibble(b, k) by {
        assert(blob_url(a)[10 + k] == blob_url(b)[10 + k]);
        assert(hex16(a)[k] == blob_url(a)[10 + k]);
        assert(hex16(b)[k] == blob_url(b)[10 + k]);
        let na = nibble(a, k);
        let nb = nibble(b, k);
        assert(0 <= na < 16 && 0 <= nb < 16) by {
            let s = (60 - 4 * k) as u64;
            assert((a >> s) & 15u64 <= 15u64) by (bit_vector);
            assert((b >> s) & 15u64 <= 15u64) by (bit_vector);
        }
        assert(hex_alphabet()[na] == hex_alphabet()[nb]);
    }
    assert(nibble(a, 0) == nibble(b, 0));
    assert(nibble(a, 1) == nibble(b, 1));
    assert(nibble(a, 2) == nibble(b, 2));
    assert(nibble(a, 3) == nibble(b, 3));
    assert(nibble(a, 4) == nibble(b, 4));
    assert(nibble(a, 5) == nibble(b, 5));
    assert(nibble(a, 6) == nibble(b, 6));
    assert(nibble(a, 7) == nibble(b, 7));
    assert(nibble(a, 8) == nibble(b, 8));
    assert(nibble(a, 9) == nibble(b, 9));
    assert(nibble(a, 10) == nibble(b, 10));
    assert(nibble(a, 11) == nibble(b, 11));
    assert(nibble(a, 12) == nibble(b, 12));
    assert(nibble(a, 13) == nibble(b, 13));
    assert(nibble(a, 14) == nibble(b, 14));
    assert(nibble(a, 15) == nibble(b, 15));
    assert(((a >> 60u64) & 15u64) == ((b >> 60u64) & 15u64) && ((a >> 56u64) & 15u64) == ((b >> 56u64) & 15u64) && ((a
        >> 52u64) & 15u64) == ((b >> 52u64) & 15u64) && ((a >> 48u64) & 15u64) == ((b >> 48u64) & 15u64) && ((a >> 44u64)
        & 15u64) == ((b >> 44u64) & 15u64) && ((a >> 40u64) & 15u64) == ((b >> 40u64) & 15u64) && ((a >> 36u64) & 15u64)
        == ((b >> 36u64) & 15u64) && ((a >> 32u64) & 15u64) == ((b >> 32u64) & 15u64) && ((a >> 28u64) & 15u64) == ((b
        >> 28u64) & 15u64) && ((a >> 24u64) & 15u64) == ((b >> 24u64) & 15u64) && ((a >> 20u64) & 15u64) == ((b >> 20u64)
        & 15u64) && ((a >> 16u64) & 15u64) == ((b >> 16u64) & 15u64) && ((a >> 12u64) & 15u64) == ((b >> 12u64) & 15u64)
        && ((a >> 8u64) & 15u64) == ((b >> 8u64) & 15u64) && ((a >> 4u64) & 15u64) == ((b >> 4u64) & 15u64) && ((a
        >> 0u64) & 15u64) == ((b >> 0u64) & 15u64));
    assert(((a >> 60u64) & 15u64) == ((b >> 60u64) & 15u64) && ((a >> 56u64) & 15u64) == ((b >> 56u64) & 15u64) && ((a
        >> 52u64) & 15u64) == ((b >> 52u64) & 15u64) && ((a >> 48u64) & 15u64) == ((b >> 48u64) & 15u64) && ((a >> 44u64)
        & 15u64) == ((b >> 44u64) & 15u64) && ((a >> 40u64) & 15u64) == ((b >> 40u64) & 15u64) && ((a >> 36u64) & 15u64)
        == ((b >> 36u64) & 15u64) && ((a >> 32u64) & 15u64) == ((b >> 32u64) & 15u64) && ((a >> 28u64) & 15u64) == ((b
        >> 28u64) & 15u64) && ((a >> 24u64) & 15u64) == ((b >> 24u64) & 15u64) && ((a >> 20u64) & 15u64) == ((b >> 20u64)
        & 15u64) && ((a >> 16u64) & 15u64) == ((b >> 16u64) & 15u64) && ((a >> 12u64) & 15u64) == ((b >> 12u64) & 15u64)
        && ((a >> 8u64) & 15u64) == ((b >> 8u64) & 15u64) && ((a >> 4u64) & 15u64) == ((b >> 4u64) & 15u64) && ((a
        >> 0u64) & 15u64) == ((b >> 0u64) & 15u64) ==> a == b) by (bit_vector);
}

/// Formats the blob URL for `id`.
fn format_blob_url(id: u64) -> (r: String)
    ensures
        r@ == blob_url(id),
{
    let alphabet: [char; 16] = ['0', '1', '2', '3', '4', '5', '6', '7', '8', '9', 'a', 'b', 'c', 'd', 'e', 'f'];
    let mut cs: Vec<char> = vec!['b', 'l', 'o', 'b', ':', 'p', 'a', 'w', 's', '/'];
    proof {
        assert(alphabet@ =~= hex_alphabet());
        assert(cs@ =~= blob_prefix());
    }
    let mut k: u64 = 0;
    while k < 16
        invariant
            k <= 16,
            alphabet@ == hex_alphabet(),
            cs@ == blob_prefix() + hex16(id).take(k as int),
        decreases 16 - k,
    {
        let shift: u64 = 60 - 4 * k;
        let d: u64 = (id >> shift) & 15;
        assert(d <= 15) by {
            assert((id >> shift) & 15u64 <= 15u64) by (bit_vector);
        }
        cs.push(alphabet[d as usize]);
        proof {
            assert(d as int == nibble(id, k as int));
            assert(cs@ =~= blob_prefix() + hex16(id).take(k + 1));
        }
        k = k + 1;
    }
    proof {
        assert(hex16(id).take(16) =~= hex16(id));
    }
    string_from_chars(cs.as_slice())
}

/// The live blob URLs and their entries.
pub struct BlobRegistry {
    entries: FnvHashMap<String, Arc<BlobEntry>>,
    /// State of the xorshift64 generator that mints URL ids.
    rng_state: u64,
}

impl View for BlobRegistry {
    type V = Map<Seq<char>, BlobEntry>;

    closed spec fn view(&self) -> Map<Seq<char>, BlobEntry> {
        blob_entries(self.entries)
    }
}

impl BlobRegistry {
    /// The registry keeps finitely many entries.
    pub closed spec fn wf(&self) -> bool {
        self@.dom().finite()
    }

    /// Creates an empty registry whose generator is seeded from the clock
    /// (never from zero, where xorshift would stay).
    pub fn new() -> (r: Self)
        ensures
            r.wf(),
            r@.dom().is_empty(),
    {
        let seed: u64 = match since_unix_epoch(&system_time_now()) {
            Some(d) => {
                let n = duration_nanos(&d);
                #[verifier::truncate]
                (n as u64)
            },
            None => 0x1234_5678_9abc_def0,
        };
        let seed = if seed == 0 {
            0x9e37_79b9_7f4a_7c15
        } else {
            seed
        };
        BlobRegistry { entries: blob_map_new(), rng_state: seed }
    }

    /// Advances the generator and returns the next id.
    fn next_id(&mut self) -> (r: u64)
        ensures
            final(self).rng_state == xorshift(old(self).rng_state),
            r == minted_id(final(self).rng_state),
            final(self)@ == old(self)@,
    {
        let mut x = self.rng_state;
        x ^= x << 13;
        x ^= x >> 7;
        x ^= x << 17;
        self.rng_state = x;
        x.wrapping_mul(0x2545_f491_4f6c_dd1d)
    }

    /// Registers `bytes` under a blob URL that is not live yet and returns
    /// the URL. The URL is minted from the generator; should a minted URL
    /// be live, the next one is tried.
    pub fn create(&mut self, bytes: Vec<u8>, mime_type: String) -> (r: String)
        requires
            old(self).wf(),
        ensures
            final(self).wf(),
            exists|id: u64| r@ == blob_url(id),
            !old(self)@.contains_key(r@),
            final(self)@.contains_key(r@),
            final(self)@[r@].bytes@ == bytes@,
            final(self)@[r@].mime_type == mime_type,
            final(self)@.remove(r@) == old(self)@,
    {
        let mut attempts: u64 = 0;
        while attempts < u64::MAX
            invariant
                self.wf(),
                self@ == old(self)@,
            decreases u64::MAX - attempts,
        {
            let id = self.next_id();
            let url = format_blob_url(id);
            if !blob_map_contains(&self.entries, url.as_str()) {
                blob_map_insert(&mut self.entries, url.clone(), Arc::new(BlobEntry { bytes: Arc::new(bytes), mime_type }));
                proof {
                    assert(self@.remove(url@) =~= old(self)@);
                }
                return url;
            }
            attempts = attempts + 1;
        }
        let url = self.first_free_url();
        blob_map_insert(&mut self.entries, url.clone(), Arc::new(BlobEntry { bytes: Arc::new(bytes), mime_type }));
        proof {
            assert(self@.remove(url@) =~= old(self)@);
        }
        url
    }

    /// The blob URL of the smallest id that is not live. Some id up to the
    /// number of live URLs is free, as distinct ids give distinct URLs.
    fn first_free_url(&self) -> (r: String)
        requires
            self.wf(),
        ensures
            exists|id: u64| r@ == blob_url(id),
            !self@.contains_key(r@),
    {
        let n = blob_map_len(&self.entries);
        let ghost dom = self@.dom();
        let ghost mut seen: Set<Seq<char>> = Set::empty();
        let mut k: u64 = 0;
        loop
            invariant
                dom == self@.dom(),
                dom.finite(),
                n == dom.len(),
                seen.finite(),
                seen.len() == k,
                seen.subset_of(dom),
                forall|s: Seq<char>| #[trigger] seen.contains(s) ==> exists|j: u64| j < k && s == blob_url(j),
                k <= n,
            decreases n - k,
        {
            let url = format_blob_url(k);
            if !blob_map_contains(&self.entries, url.as_str()) {
                return url;
            }
            proof {
                assert(!seen.contains(url@)) by {
                    if seen.contains(url@) {
                        let j = choose|j: u64| j < k && url@ == blob_url(j);
                        lemma_blob_url_injective(j, k);
                    }
                }
                seen = seen.insert(url@);
                vstd::set_lib::lemma_len_subset(seen, dom);
            }
            k = k + 1;
        }
    }

    /// Drops the entry for `url`. Returns whether a live entry was removed.
    pub fn revoke(&mut self, url: &str) -> (r: bool)
        requires
            old(self).wf(),
        ensures
            final(self).wf(),
            r == old(self)@.contains_key(url@),
            final(self)@ == old(self)@.remove(url@),
    {
        blob_map_remove(&mut self.entries, url).is_some()
    }

    /// The live entry for `url`, if any.
    pub fn resolve(&self, url: &str) -> (r: Option<Arc<BlobEntry>>)
        ensures
            match r {
                Some(e) => self@.contains_key(url@) && *e == self@[url@],
                None => !self@.contains_key(url@),
            },
    {
        blob_map_get(&self.entries, url)
    }

    /// Number of live blob URLs.
    pub fn len(&self) -> (r: usize)
        ensures
            r == self@.len(),
    {
        blob_map_len(&self.entries)
    }

    /// Whether no blob URL is live.
    pub fn is_empty(&self) -> (r: bool)
        ensures
            r == (self@.len() == 0),
    {
        blob_map_len(&self.entries) == 0
    }
}

/// Two URLs handed out one after the other differ: the second was not live
/// when it was minted, and the first still was (it is live from its
/// `create` until it is revoked).
pub proof fn lemma_consecutive_urls_differ(after_first: Map<Seq<char>, BlobEntry>, first: Seq<char>, second: Seq<char>)
    requires
        after_first.contains_key(first),
        !after_first.contains_key(second),
    ensures
        first != second,
{
}

/// Revoking a URL a second time finds nothing: after the first revocation
/// the URL is no longer live.
pub proof fn lemma_revoke_once(live: Map<Seq<char>, BlobEntry>, url: Seq<char>)
    ensures
        !live.remove(url).contains_key(url),
        live.remove(url).remove(url) == live.remove(url),
{
    assert(live.remove(url).remove(url) =~= live.remove(url));
}

impl Default for BlobRegistry {
    fn default() -> (r: Self)
        ensures
            r.wf(),
            r@.dom().is_empty(),
    {
        Self::new()
    }
}

} // verus!
