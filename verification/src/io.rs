//! Engine-side I/O layer: URL classification, `data:` URL decoding, the
//! response cache and the synchronous fetch path.

use std::sync::Arc;
use fnv::FnvHashMap;
use crate::hashing::{
    url_bytes_clear, url_bytes_entries, url_bytes_get, url_bytes_insert, url_bytes_len,
    url_bytes_new, url_bytes_remove,
};
use vstd::prelude::*;
use crate::base64::{base64_decode, base64_encode, lemma_base64_round_trip, strip_ws};
use crate::text::{
    arc_clone, ascii_lower_seq, eq_ignore_ascii_case, chars_of, find_char, first_index, lower_range, push_str,
    range_eq_ignore_ascii_case, string_from_chars, ascii_lower, is_first_index, lemma_first_index,
};

verus! {

// ── Error / result ────────────────────────────────────────────────────

/// Errors surfaced by the I/O layer.
#[derive(Debug, Clone, PartialEq, Eq)]
pub enum IoError {
    /// The controller does not implement this operation.
    NotImplemented,
    /// The URL failed to parse or used an unexpected structure.
    InvalidUrl(String),
    /// The URL used a scheme this controller does not handle.
    UnsupportedScheme(String),
    /// A `data:` URL payload was malformed.
    DataUrlDecode,
    /// Generic transport-layer failure.
    TransportFailure(String),
    /// The operation targeted a WebSocket handle that is already closed.
    ConnectionClosed,
    /// The operation did not complete within the caller-supplied timeout.
    TimedOut,
}

impl IoError {
    /// Human-readable description of the error.
    pub fn to_message(&self) -> (r: String)
        ensures
            r@ == match self {
                IoError::NotImplemented => "I/O controller does not implement this operation"@,
                IoError::InvalidUrl(url) => "invalid URL: "@ + url@,
                IoError::UnsupportedScheme(scheme) => "unsupported URL scheme: "@ + scheme@,
                IoError::DataUrlDecode => "malformed data: URL payload"@,
                IoError::TransportFailure(msg) => "transport failure: "@ + msg@,
                IoError::ConnectionClosed => "websocket connection is closed"@,
                IoError::TimedOut => "I/O operation timed out"@,
            },
    {
        let mut s = String::new();
        match self {
            IoError::NotImplemented => push_str(&mut s, "I/O controller does not implement this operation"),
            IoError::InvalidUrl(url) => {
                push_str(&mut s, "invalid URL: ");
                push_str(&mut s, url.as_str());
            },
            IoError::UnsupportedScheme(scheme) => {
                push_str(&mut s, "unsupported URL scheme: ");
                push_str(&mut s, scheme.as_str());
            },
            IoError::DataUrlDecode => push_str(&mut s, "malformed data: URL payload"),
            IoError::TransportFailure(msg) => {
                push_str(&mut s, "transport failure: ");
                push_str(&mut s, msg.as_str());
            },
            IoError::ConnectionClosed => push_str(&mut s, "websocket connection is closed"),
            IoError::TimedOut => push_str(&mut s, "I/O operation timed out"),
        }
        s
    }
}

/// Result alias used throughout the I/O layer.
pub type IoResult<T> = Result<T, IoError>;

// ── URL classification ─────────────────────────────────────────────────

/// Coarse classification of a URL scheme.
#[derive(Debug, Clone, PartialEq, Eq)]
pub enum UrlScheme {
    /// `data:...` — resolvable synchronously via [`decode_data_url`].
    Data,
    /// `http://`
    Http,
    /// `https://`
    Https,
    /// `http3://`
    Http3,
    /// `ws://`
    WebSocket,
    /// `wss://`
    WebSocketSecure,
    /// Any other scheme. Carries the lowercased scheme text (without the `:`).
    Other(String),
}

/// The scheme of a URL: the text before its first `:`.
pub open spec fn scheme_part(url: Seq<char>) -> Seq<char> {
    url.take(first_index(url, ':'))
}

/// `s` is the classification of the lowercased scheme `lower`.
pub open spec fn scheme_classifies(s: UrlScheme, lower: Seq<char>) -> bool {
    match s {
        UrlScheme::Data => lower == seq!['d', 'a', 't', 'a'],
        UrlScheme::Http => lower == seq!['h', 't', 't', 'p'],
        UrlScheme::Https => lower == seq!['h', 't', 't', 'p', 's'],
        UrlScheme::Http3 => lower == seq!['h', 't', 't', 'p', '3'],
        UrlScheme::WebSocket => lower == seq!['w', 's'],
        UrlScheme::WebSocketSecure => lower == seq!['w', 's', 's'],
        UrlScheme::Other(t) => {
            &&& t@ == lower
            &&& lower != seq!['d', 'a', 't', 'a']
            &&& lower != seq!['h', 't', 't', 'p']
            &&& lower != seq!['h', 't', 't', 'p', 's']
            &&& lower != seq!['h', 't', 't', 'p', '3']
            &&& lower != seq!['w', 's']
            &&& lower != seq!['w', 's', 's']
        },
    }
}

/// Whether two character slices hold the same characters.
fn chars_eq(a: &[char], b: &[char]) -> (r: bool)
    ensures
        r == (a@ == b@),
{
    if a.len() != b.len() {
        return false;
    }
    let mut i: usize = 0;
    while i < a.len()
        invariant
            a@.len() == b@.len(),
            i <= a@.len(),
            forall|j: int| 0 <= j < i ==> a@[j] == b@[j],
        decreases a@.len() - i,
    {
        if a[i] != b[i] {
            return false;
        }
        i = i + 1;
    }
    assert(a@ =~= b@);
    true
}

impl UrlScheme {
    /// Classifies the scheme portion of a URL. Returns
    /// [`IoError::InvalidUrl`] if the input has no `:` separator.
    pub fn classify(url: &str) -> (r: Result<UrlScheme, IoError>)
        ensures
            match r {
                Ok(s) => url@.contains(':') && scheme_classifies(s, ascii_lower_seq(scheme_part(url@))),
                Err(e) => !url@.contains(':') && (e matches IoError::InvalidUrl(u) && u@ == url@),
            },
    {
        let cs = chars_of(url);
        let colon = match find_char(cs.as_slice(), ':') {
            Some(i) => i,
            None => {
                return Err(IoError::InvalidUrl(url.to_owned()));
            },
        };
        let lower = lower_range(cs.as_slice(), 0, colon);
        assert(cs@.subrange(0, colon as int) =~= scheme_part(url@));
        let l = lower.as_slice();
        if chars_eq(l, vec!['d', 'a', 't', 'a'].as_slice()) {
            Ok(UrlScheme::Data)
        } else if chars_eq(l, vec!['h', 't', 't', 'p'].as_slice()) {
            Ok(UrlScheme::Http)
        } else if chars_eq(l, vec!['h', 't', 't', 'p', 's'].as_slice()) {
            Ok(UrlScheme::Https)
        } else if chars_eq(l, vec!['h', 't', 't', 'p', '3'].as_slice()) {
            Ok(UrlScheme::Http3)
        } else if chars_eq(l, vec!['w', 's'].as_slice()) {
            Ok(UrlScheme::WebSocket)
        } else if chars_eq(l, vec!['w', 's', 's'].as_slice()) {
            Ok(UrlScheme::WebSocketSecure)
        } else {
            Ok(UrlScheme::Other(string_from_chars(l)))
        }
    }

    /// Returns `true` if the scheme is resolvable without a network
    /// round-trip.
    pub fn is_local(&self) -> (r: bool)
        ensures
            r == (*self is Data),
    {
        match self {
            UrlScheme::Data => true,
            _ => false,
        }
    }
}

} // verus!

verus! {

// ── data: URL decoder ─────────────────────────────────────────────────

pub open spec fn data_prefix() -> Seq<char> {
    seq!['d', 'a', 't', 'a', ':']
}

pub open spec fn base64_word() -> Seq<char> {
    seq!['b', 'a', 's', 'e', '6', '4']
}

/// `meta[i..j]` is one of the `;`-separated parameters of `meta`.
pub open spec fn is_param(meta: Seq<char>, i: int, j: int) -> bool {
    &&& 0 <= i <= j <= meta.len()
    &&& (i == 0 || meta[i - 1] == ';')
    &&& (j == meta.len() || meta[j] == ';')
    &&& forall|t: int| i <= t < j ==> meta[t] != ';'
}

/// Some `;`-separated parameter of `meta` is `base64`, ignoring ASCII case.
pub open spec fn has_base64_param(meta: Seq<char>) -> bool {
    exists|i: int, j: int|
        is_param(meta, i, j) && eq_ignore_ascii_case(#[trigger] meta.subrange(i, j), base64_word())
}

/// What decoding a `data:` URL yields.
pub open spec fn data_url_result(url: Seq<char>) -> Result<Seq<u8>, IoError> {
    if !(url.len() >= 5 && url.take(5) == data_prefix()) {
        Err(IoError::DataUrlDecode)
    } else {
        let rest = url.skip(5);
        if !rest.contains(',') {
            Err(IoError::DataUrlDecode)
        } else {
            let meta = rest.take(first_index(rest, ','));
            let payload = rest.skip(first_index(rest, ',') + 1);
            if !has_base64_param(meta) {
                Err(IoError::DataUrlDecode)
            } else {
                match base64_decode(payload) {
                    Some(b) => Ok(b),
                    None => Err(IoError::DataUrlDecode),
                }
            }
        }
    }
}

/// The URL is structurally a `data:` URL: the `data:` prefix and a `,`.
pub open spec fn is_data_url_shape(url: Seq<char>) -> bool {
    url.len() >= 5 && url.take(5) == data_prefix() && url.skip(5).contains(',')
}

proof fn lemma_base64_word_lower()
    ensures
        ascii_lower_seq(base64_word()) =~= base64_word(),
        forall|t: int| 0 <= t < 6 ==> ascii_lower_seq(base64_word())[t] != ';',
{
}

/// Decoding a base64 `data:` URL inverts encoding: a URL made of `data:`,
/// a media type without `,`, `;base64` in any ASCII case, `,` and the
/// standard base64 of `b` with ASCII whitespace inserted anywhere, decodes
/// to `b`.
pub proof fn lemma_data_url_round_trip(media: Seq<char>, kw: Seq<char>, w: Seq<char>, b: Seq<u8>)
    requires
        !media.contains(','),
        eq_ignore_ascii_case(kw, base64_word()),
        strip_ws(w) == base64_encode(b),
    ensures
        is_data_url_shape(data_prefix() + media + seq![';'] + kw + seq![','] + w),
        data_url_result(data_prefix() + media + seq![';'] + kw + seq![','] + w) == Ok::<Seq<u8>, IoError>(b),
{
    let url = data_prefix() + media + seq![';'] + kw + seq![','] + w;
    let rest = media + seq![';'] + kw + seq![','] + w;
    assert(url.take(5) =~= data_prefix());
    assert(url.skip(5) =~= rest);
    lemma_base64_word_lower();
    assert(ascii_lower_seq(kw).len() == kw.len());
    assert(kw.len() == 6);
    assert forall|t: int| 0 <= t < 6 implies kw[t] != ',' && kw[t] != ';' by {
        assert(ascii_lower_seq(kw)[t] == ascii_lower(kw[t]));
        assert(ascii_lower_seq(kw)[t] == ascii_lower_seq(base64_word())[t]);
    }
    let l = media.len() as int;
    let ci = l + 7;
    assert(rest[ci] == ',');
    assert forall|j: int| 0 <= j < ci implies rest[j] != ',' by {
        if j < l {
            assert(rest[j] == media[j]);
            if media[j] == ',' {
                assert(media.contains(','));
            }
        } else if j > l {
            assert(rest[j] == kw[j - l - 1]);
        }
    }
    assert(is_first_index(rest, ',', ci));
    lemma_first_index(rest, ',', ci);
    assert(rest.contains(','));
    let meta = rest.take(ci);
    assert(meta =~= media + seq![';'] + kw);
    assert(meta.subrange(l + 1, ci) =~= kw);
    assert(is_param(meta, l + 1, ci));
    assert(has_base64_param(meta));
    assert(rest.skip(ci + 1) =~= w);
    lemma_base64_round_trip(b, w);
}

/// Whether some `;`-separated parameter of `meta` is `base64`.
fn find_base64_param(meta: &[char]) -> (r: bool)
    ensures
        r == has_base64_param(meta@),
{
    let word = vec!['b', 'a', 's', 'e', '6', '4'];
    proof {
        lemma_base64_word_lower();
    }
    let mut seg_start: usize = 0;
    let mut idx: usize = 0;
    while idx <= meta.len()
        invariant
            word@ == base64_word(),
            seg_start <= idx,
            idx <= meta@.len() + 1,
            seg_start <= meta@.len(),
            seg_start == 0 || meta@[seg_start - 1] == ';',
            idx <= meta@.len() ==> forall|t: int| seg_start <= t < idx ==> meta@[t] != ';',
            forall|i: int, j: int|
                is_param(meta@, i, j) && j < idx ==> !eq_ignore_ascii_case(
                    #[trigger] meta@.subrange(i, j),
                    base64_word(),
                ),
        decreases meta@.len() + 1 - idx,
    {
        if idx == meta.len() || meta[idx] == ';' {
            if range_eq_ignore_ascii_case(meta, seg_start, idx, word.as_slice()) {
                assert(is_param(meta@, seg_start as int, idx as int));
                return true;
            }
            assert forall|i: int, j: int|
                is_param(meta@, i, j) && j < idx + 1 implies !eq_ignore_ascii_case(
                #[trigger] meta@.subrange(i, j),
                base64_word(),
            ) by {
                if j == idx && eq_ignore_ascii_case(meta@.subrange(i, j), base64_word()) {
                    assert(ascii_lower_seq(meta@.subrange(i, j)).len() == 6);
                    if i < seg_start {
                        assert(ascii_lower_seq(meta@.subrange(i, j))[seg_start - 1 - i] == ';');
                    } else if i > seg_start {
                        assert(meta@[i - 1] == ';');
                    }
                }
            }
            if idx == meta.len() {
                return false;
            }
            seg_start = idx + 1;
        }
        idx = idx + 1;
    }
    false
}

/// Decodes a `data:` URL to its raw bytes.
///
/// Accepts `data:<mediatype>?;base64,<payload>`. Whitespace inside the
/// base64 payload is tolerated. Non-base64 `data:` URLs and any other scheme
/// are rejected.
pub fn decode_data_url(url: &str) -> (r: Result<Vec<u8>, IoError>)
    ensures
        !is_data_url_shape(url@) ==> (r matches Err(IoError::InvalidUrl(u)) && u@ == url@),
        is_data_url_shape(url@) ==> match r {
            Ok(b) => data_url_result(url@) == Ok::<Seq<u8>, IoError>(b@),
            Err(e) => e == IoError::DataUrlDecode && data_url_result(url@) is Err,
        },
{
    let cs = chars_of(url);
    let prefix = vec!['d', 'a', 't', 'a', ':'];
    if cs.len() < 5 || !chars_eq(&cs.as_slice()[0..5], prefix.as_slice()) {
        return Err(IoError::InvalidUrl(url.to_owned()));
    }
    assert(cs@.take(5) =~= cs@.subrange(0, 5));
    let rest = slice_from(cs.as_slice(), 5);
    assert(rest@ =~= url@.skip(5));
    let comma = match find_char(rest.as_slice(), ',') {
        Some(c) => c,
        None => {
            return Err(IoError::InvalidUrl(url.to_owned()));
        },
    };
    let meta = slice_range(rest.as_slice(), 0, comma);
    let payload = string_from_chars(slice_from(rest.as_slice(), comma + 1).as_slice());
    assert(meta@ =~= rest@.take(comma as int));
    if !find_base64_param(meta.as_slice()) {
        return Err(IoError::DataUrlDecode);
    }
    match crate::base64::decode_base64(payload.as_str()) {
        Some(bytes) => Ok(bytes),
        None => Err(IoError::DataUrlDecode),
    }
}

/// `v[from..]`, as a vector.
fn slice_from(v: &[char], from: usize) -> (r: Vec<char>)
    requires
        from <= v@.len(),
    ensures
        r@ == v@.skip(from as int),
{
    slice_range(v, from, v.len())
}

/// `v[from..to]`, as a vector.
fn slice_range(v: &[char], from: usize, to: usize) -> (r: Vec<char>)
    requires
        from <= to <= v@.len(),
    ensures
        r@ == v@.subrange(from as int, to as int),
{
    let mut r: Vec<char> = Vec::new();
    let mut i: usize = from;
    while i < to
        invariant
            from <= i <= to <= v@.len(),
            r@ =~= v@.subrange(from as int, i as int),
        decreases to - i,
    {
        r.push(v[i]);
        i = i + 1;
    }
    r
}

} // verus!

verus! {

// ── HTTP primitives ───────────────────────────────────────────────────

/// HTTP verb.
#[derive(Debug, Clone, Copy, PartialEq, Eq)]
pub enum HttpMethod {
    Get,
    Head,
    Post,
    Put,
    Patch,
    Delete,
    Options,
}

impl HttpMethod {
    /// Returns the canonical uppercase method name as used on the wire.
    pub fn as_str(&self) -> (r: &'static str)
        ensures
            r@ == match self {
                HttpMethod::Get => "GET"@,
                HttpMethod::Head => "HEAD"@,
                HttpMethod::Post => "POST"@,
                HttpMethod::Put => "PUT"@,
                HttpMethod::Patch => "PATCH"@,
                HttpMethod::Delete => "DELETE"@,
                HttpMethod::Options => "OPTIONS"@,
            },
    {
        match self {
            HttpMethod::Get => "GET",
            HttpMethod::Head => "HEAD",
            HttpMethod::Post => "POST",
            HttpMethod::Put => "PUT",
            HttpMethod::Patch => "PATCH",
            HttpMethod::Delete => "DELETE",
            HttpMethod::Options => "OPTIONS",
        }
    }
}

/// Fully-specified HTTP request. Header order is preserved; duplicates are
/// allowed.
#[derive(Debug, Clone)]
pub struct HttpRequest {
    pub method: HttpMethod,
    pub url: String,
    pub headers: Vec<(String, String)>,
    pub body: Option<Vec<u8>>,
    /// Optional per-request timeout. `None` means "use the controller's
    /// default".
    pub timeout: Option<std::time::Duration>,
}

impl HttpRequest {
    /// Convenience constructor for a simple `GET` with no headers or body.
    pub fn get(url: &str) -> (r: Self)
        ensures
            r.method == HttpMethod::Get,
            r.url@ == url@,
            r.headers@.len() == 0,
            r.body is None,
            r.timeout is None,
    {
        HttpRequest {
            method: HttpMethod::Get,
            url: url.to_owned(),
            headers: Vec::new(),
            body: None,
            timeout: None,
        }
    }
}

/// HTTP response.
#[derive(Debug, Clone, PartialEq, Eq)]
pub struct HttpResponse {
    pub status: u16,
    pub headers: Vec<(String, String)>,
    pub body: Vec<u8>,
    /// Final URL after any controller-level redirect resolution.
    pub url: String,
}

// ── WebSocket primitives ──────────────────────────────────────────────

/// Opaque handle identifying a live WebSocket connection.
#[derive(Debug, Clone, Copy, PartialEq, Eq, Hash)]
pub struct WebSocketHandle(pub u64);

/// Frame sent over a WebSocket connection.
#[derive(Debug, Clone, PartialEq, Eq)]
pub enum WsFrame {
    Text(String),
    Binary(Vec<u8>),
    Ping(Vec<u8>),
    Pong(Vec<u8>),
    Close { code: Option<u16>, reason: Option<String> },
}

// ── Response cache ────────────────────────────────────────────────────

/// Engine-owned response body cache, keyed by full URL.
pub struct ResponseCache {
    entries: FnvHashMap<String, Arc<Vec<u8>>>,
}

impl View for ResponseCache {
    type V = Map<Seq<char>, Seq<u8>>;

    closed spec fn view(&self) -> Map<Seq<char>, Seq<u8>> {
        url_bytes_entries(self.entries)
    }
}

impl ResponseCache {
    /// Creates an empty cache.
    pub fn new() -> (r: Self)
        ensures
            r@.dom().is_empty(),
    {
        ResponseCache { entries: url_bytes_new() }
    }

    /// Returns the cached bytes for `url`, or `None` on a miss.
    pub fn get(&self, url: &str) -> (r: Option<Arc<Vec<u8>>>)
        ensures
            match r {
                Some(v) => self@.contains_key(url@) && v@ == self@[url@],
                None => !self@.contains_key(url@),
            },
    {
        url_bytes_get(&self.entries, url)
    }

    /// Inserts bytes for `url`. Overwrites any prior entry.
    pub fn insert(&mut self, url: String, bytes: Arc<Vec<u8>>)
        ensures
            final(self)@ == old(self)@.insert(url@, bytes@),
    {
        url_bytes_insert(&mut self.entries, url, bytes);
    }

    /// Removes the entry for `url`, returning the old bytes if any.
    pub fn remove(&mut self, url: &str) -> (r: Option<Arc<Vec<u8>>>)
        ensures
            final(self)@ == old(self)@.remove(url@),
            match r {
                Some(v) => old(self)@.contains_key(url@) && v@ == old(self)@[url@],
                None => !old(self)@.contains_key(url@),
            },
    {
        url_bytes_remove(&mut self.entries, url)
    }

    /// Drops every entry.
    pub fn clear(&mut self)
        ensures
            final(self)@.dom().is_empty(),
    {
        url_bytes_clear(&mut self.entries);
    }

    /// Number of entries currently cached.
    pub fn len(&self) -> (r: usize)
        ensures
            r == self@.len(),
    {
        url_bytes_len(&self.entries)
    }

    /// Whether the cache is empty.
    pub fn is_empty(&self) -> (r: bool)
        ensures
            r == (self@.len() == 0),
    {
        url_bytes_len(&self.entries) == 0
    }
}

impl Default for ResponseCache {
    fn default() -> (r: Self)
        ensures
            r@.dom().is_empty(),
    {
        Self::new()
    }
}

// ── I/O layer ─────────────────────────────────────────────────────────

/// The URL's scheme is `data`, ignoring ASCII case.
pub open spec fn has_data_scheme(url: Seq<char>) -> bool {
    url.contains(':') && ascii_lower_seq(scheme_part(url)) == seq!['d', 'a', 't', 'a']
}

/// Engine-owned façade over the host's network controller: bundles the
/// [`ResponseCache`] with the controller.
pub struct IoLayer<I> {
    controller: I,
    cache: ResponseCache,
}

impl<I> IoLayer<I> {
    pub closed spec fn spec_cache(&self) -> ResponseCache {
        self.cache
    }

    pub closed spec fn spec_controller(&self) -> I {
        self.controller
    }

    /// Wraps a controller in a fresh layer with an empty cache.
    pub fn new(controller: I) -> (r: Self)
        ensures
            r.spec_controller() == controller,
            r.spec_cache()@.dom().is_empty(),
    {
        IoLayer { controller, cache: ResponseCache::new() }
    }

    /// Immutable access to the cache.
    pub fn cache(&self) -> (r: &ResponseCache)
        ensures
            *r == self.spec_cache(),
    {
        &self.cache
    }

    /// Mutable access to the cache.
    pub fn cache_mut(&mut self) -> (r: &mut ResponseCache)
        ensures
            *r == old(self).spec_cache(),
            final(self).spec_cache() == *final(r),
            final(self).spec_controller() == old(self).spec_controller(),
    {
        &mut self.cache
    }

    /// Immutable access to the controller.
    pub fn controller(&self) -> (r: &I)
        ensures
            *r == self.spec_controller(),
    {
        &self.controller
    }

    /// Mutable access to the controller.
    pub fn controller_mut(&mut self) -> (r: &mut I)
        ensures
            *r == old(self).spec_controller(),
            final(self).spec_controller() == *final(r),
            final(self).spec_cache() == old(self).spec_cache(),
    {
        &mut self.controller
    }

    /// Synchronous fetch that succeeds only when the URL can be resolved
    /// without touching the controller: a `data:` URL or a cache hit.
    /// Returns `Ok(None)` for a network miss. Decoded `data:` URLs are
    /// inserted into the cache.
    pub fn fetch_sync(&mut self, url: &str) -> (r: Result<Option<Arc<Vec<u8>>>, IoError>)
        ensures
            final(self).spec_controller() == old(self).spec_controller(),
            old(self).spec_cache()@.contains_key(url@) ==> {
                &&& final(self).spec_cache()@ == old(self).spec_cache()@
                &&& r matches Ok(Some(v)) && v@ == old(self).spec_cache()@[url@]
            },
            !old(self).spec_cache()@.contains_key(url@) ==> {
                if !url@.contains(':') {
                    &&& final(self).spec_cache()@ == old(self).spec_cache()@
                    &&& r matches Err(IoError::InvalidUrl(u)) && u@ == url@
                } else if !has_data_scheme(url@) {
                    &&& final(self).spec_cache()@ == old(self).spec_cache()@
                    &&& r matches Ok(None)
                } else if !is_data_url_shape(url@) {
                    &&& final(self).spec_cache()@ == old(self).spec_cache()@
                    &&& r matches Err(IoError::InvalidUrl(u)) && u@ == url@
                } else {
                    match data_url_result(url@) {
                        Ok(b) => {
                            &&& final(self).spec_cache()@ == old(self).spec_cache()@.insert(url@, b)
                            &&& r matches Ok(Some(v)) && v@ == b
                        },
                        Err(_) => {
                            &&& final(self).spec_cache()@ == old(self).spec_cache()@
                            &&& r == Err::<Option<Arc<Vec<u8>>>, IoError>(IoError::DataUrlDecode)
                        },
                    }
                }
            },
    {
        if let Some(hit) = self.cache.get(url) {
            return Ok(Some(hit));
        }
        match UrlScheme::classify(url) {
            Err(e) => Err(e),
            Ok(UrlScheme::Data) => {
                match decode_data_url(url) {
                    Ok(decoded) => {
                        let bytes = Arc::new(decoded);
                        self.cache.insert(url.to_owned(), arc_clone(&bytes));
                        Ok(Some(bytes))
                    },
                    Err(e) => Err(e),
                }
            },
            Ok(_) => Ok(None),
        }
    }

    /// Consumes the layer and returns its parts.
    pub fn into_parts(self) -> (r: (I, ResponseCache))
        ensures
            r.0 == self.spec_controller(),
            r.1 == self.spec_cache(),
    {
        (self.controller, self.cache)
    }
}

impl<I: Default> Default for IoLayer<I> {
    fn default() -> (r: Self)
        ensures
            r.spec_cache()@.dom().is_empty(),
    {
        Self::new(I::default())
    }
}

} // verus!
