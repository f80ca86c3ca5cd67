use std::sync::Arc;

use paws_engine::io::{decode_data_url, IoError, IoLayer, ResponseCache, UrlScheme};

// ── Data URL decode ────────────────────────────────────────────────

#[test]
fn decode_data_url_accepts_base64_payload() {
    // "Paws" → UGF3cw==
    let bytes = decode_data_url("data:text/plain;base64,UGF3cw==").unwrap();
    assert_eq!(bytes, b"Paws");
}

#[test]
fn decode_data_url_tolerates_whitespace_in_payload() {
    let bytes = decode_data_url("data:image/png;base64,UGF3\ncw==").unwrap();
    assert_eq!(bytes, b"Paws");
}

#[test]
fn decode_data_url_rejects_non_data_scheme() {
    assert!(matches!(
        decode_data_url("https://example.com/a.png"),
        Err(IoError::InvalidUrl(_))
    ));
}

#[test]
fn decode_data_url_rejects_missing_base64_marker() {
    assert_eq!(
        decode_data_url("data:text/plain,hello"),
        Err(IoError::DataUrlDecode)
    );
}

#[test]
fn decode_data_url_rejects_out_of_alphabet_payload() {
    assert_eq!(
        decode_data_url("data:image/png;base64,!!!!"),
        Err(IoError::DataUrlDecode)
    );
}

// ── URL classification ─────────────────────────────────────────────

#[test]
fn classify_url_covers_well_known_schemes() {
    assert_eq!(UrlScheme::classify("data:,x"), Ok(UrlScheme::Data));
    assert_eq!(UrlScheme::classify("https://a/b"), Ok(UrlScheme::Https));
    assert_eq!(UrlScheme::classify("http://a"), Ok(UrlScheme::Http));
    assert_eq!(UrlScheme::classify("http3://a"), Ok(UrlScheme::Http3));
    assert_eq!(UrlScheme::classify("ws://a"), Ok(UrlScheme::WebSocket));
    assert_eq!(
        UrlScheme::classify("wss://a"),
        Ok(UrlScheme::WebSocketSecure)
    );
    assert_eq!(
        UrlScheme::classify("ftp://a"),
        Ok(UrlScheme::Other("ftp".to_string()))
    );
}

#[test]
fn classify_url_rejects_inputs_without_colon() {
    assert!(matches!(
        UrlScheme::classify("no-scheme-here"),
        Err(IoError::InvalidUrl(_))
    ));
}

#[test]
fn is_local_true_only_for_data() {
    assert!(UrlScheme::Data.is_local());
    assert!(!UrlScheme::Https.is_local());
    assert!(!UrlScheme::WebSocket.is_local());
}

// ── ResponseCache ──────────────────────────────────────────────────

#[test]
fn response_cache_round_trip() {
    let mut cache = ResponseCache::new();
    assert!(cache.is_empty());
    cache.insert("https://a.test/1".to_string(), Arc::new(b"one".to_vec()));
    cache.insert("https://a.test/2".to_string(), Arc::new(b"two".to_vec()));
    assert_eq!(cache.len(), 2);
    assert_eq!(
        cache.get("https://a.test/1").as_deref(),
        Some(&b"one".to_vec())
    );
    assert_eq!(
        cache.remove("https://a.test/2").as_deref(),
        Some(&b"two".to_vec())
    );
    assert_eq!(cache.len(), 1);
    cache.clear();
    assert!(cache.is_empty());
}

// ── IoLayer ────────────────────────────────────────────────────────

#[test]
fn io_layer_fetch_sync_resolves_data_urls_and_caches() {
    let mut layer: IoLayer<()> = IoLayer::new(());
    let url = "data:text/plain;base64,UGF3cw==";
    let first = layer.fetch_sync(url).unwrap();
    assert_eq!(
        first.as_deref().map(|v| v.as_slice()),
        Some(b"Paws".as_slice())
    );
    assert_eq!(layer.cache().len(), 1);
    let second = layer.fetch_sync(url).unwrap();
    assert_eq!(
        second.as_deref().map(|v| v.as_slice()),
        Some(b"Paws".as_slice())
    );
    assert_eq!(layer.cache().len(), 1);
}

#[test]
fn io_layer_fetch_sync_returns_none_for_network_urls() {
    let mut layer: IoLayer<()> = IoLayer::new(());
    let result = layer.fetch_sync("https://example.com/image.png").unwrap();
    assert!(
        result.is_none(),
        "network URLs are never resolvable via fetch_sync"
    );
    assert!(layer.cache().is_empty());
}

#[test]
fn io_layer_fetch_sync_surfaces_manual_cache_inserts() {
    let mut layer: IoLayer<()> = IoLayer::new(());
    let url = "https://example.com/image.png";
    layer
        .cache_mut()
        .insert(url.to_string(), Arc::new(b"cached".to_vec()));
    let result = layer.fetch_sync(url).unwrap();
    assert_eq!(
        result.as_deref().map(|v| v.as_slice()),
        Some(b"cached".as_slice()),
        "a cached network URL should be served synchronously"
    );
}

#[test]
fn io_layer_fetch_sync_propagates_data_url_decode_errors() {
    let mut layer: IoLayer<()> = IoLayer::new(());
    assert_eq!(
        layer.fetch_sync("data:image/png;base64,!!!!"),
        Err(IoError::DataUrlDecode)
    );
}

// ── Further cases ──────────────────────────────────────────────────

#[test]
fn decode_data_url_base64_marker_ignores_case_but_prefix_does_not() {
    assert_eq!(decode_data_url("data:text/plain;BASE64,UGF3cw==").unwrap(), b"Paws");
    assert!(matches!(
        decode_data_url("DATA:text/plain;base64,UGF3cw=="),
        Err(IoError::InvalidUrl(_))
    ));
}

#[test]
fn decode_data_url_without_comma_is_invalid() {
    assert!(matches!(
        decode_data_url("data:text/plain;base64"),
        Err(IoError::InvalidUrl(_))
    ));
}

#[test]
fn decode_data_url_requires_padded_groups() {
    assert_eq!(decode_data_url("data:;base64,TWE=").unwrap(), b"Ma");
    assert_eq!(decode_data_url("data:;base64,TWE"), Err(IoError::DataUrlDecode));
    assert_eq!(decode_data_url("data:;base64,TQ===="), Err(IoError::DataUrlDecode));
    assert_eq!(decode_data_url("data:;base64,").unwrap(), Vec::<u8>::new());
}

#[test]
fn classify_url_lowercases_other_schemes_and_takes_text_before_first_colon() {
    assert_eq!(
        UrlScheme::classify("FTP:x:y"),
        Ok(UrlScheme::Other("ftp".to_string()))
    );
    assert_eq!(UrlScheme::classify("HTTPS://A"), Ok(UrlScheme::Https));
}

#[test]
fn io_error_messages() {
    assert_eq!(
        IoError::InvalidUrl("x".to_string()).to_message(),
        "invalid URL: x"
    );
    assert_eq!(IoError::DataUrlDecode.to_message(), "malformed data: URL payload");
    assert_eq!(IoError::TimedOut.to_message(), "I/O operation timed out");
}

#[test]
fn fetch_sync_rejects_url_without_scheme() {
    let mut layer: IoLayer<()> = IoLayer::new(());
    assert!(matches!(
        layer.fetch_sync("no-scheme"),
        Err(IoError::InvalidUrl(_))
    ));
    assert!(layer.cache().is_empty());
}

#[test]
fn response_cache_insert_overwrites() {
    let mut cache = ResponseCache::default();
    cache.insert("u".to_string(), Arc::new(vec![1]));
    cache.insert("u".to_string(), Arc::new(vec![2]));
    assert_eq!(cache.len(), 1);
    assert_eq!(cache.get("u").as_deref(), Some(&vec![2]));
    assert!(cache.remove("missing").is_none());
}

#[test]
fn data_url_round_trip_ignores_whitespace_and_case() {
    // "Hello!" is "SGVsbG8h"; "Hi" is "SGk=" (one pad); "H" is "SA==" (two).
    assert_eq!(decode_data_url("data:text/plain;BASE64,SGVs\n bG8h").unwrap(), b"Hello!".to_vec());
    assert_eq!(decode_data_url("data:;Base64,S G k =").unwrap(), b"Hi".to_vec());
    assert_eq!(decode_data_url("data:x/y;base64,SA==\t").unwrap(), b"H".to_vec());
    assert_eq!(decode_data_url("data:;base64,").unwrap(), Vec::<u8>::new());
}
