use oas::cache::{
    is_expired_at, local_cache_valid, remote_cache_valid, update_http_cache_info, CacheManager, CachedMeta,
    HttpCacheInfo, HttpHeaders, LocalCacheInfo, OasCache, ProbeOutcome, DEFAULT_TTL_SECONDS,
};
use oas::error::OasError;
use oas::model::{OpenApiVersion, ParsedSpec, SpecMetadata};

// 2024-01-01T00:00:00Z
const T0: i64 = 1704067200;

fn cache(ttl: u64, etag: Option<&str>, lm: Option<&str>, mtime: Option<&str>) -> OasCache {
    OasCache {
        version: "1.0.0".to_string(),
        last_fetch: "2024-01-01T00:00:00Z".to_string(),
        spec_hash: "h".to_string(),
        source: "s".to_string(),
        ttl_seconds: ttl,
        http_cache: HttpCacheInfo { etag: etag.map(String::from), last_modified: lm.map(String::from) },
        local_cache: LocalCacheInfo { mtime: mtime.map(String::from) },
        meta: CachedMeta { title: None, version: None, openapi_version: None, endpoint_count: 0, schema_count: 0 },
    }
}

fn headers(etag: Option<&str>, lm: Option<&str>) -> ProbeOutcome {
    ProbeOutcome::Responded(HttpHeaders { etag: etag.map(String::from), last_modified: lm.map(String::from) })
}

#[test]
fn ttl_boundary() {
    let c = cache(100, None, None, None);
    assert!(!is_expired_at(&c, T0 + 100));
    assert!(is_expired_at(&c, T0 + 101));
    assert!(!is_expired_at(&c, T0));
}

#[test]
fn unparsable_timestamp_is_expired() {
    let mut c = cache(100, None, None, None);
    c.last_fetch = "yesterday".to_string();
    assert!(is_expired_at(&c, T0));
    assert!(CacheManager::new("/tmp").is_cache_expired(&c));
}

#[test]
fn local_validity_follows_mtime() {
    let c = cache(100, None, None, Some("2024-01-01T00:00:00+00:00"));
    assert!(local_cache_valid(&c, T0 + 10, &Some("2024-01-01T00:00:00+00:00".to_string())));
    assert!(!local_cache_valid(&c, T0 + 10, &Some("2024-01-02T00:00:00+00:00".to_string())));
    assert!(!local_cache_valid(&c, T0 + 10, &None));
    assert!(!local_cache_valid(&c, T0 + 101, &Some("2024-01-01T00:00:00+00:00".to_string())));
}

#[test]
fn remote_validity_rules() {
    let c = cache(100, Some("\"v1\""), Some("Mon"), None);
    assert!(remote_cache_valid(&c, T0 + 1, &ProbeOutcome::NetworkFailure));
    assert!(!remote_cache_valid(&c, T0 + 1, &ProbeOutcome::ClientUnavailable));
    assert!(remote_cache_valid(&c, T0 + 1, &headers(Some("\"v1\""), Some("Tue"))));
    assert!(!remote_cache_valid(&c, T0 + 1, &headers(Some("\"v2\""), Some("Mon"))));
    assert!(remote_cache_valid(&c, T0 + 1, &headers(None, Some("Mon"))));
    assert!(!remote_cache_valid(&c, T0 + 1, &headers(None, Some("Tue"))));
    assert!(remote_cache_valid(&c, T0 + 1, &headers(None, None)));
    assert!(!remote_cache_valid(&c, T0 + 500, &ProbeOutcome::NetworkFailure));
}

#[test]
fn create_cache_captures_spec() {
    let spec = ParsedSpec {
        metadata: SpecMetadata {
            title: "Pets".to_string(),
            version: "1.2".to_string(),
            description: None,
            openapi_version: OpenApiVersion::Swagger2,
            endpoint_count: 3,
            schema_count: 2,
            tag_count: 0,
        },
        endpoints: vec![],
        schemas: vec![],
        tags: vec![],
        spec_hash: "abcd".to_string(),
        source: "pets.yaml".to_string(),
    };
    let m = CacheManager::new("proj");
    let h = HttpHeaders { etag: Some("e".to_string()), last_modified: None };
    let c = m.create_cache_with_headers(&spec, "pets.yaml", None, Some(&h), Some("2024-01-01T00:00:00+00:00".to_string()));
    assert_eq!(c.local_cache.mtime, Some("2024-01-01T00:00:00+00:00".to_string()));
    assert_eq!(c.ttl_seconds, DEFAULT_TTL_SECONDS);
    assert_eq!(c.spec_hash, "abcd");
    assert_eq!(c.http_cache.etag, Some("e".to_string()));
    assert_eq!(c.meta.openapi_version, Some("2.0".to_string()));
    assert_eq!(c.meta.endpoint_count, 3);
    assert!(!m.is_cache_expired(&c));
    let c2 = m.create_cache(&spec, "pets.yaml", Some(60));
    assert_eq!(c2.ttl_seconds, 60);
    assert_eq!(c2.http_cache.etag, None);
    assert_eq!(c2.local_cache.mtime, None);
    assert_eq!(m.cache_path(), "proj/.openapi-sync.cache.json");
    assert_eq!(CacheManager::new("proj/").state_path(), "proj/.openapi-sync.state.json");
}

#[test]
fn header_update_keeps_absent_ones() {
    let mut c = cache(100, Some("a"), Some("Mon"), None);
    update_http_cache_info(&mut c, &HttpHeaders { etag: Some("b".to_string()), last_modified: None }, "now".to_string());
    assert_eq!(c.http_cache.etag, Some("b".to_string()));
    assert_eq!(c.http_cache.last_modified, Some("Mon".to_string()));
    assert_eq!(c.last_fetch, "now");
}

#[test]
fn error_codes_and_recoverability() {
    assert_eq!(OasError::ConnectionFailed("x".to_string()).code(), "E101");
    assert_eq!(OasError::CacheNotFound.code(), "E601");
    assert!(!OasError::PathTraversal("..".to_string()).is_recoverable());
    assert!(OasError::Timeout(5).is_recoverable());
    assert_eq!(OasError::FileNotFound("a.yaml".to_string()).message(), "E301: File not found: a.yaml");
    assert_eq!(OasError::Timeout(30000).message(), "E102: Request timeout after 30000ms");
    assert_eq!(
        OasError::HttpError { status: 404, message: "404 Not Found".to_string() }.message(),
        "E103: HTTP error 404: 404 Not Found"
    );
    assert_eq!(OasError::Timeout(0).message(), "E102: Request timeout after 0ms");
}
