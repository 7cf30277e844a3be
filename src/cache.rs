//! Freshness rules for the per-project cache record.

use vstd::prelude::*;

use crate::model::{version_tag_spec, ParsedSpec};
use crate::text::{copy_opt, opt_view, str_equal};

verus! {

/// Time-to-live of a cache record when none is given: one day.
pub const DEFAULT_TTL_SECONDS: u64 = 86400;

/// File name of the cache record inside a project directory.
pub const CACHE_FILE_NAME: &'static str = ".openapi-sync.cache.json";

/// File name of the implementation-state record inside a project directory.
pub const STATE_FILE_NAME: &'static str = ".openapi-sync.state.json";

/// Conditional-freshness headers of a remote document.
#[derive(Debug)]
pub struct HttpHeaders {
    pub etag: Option<String>,
    pub last_modified: Option<String>,
}

/// Cached HTTP freshness headers.
#[derive(Debug)]
pub struct HttpCacheInfo {
    pub etag: Option<String>,
    pub last_modified: Option<String>,
}

/// Cached modification time of a local document.
#[derive(Debug)]
pub struct LocalCacheInfo {
    pub mtime: Option<String>,
}

/// Condensed metadata, for status reports without parsing.
#[derive(Debug)]
pub struct CachedMeta {
    pub title: Option<String>,
    pub version: Option<String>,
    pub openapi_version: Option<String>,
    pub endpoint_count: usize,
    pub schema_count: usize,
}

/// One cache record.
#[derive(Debug)]
pub struct OasCache {
    pub version: String,
    /// When the document was last fetched (RFC 3339).
    pub last_fetch: String,
    pub spec_hash: String,
    pub source: String,
    pub ttl_seconds: u64,
    pub http_cache: HttpCacheInfo,
    pub local_cache: LocalCacheInfo,
    pub meta: CachedMeta,
}

/// What a lightweight existence probe of a remote document gave.
#[derive(Debug)]
pub enum ProbeOutcome {
    /// No HTTP client could be set up.
    ClientUnavailable,
    /// The request failed on the network.
    NetworkFailure,
    /// The server answered, with these freshness headers.
    Responded(HttpHeaders),
}

/// Seconds since the Unix epoch of an RFC 3339 timestamp, or `None` where
/// the text is no such timestamp.
pub uninterp spec fn rfc3339_seconds(s: Seq<char>) -> Option<i64>;

/// Relies on `chrono::DateTime::parse_from_rfc3339` and `DateTime::timestamp`:
/// the seconds since the epoch of the parsed time, or `None` on a parse error.
#[verifier::external_body]
fn parse_rfc3339_seconds(s: &str) -> (r: Option<i64>)
    ensures
        r == rfc3339_seconds(s@),
{
    chrono::DateTime::parse_from_rfc3339(s).ok().map(|d| d.timestamp())
}

/// Relies on `chrono::Utc::now` and `DateTime::timestamp`: the current time
/// in seconds since the epoch.
#[verifier::external_body]
fn now_seconds() -> (r: i64) {
    chrono::Utc::now().timestamp()
}

/// Relies on `chrono::Utc::now` and `DateTime::to_rfc3339`: the current time
/// as RFC 3339 text.
#[verifier::external_body]
fn now_rfc3339() -> (r: String) {
    chrono::Utc::now().to_rfc3339()
}

/// A record fetched at `last_fetch` with time-to-live `ttl` is expired at
/// time `now`: more than `ttl` seconds have passed, or `last_fetch` is no
/// timestamp.
pub open spec fn expired_spec(last_fetch: Seq<char>, ttl: u64, now: int) -> bool {
    match rfc3339_seconds(last_fetch) {
        Some(t) => now - t > ttl,
        None => true,
    }
}

/// A remote document is still fresh at `now` given the probe outcome.
pub open spec fn remote_valid_spec(cache: OasCache, now: int, probe: ProbeOutcome) -> bool {
    if expired_spec(cache.last_fetch@, cache.ttl_seconds, now) {
        false
    } else {
        match probe {
            ProbeOutcome::ClientUnavailable => false,
            ProbeOutcome::NetworkFailure => true,
            ProbeOutcome::Responded(h) => if h.etag.is_some() && cache.http_cache.etag.is_some() {
                opt_view(h.etag) == opt_view(cache.http_cache.etag)
            } else if h.last_modified.is_some() && cache.http_cache.last_modified.is_some() {
                opt_view(h.last_modified) == opt_view(cache.http_cache.last_modified)
            } else {
                true
            },
        }
    }
}

/// A local document is still fresh at `now` given its current modification
/// time (`None` where it could not be read).
pub open spec fn local_valid_spec(cache: OasCache, now: int, mtime: Option<Seq<char>>) -> bool {
    !expired_spec(cache.last_fetch@, cache.ttl_seconds, now) && mtime.is_some() && opt_view(
        cache.local_cache.mtime,
    ) == mtime
}

/// Whether the record is expired at time `now` (seconds since the epoch).
pub fn is_expired_at(cache: &OasCache, now: i64) -> (r: bool)
    ensures
        r == expired_spec(cache.last_fetch@, cache.ttl_seconds, now as int),
{
    match parse_rfc3339_seconds(cache.last_fetch.as_str()) {
        Some(t) => (now as i128) - (t as i128) > (cache.ttl_seconds as i128),
        None => true,
    }
}

/// Whether a remote document may be served from the cache at time `now`,
/// given what a lightweight probe of it gave. An expired record is never
/// valid. Within the time-to-live, a network failure trusts the cache; an
/// answer is compared by ETag where both sides have one, else by
/// Last-Modified, else trusted.
pub fn remote_cache_valid(cache: &OasCache, now: i64, probe: &ProbeOutcome) -> (r: bool)
    ensures
        r == remote_valid_spec(*cache, now as int, *probe),
{
    if is_expired_at(cache, now) {
        return false;
    }
    match probe {
        ProbeOutcome::ClientUnavailable => false,
        ProbeOutcome::NetworkFailure => true,
        ProbeOutcome::Responded(h) => {
            if let (Some(e), Some(c)) = (&h.etag, &cache.http_cache.etag) {
                return str_equal(e.as_str(), c.as_str());
            }
            if let (Some(l), Some(c)) = (&h.last_modified, &cache.http_cache.last_modified) {
                return str_equal(l.as_str(), c.as_str());
            }
            true
        },
    }
}

/// Whether a local document may be served from the cache at time `now`,
/// given its current modification time (`None` where it could not be
/// read): not expired, and the time equals the recorded one.
pub fn local_cache_valid(cache: &OasCache, now: i64, mtime: &Option<String>) -> (r: bool)
    ensures
        r == local_valid_spec(*cache, now as int, opt_view(*mtime)),
{
    if is_expired_at(cache, now) {
        return false;
    }
    match (mtime, &cache.local_cache.mtime) {
        (Some(m), Some(c)) => str_equal(m.as_str(), c.as_str()),
        _ => false,
    }
}

/// A cache record for a document just parsed.
pub open spec fn fresh_record(
    c: OasCache,
    spec: &ParsedSpec,
    source: Seq<char>,
    ttl: Option<u64>,
    headers: Option<&HttpHeaders>,
    mtime: Option<Seq<char>>,
) -> bool {
    &&& c.version@ == "1.0.0"@
    &&& c.spec_hash@ == spec.spec_hash@
    &&& c.source@ == source
    &&& c.ttl_seconds == match ttl {
        Some(t) => t,
        None => DEFAULT_TTL_SECONDS,
    }
    &&& opt_view(c.http_cache.etag) == match headers {
        Some(h) => opt_view(h.etag),
        None => None,
    }
    &&& opt_view(c.http_cache.last_modified) == match headers {
        Some(h) => opt_view(h.last_modified),
        None => None,
    }
    &&& opt_view(c.local_cache.mtime) == mtime
    &&& opt_view(c.meta.title) == Some(spec.metadata.title@)
    &&& opt_view(c.meta.version) == Some(spec.metadata.version@)
    &&& opt_view(c.meta.openapi_version) == Some(version_tag_spec(spec.metadata.openapi_version))
    &&& c.meta.endpoint_count == spec.metadata.endpoint_count
    &&& c.meta.schema_count == spec.metadata.schema_count
}

/// Builds the record for a document just parsed, fetched at `last_fetch`.
pub fn build_cache_record(
    spec: &ParsedSpec,
    source: &str,
    ttl_seconds: Option<u64>,
    http_headers: Option<&HttpHeaders>,
    local_mtime: Option<String>,
    last_fetch: String,
) -> (c: OasCache)
    ensures
        fresh_record(c, spec, source@, ttl_seconds, http_headers, opt_view(local_mtime)),
        c.last_fetch@ == last_fetch@,
{
    let (etag, last_modified) = match http_headers {
        Some(h) => (copy_opt(&h.etag), copy_opt(&h.last_modified)),
        None => (None, None),
    };
    OasCache {
        version: String::from_str("1.0.0"),
        last_fetch,
        spec_hash: spec.spec_hash.clone(),
        source: String::from_str(source),
        ttl_seconds: match ttl_seconds {
            Some(t) => t,
            None => DEFAULT_TTL_SECONDS,
        },
        http_cache: HttpCacheInfo { etag, last_modified },
        local_cache: LocalCacheInfo { mtime: local_mtime },
        meta: CachedMeta {
            title: Some(spec.metadata.title.clone()),
            version: Some(spec.metadata.version.clone()),
            openapi_version: Some(String::from_str(spec.metadata.openapi_version.tag())),
            endpoint_count: spec.metadata.endpoint_count,
            schema_count: spec.metadata.schema_count,
        },
    }
}

/// Cache storage of one project directory.
#[derive(Debug)]
pub struct CacheManager {
    project_dir: String,
}

/// `name` inside directory `dir`: joined by one '/', unless `dir` is empty
/// or already ends with '/'.
pub open spec fn join_spec(dir: Seq<char>, name: Seq<char>) -> Seq<char> {
    if dir.len() == 0 {
        name
    } else if dir.last() == '/' {
        dir + name
    } else {
        dir + "/"@ + name
    }
}

fn join_path(dir: &str, name: &str) -> (r: String)
    ensures
        r@ == join_spec(dir@, name@),
{
    let n = dir.unicode_len();
    if n == 0 {
        return String::from_str(name);
    }
    let mut r = String::from_str(dir);
    if dir.get_char(n - 1) != '/' {
        r.append("/");
    }
    r.append(name);
    r
}

impl CacheManager {
    pub closed spec fn dir(&self) -> Seq<char> {
        self.project_dir@
    }

    pub fn new(project_dir: &str) -> (m: Self)
        ensures
            m.dir() == project_dir@,
    {
        CacheManager { project_dir: String::from_str(project_dir) }
    }

    /// Path of the cache record.
    pub fn cache_path(&self) -> (r: String)
        ensures
            r@ == join_spec(self.dir(), CACHE_FILE_NAME@),
    {
        join_path(self.project_dir.as_str(), CACHE_FILE_NAME)
    }

    /// Path of the implementation-state record.
    pub fn state_path(&self) -> (r: String)
        ensures
            r@ == join_spec(self.dir(), STATE_FILE_NAME@),
    {
        join_path(self.project_dir.as_str(), STATE_FILE_NAME)
    }

    /// A record for a document just parsed, fetched now, with no freshness
    /// signal besides the time-to-live.
    pub fn create_cache(&self, spec: &ParsedSpec, source: &str, ttl_seconds: Option<u64>) -> (c: OasCache)
        ensures
            fresh_record(c, spec, source@, ttl_seconds, None, None),
    {
        self.create_cache_with_headers(spec, source, ttl_seconds, None, None)
    }

    /// A record for a document just parsed, fetched now, with the freshness
    /// headers that came with it (remote) and the modification time of the
    /// file (local), where known.
    pub fn create_cache_with_headers(
        &self,
        spec: &ParsedSpec,
        source: &str,
        ttl_seconds: Option<u64>,
        http_headers: Option<&HttpHeaders>,
        local_mtime: Option<String>,
    ) -> (c: OasCache)
        ensures
            fresh_record(c, spec, source@, ttl_seconds, http_headers, opt_view(local_mtime)),
    {
        build_cache_record(spec, source, ttl_seconds, http_headers, local_mtime, now_rfc3339())
    }

    /// Whether the record is expired now. A record whose fetch time is no
    /// timestamp is always expired.
    pub fn is_cache_expired(&self, cache: &OasCache) -> (r: bool)
        ensures
            rfc3339_seconds(cache.last_fetch@) is None ==> r,
    {
        is_expired_at(cache, now_seconds())
    }

    /// Whether a local document may be served from the cache now, given its
    /// current modification time. Never where that time is unknown.
    pub fn check_local_cache(&self, mtime: &Option<String>, cache: &OasCache) -> (r: bool)
        ensures
            r ==> mtime.is_some() && opt_view(*mtime) == opt_view(cache.local_cache.mtime),
            rfc3339_seconds(cache.last_fetch@) is None ==> !r,
    {
        local_cache_valid(cache, now_seconds(), mtime)
    }

    /// Whether a remote document may be served from the cache now, given
    /// what a probe of it gave. Never where the record is expired.
    pub fn check_remote_cache(&self, probe: &ProbeOutcome, cache: &OasCache) -> (r: bool)
        ensures
            rfc3339_seconds(cache.last_fetch@) is None ==> !r,
            probe is ClientUnavailable ==> !r,
    {
        remote_cache_valid(cache, now_seconds(), probe)
    }
}

/// Records the freshness headers of a new fetch at `now` (RFC 3339): each
/// header given replaces the cached one; absent ones leave it.
pub fn update_http_cache_info(cache: &mut OasCache, headers: &HttpHeaders, now: String)
    ensures
        final(cache).last_fetch@ == now@,
        opt_view(final(cache).http_cache.etag) == if headers.etag.is_some() {
            opt_view(headers.etag)
        } else {
            opt_view(old(cache).http_cache.etag)
        },
        opt_view(final(cache).http_cache.last_modified) == if headers.last_modified.is_some() {
            opt_view(headers.last_modified)
        } else {
            opt_view(old(cache).http_cache.last_modified)
        },
        final(cache).local_cache == old(cache).local_cache,
        final(cache).spec_hash == old(cache).spec_hash,
        final(cache).ttl_seconds == old(cache).ttl_seconds,
{
    if headers.etag.is_some() {
        cache.http_cache.etag = copy_opt(&headers.etag);
    }
    if headers.last_modified.is_some() {
        cache.http_cache.last_modified = copy_opt(&headers.last_modified);
    }
    cache.last_fetch = now;
}

/// Records the modification time of a local document read at `now`.
pub fn update_local_cache_info(cache: &mut OasCache, mtime: Option<String>, now: String)
    ensures
        final(cache).last_fetch@ == now@,
        opt_view(final(cache).local_cache.mtime) == if mtime.is_some() {
            opt_view(mtime)
        } else {
            opt_view(old(cache).local_cache.mtime)
        },
        final(cache).http_cache == old(cache).http_cache,
        final(cache).spec_hash == old(cache).spec_hash,
        final(cache).ttl_seconds == old(cache).ttl_seconds,
{
    if mtime.is_some() {
        cache.local_cache.mtime = mtime;
    }
    cache.last_fetch = now;
}

/// A record fetched exactly `ttl` seconds ago is not expired; one fetched
/// a second earlier is.
pub proof fn lemma_ttl_boundary(last_fetch: Seq<char>, ttl: u64, fetched: i64)
    requires
        rfc3339_seconds(last_fetch) == Some(fetched),
    ensures
        !expired_spec(last_fetch, ttl, fetched + ttl),
        expired_spec(last_fetch, ttl, fetched + ttl + 1),
{
}

/// Within the time-to-live, a local record is valid exactly when the
/// document's modification time is the recorded one: a changed time
/// invalidates it.
pub proof fn lemma_local_validity(cache: OasCache, now: int, mtime: Seq<char>)
    requires
        !expired_spec(cache.last_fetch@, cache.ttl_seconds, now),
    ensures
        local_valid_spec(cache, now, Some(mtime)) <==> opt_view(cache.local_cache.mtime) == Some(mtime),
{
}

} // verus!
