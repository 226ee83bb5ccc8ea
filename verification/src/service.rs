//! The API client's decision layer: cache keys, request shapes, and what
//! to do with each outcome. The surrounding application performs the
//! actual transport: it asks for a request description, carries it out,
//! and hands back the outcome; everything decided about caching and
//! response shape is here.
use crate::json::field_of;
use crate::json::wf_json;
use crate::json::Json;
use crate::json::JsonValue;
use crate::store::live;
use crate::store::spec_get_post;
use crate::store::spec_get_writes;
use crate::store::spec_new_entry;
use crate::store::DiskCache;
use crate::text::dec_digits;
use crate::text::push_digits;
use vstd::prelude::*;
use vstd::string::StringExecFns;

verus! {

/// Milliseconds in the seven days a search result stays cached.
pub const SEARCH_TTL_MS: u64 = 7 * 24 * 3600 * 1000;

/// Milliseconds in the fifteen days a match stays cached after each view.
pub const MATCH_TTL_MS: u64 = 15 * 24 * 3600 * 1000;

/// Seconds the transport waits for a response before giving up.
pub const REQUEST_TIMEOUT_SECS: u64 = 15;

/// Relies on std's `SystemTime::now` and `duration_since(UNIX_EPOCH)`:
/// the wall clock, as milliseconds since the epoch. Nothing can be
/// promised of a clock reading.
#[verifier::external_body]
pub fn now_millis() -> (t: u64) {
    std::time::SystemTime::now().duration_since(std::time::UNIX_EPOCH).unwrap_or_default()
        .as_millis() as u64
}

/// The static client identity header sent with every request.
pub fn user_agent() -> (s: &'static str)
    ensures
        s@
            == "Mozilla/5.0 (Windows NT 10.0; Win64; x64) AppleWebKit/537.36 (KHTML, like Gecko) Chrome/139.0.0.0 Safari/537.36"@,
{
    "Mozilla/5.0 (Windows NT 10.0; Win64; x64) AppleWebKit/537.36 (KHTML, like Gecko) Chrome/139.0.0.0 Safari/537.36"
}

/// The fixed host every request goes to, and the path appended to it.
pub open spec fn url_of(path: Seq<char>) -> Seq<char> {
    "https://op.gg/supervive"@ + path
}

/// Builds the address of an endpoint under the fixed host.
pub fn get_url(path: &str) -> (u: String)
    ensures
        u@ == url_of(path@),
{
    let mut u = String::from_str("https://op.gg/supervive");
    u.append(path);
    u
}

/// One HTTP GET request, as the application is asked to perform it: an
/// address, flat query parameters, and the uniform timeout.
pub struct Request {
    pub url: String,
    pub params: Vec<(String, String)>,
    pub timeout_secs: u64,
}

/// Why a fetch operation failed.
#[derive(Debug)]
pub enum ApiError {
    /// Connection or timeout failure before a response was obtained.
    Network(String),
    /// A response arrived whose status does not indicate success.
    HttpStatus(u16),
    /// The response could not be read as a document of the expected shape.
    Protocol,
}

/// What the transport came back with: either a failure before any
/// response, or a status code with the response body read as a document
/// (absent when the body was not a valid document).
pub enum FetchOutcome {
    Transport(String),
    Response { status: u16, body: Option<JsonValue> },
}

/// A status that indicates success.
pub open spec fn is_success(status: u16) -> bool {
    200 <= status < 300
}

/// The cache key for a player search: the query verbatim, case-sensitive.
pub open spec fn search_key_spec(query: Seq<char>) -> Seq<char> {
    "search:"@ + query
}

/// Builds the cache key for a player search.
pub fn search_key(query: &str) -> (k: String)
    ensures
        k@ == search_key_spec(query@),
{
    let mut k = String::from_str("search:");
    k.append(query);
    k
}

/// The cache key for a match: platform and match id.
pub open spec fn match_key_spec(platform: Seq<char>, match_id: Seq<char>) -> Seq<char> {
    "match:"@ + platform + ":"@ + match_id
}

/// Builds the cache key for a match.
pub fn match_key(platform: &str, match_id: &str) -> (k: String)
    ensures
        k@ == match_key_spec(platform@, match_id@),
{
    let mut k = String::from_str("match:");
    k.append(platform);
    k.append(":");
    k.append(match_id);
    k
}

/// Distinct queries use distinct cache keys.
pub proof fn lemma_search_keys_distinct(q1: Seq<char>, q2: Seq<char>)
    requires
        q1 != q2,
    ensures
        search_key_spec(q1) != search_key_spec(q2),
{
    reveal_strlit("search:");
    if search_key_spec(q1) == search_key_spec(q2) {
        assert(search_key_spec(q1).skip(7) =~= q1);
        assert(search_key_spec(q2).skip(7) =~= q2);
    }
}

/// Matches on different platforms, or with different ids, use distinct
/// cache keys, as long as a platform name carries no separator of its
/// own.
pub proof fn lemma_match_keys_distinct(
    p1: Seq<char>,
    i1: Seq<char>,
    p2: Seq<char>,
    i2: Seq<char>,
)
    requires
        forall|j: int| 0 <= j < p1.len() ==> p1[j] != ':',
        forall|j: int| 0 <= j < p2.len() ==> p2[j] != ':',
        p1 != p2 || i1 != i2,
    ensures
        match_key_spec(p1, i1) != match_key_spec(p2, i2),
{
    reveal_strlit("match:");
    reveal_strlit(":");
    if match_key_spec(p1, i1) == match_key_spec(p2, i2) {
        let k = match_key_spec(p1, i1);
        let l1 = p1.len() as int;
        let l2 = p2.len() as int;
        assert(k[6 + l1] == ':') by {
            assert((":"@ + i1)[0] == ':');
        }
        assert(k[6 + l2] == ':') by {
            assert((":"@ + i2)[0] == ':');
        }
        assert(l1 == l2) by {
            if l1 < l2 {
                assert(k[6 + l1] == p2[l1]);
            }
            if l2 < l1 {
                assert(k[6 + l2] == p1[l2]);
            }
        }
        assert(p1 =~= p2) by {
            assert forall|j: int| 0 <= j < p1.len() implies p1[j] == p2[j] by {
                assert(k[6 + j] == p1[j]);
                assert(k[6 + j] == p2[j]);
            }
        }
        assert(i1 =~= i2) by {
            assert(i1.len() == k.len() - 7 - l1);
            assert(i2.len() == k.len() - 7 - l2);
            assert forall|j: int| 0 <= j < i1.len() implies i1[j] == i2[j] by {
                assert(("match:"@ + p1 + ":"@).len() == 7 + l1);
                assert(("match:"@ + p2 + ":"@).len() == 7 + l2);
                assert(k == ("match:"@ + p1 + ":"@) + i1);
                assert(match_key_spec(p2, i2) == ("match:"@ + p2 + ":"@) + i2);
                assert(k[7 + l1 + j] == i1[j]);
                assert(match_key_spec(p2, i2)[7 + l2 + j] == i2[j]);
            }
        }
    }
}

/// A player id with the punctuation separator removed.
pub open spec fn strip_dashes(s: Seq<char>) -> Seq<char>
    decreases s.len(),
{
    if s.len() == 0 {
        Seq::empty()
    } else if s.last() == '-' {
        strip_dashes(s.drop_last())
    } else {
        strip_dashes(s.drop_last()).push(s.last())
    }
}

/// Removes the punctuation separator from a player id before it is
/// embedded in a request path.
pub fn normalize_player_id(id: &str) -> (r: String)
    ensures
        r@ == strip_dashes(id@),
{
    let n = id.unicode_len();
    let mut out = String::new();
    let mut i: usize = 0;
    proof {
        assert(id@.take(0) =~= Seq::<char>::empty());
    }
    while i < n
        invariant
            i <= n,
            n == id@.len(),
            out@ == strip_dashes(id@.take(i as int)),
        decreases n - i,
    {
        let c = id.get_char(i);
        proof {
            assert(id@.take(i + 1).drop_last() =~= id@.take(i as int));
            assert(id@.take(i + 1).last() == c);
        }
        if c != '-' {
            crate::text::push_char(&mut out, c);
        }
        i += 1;
    }
    proof {
        assert(id@.take(n as int) =~= id@);
    }
    out
}

/// The decimal rendering of a page number, sign included.
pub open spec fn int_text(n: int) -> Seq<char> {
    if n >= 0 {
        dec_digits(n as nat)
    } else {
        seq!['-'] + dec_digits((-n) as nat)
    }
}

/// Renders a page number.
pub fn int_string(n: i32) -> (r: String)
    ensures
        r@ == int_text(n as int),
{
    let mut out = String::new();
    if n >= 0 {
        push_digits(&mut out, n as u64);
    } else {
        crate::text::push_char(&mut out, '-');
        let wide: i64 = n as i64;
        let magnitude: u64 = (-wide) as u64;
        push_digits(&mut out, magnitude);
        proof {
            assert(out@ =~= int_text(n as int));
        }
    }
    out
}

/// What the existence check reads from a response document: a boolean
/// under the first of two accepted field names — a known upstream
/// inconsistency, kept as an explicit ordered fallback.
pub open spec fn exists_of(doc: Json) -> Option<bool> {
    match field_of(doc, "exists"@) {
        Some(Json::Bool(b)) => Some(b),
        _ => match field_of(doc, "Exists"@) {
            Some(Json::Bool(b)) => Some(b),
            _ => None,
        },
    }
}

/// Reads the existence flag out of a response document, trying the two
/// accepted field names in order.
pub fn read_exists_field(doc: &JsonValue) -> (r: Option<bool>)
    ensures
        r == exists_of(doc@),
{
    let lower = doc.get_field("exists");
    match lower {
        Some(v) => match v.as_bool() {
            Some(b) => Some(b),
            None => read_exists_fallback(doc),
        },
        None => read_exists_fallback(doc),
    }
}

/// The second half of the ordered fallback: the capitalised field name.
fn read_exists_fallback(doc: &JsonValue) -> (r: Option<bool>)
    requires
        !(field_of(doc@, "exists"@) matches Some(b) && b is Bool),
    ensures
        r == exists_of(doc@),
{
    let upper = doc.get_field("Exists");
    match upper {
        Some(v) => v.as_bool(),
        None => None,
    }
}

/// The API client: a cache store and, per endpoint, the policy of what to
/// cache and for how long. The application owns one of these, performs
/// the requests it describes, and must serialize concurrent use.
pub struct SuperviveService {
    pub cache: DiskCache,
}

impl SuperviveService {
    /// A service with an empty cache.
    pub fn new() -> (s: SuperviveService)
        ensures
            s.cache.inv(),
            s.cache@ == Map::<Seq<char>, crate::store::EntryModel>::empty(),
            !s.cache.dirty_flag(),
    {
        SuperviveService { cache: DiskCache::new() }
    }

    /// A service around a cache reconstructed from the backing file.
    pub fn with_cache(cache: DiskCache) -> (s: SuperviveService)
        ensures
            s.cache == cache,
    {
        SuperviveService { cache }
    }

    /// The request that checks whether a player exists. Never cached:
    /// existence can change quickly.
    pub fn check_player_exists_request(platform: &str, unique_display_name: &str) -> (r: Request)
        ensures
            r.url@ == url_of("/api/players/check"@),
            r.params@.len() == 2,
            r.params@[0].0@ == "platform"@ && r.params@[0].1@ == platform@,
            r.params@[1].0@ == "uniqueDisplayName"@ && r.params@[1].1@ == unique_display_name@,
            r.timeout_secs == REQUEST_TIMEOUT_SECS,
    {
        let url = get_url("/api/players/check");
        let mut params: Vec<(String, String)> = Vec::new();
        params.push((String::from_str("platform"), String::from_str(platform)));
        params.push((String::from_str("uniqueDisplayName"), String::from_str(unique_display_name)));
        Request { url, params, timeout_secs: REQUEST_TIMEOUT_SECS }
    }

    /// What the existence check returns for each outcome: the boolean
    /// existence field on success, and otherwise exactly which failure
    /// occurred. No outcome touches the cache.
    pub fn check_player_exists_finish(outcome: FetchOutcome) -> (r: Result<bool, ApiError>)
        ensures
            match outcome {
                FetchOutcome::Transport(m) => r == Err::<bool, ApiError>(ApiError::Network(m)),
                FetchOutcome::Response { status, body } => {
                    if !is_success(status) {
                        r == Err::<bool, ApiError>(ApiError::HttpStatus(status))
                    } else {
                        match body {
                            None => r == Err::<bool, ApiError>(ApiError::Protocol),
                            Some(doc) => match exists_of(doc@) {
                                Some(b) => r == Ok::<bool, ApiError>(b),
                                None => r == Err::<bool, ApiError>(ApiError::Protocol),
                            },
                        }
                    }
                },
            },
    {
        match outcome {
            FetchOutcome::Transport(m) => Err(ApiError::Network(m)),
            FetchOutcome::Response { status, body } => {
                if !(200 <= status && status < 300) {
                    return Err(ApiError::HttpStatus(status));
                }
                match body {
                    None => Err(ApiError::Protocol),
                    Some(doc) => match read_exists_field(&doc) {
                        Some(b) => Ok(b),
                        None => Err(ApiError::Protocol),
                    },
                }
            },
        }
    }

    /// The cached side of a player search: a hit returns the stored
    /// document with zero network activity. Search entries do not slide.
    pub fn search_players_cached(&mut self, query: &str, now_ms: u64) -> (r: Option<JsonValue>)
        requires
            old(self).cache.inv(),
        ensures
            final(self).cache.inv(),
            r is Some <==> live(old(self).cache@, search_key_spec(query@), now_ms),
            (r matches Some(v) ==> v@ == old(self).cache@[search_key_spec(query@)].value),
            final(self).cache@ == spec_get_post(old(self).cache@, search_key_spec(query@), now_ms),
            final(self).cache.dirty_flag() == (old(self).cache.dirty_flag() || spec_get_writes(
                old(self).cache@,
                search_key_spec(query@),
                now_ms,
            )),
    {
        let key = search_key(query);
        self.cache.get(key.as_str(), now_ms)
    }

    /// The request that searches for players.
    pub fn search_players_request(query: &str) -> (r: Request)
        ensures
            r.url@ == url_of("/api/players/search"@),
            r.params@.len() == 1,
            r.params@[0].0@ == "query"@ && r.params@[0].1@ == query@,
            r.timeout_secs == REQUEST_TIMEOUT_SECS,
    {
        let url = get_url("/api/players/search");
        let mut params: Vec<(String, String)> = Vec::new();
        params.push((String::from_str("query"), String::from_str(query)));
        Request { url, params, timeout_secs: REQUEST_TIMEOUT_SECS }
    }

    /// What a player search does with each outcome after a miss: on
    /// success, the response body is stored verbatim under the search key
    /// for seven days, non-sliding, and returned; any failure leaves the
    /// cache exactly as it was.
    pub fn search_players_finish(&mut self, query: &str, outcome: FetchOutcome, now_ms: u64) -> (r:
        Result<JsonValue, ApiError>)
        requires
            old(self).cache.inv(),
        ensures
            final(self).cache.inv(),
            r is Err ==> final(self).cache@ == old(self).cache@ && final(self).cache.dirty_flag()
                == old(self).cache.dirty_flag() && final(self).cache.entries_view() == old(
                self,
            ).cache.entries_view(),
            match outcome {
                FetchOutcome::Transport(m) => r == Err::<JsonValue, ApiError>(
                    ApiError::Network(m),
                ),
                FetchOutcome::Response { status, body } => {
                    if !is_success(status) {
                        r == Err::<JsonValue, ApiError>(ApiError::HttpStatus(status))
                    } else {
                        match body {
                            None => r == Err::<JsonValue, ApiError>(ApiError::Protocol),
                            Some(doc) => {
                                if wf_json(doc@) {
                                    &&& r matches Ok(given) && given@ == doc@
                                    &&& final(self).cache@ == old(self).cache@.insert(
                                        search_key_spec(query@),
                                        spec_new_entry(doc@, SEARCH_TTL_MS, false, now_ms),
                                    )
                                    &&& final(self).cache.dirty_flag()
                                } else {
                                    r == Err::<JsonValue, ApiError>(ApiError::Protocol)
                                }
                            },
                        }
                    }
                },
            },
    {
        match outcome {
            FetchOutcome::Transport(m) => Err(ApiError::Network(m)),
            FetchOutcome::Response { status, body } => {
                if !(200 <= status && status < 300) {
                    return Err(ApiError::HttpStatus(status));
                }
                match body {
                    None => Err(ApiError::Protocol),
                    Some(doc) => {
                        if !doc.well_formed() {
                            return Err(ApiError::Protocol);
                        }
                        let stored = doc.duplicate();
                        let key = search_key(query);
                        self.cache.set(key, stored, SEARCH_TTL_MS, false, now_ms);
                        Ok(doc)
                    },
                }
            },
        }
    }

    /// The cached side of a match lookup: a hit returns the stored
    /// document and, because match entries slide, extends its life by
    /// fifteen days from the moment of the hit.
    pub fn get_match_cached(&mut self, platform: &str, match_id: &str, now_ms: u64) -> (r: Option<
        JsonValue,
    >)
        requires
            old(self).cache.inv(),
        ensures
            final(self).cache.inv(),
            r is Some <==> live(old(self).cache@, match_key_spec(platform@, match_id@), now_ms),
            (r matches Some(v) ==> v@ == old(self).cache@[match_key_spec(
                platform@,
                match_id@,
            )].value),
            final(self).cache@ == spec_get_post(
                old(self).cache@,
                match_key_spec(platform@, match_id@),
                now_ms,
            ),
            final(self).cache.dirty_flag() == (old(self).cache.dirty_flag() || spec_get_writes(
                old(self).cache@,
                match_key_spec(platform@, match_id@),
                now_ms,
            )),
    {
        let key = match_key(platform, match_id);
        self.cache.get(key.as_str(), now_ms)
    }

    /// The request that fetches one match, its id embedded in the path.
    pub fn get_match_request(platform: &str, match_id: &str) -> (r: Request)
        ensures
            r.url@ == url_of("/api/matches/"@ + platform@ + "-"@ + match_id@),
            r.params@.len() == 0,
            r.timeout_secs == REQUEST_TIMEOUT_SECS,
    {
        let mut path = String::from_str("/api/matches/");
        path.append(platform);
        path.append("-");
        path.append(match_id);
        let url = get_url(path.as_str());
        Request { url, params: Vec::new(), timeout_secs: REQUEST_TIMEOUT_SECS }
    }

    /// What a match lookup does with each outcome after a miss: on
    /// success, the response body is stored verbatim under the match key
    /// for fifteen days, sliding, and returned; any failure leaves the
    /// cache exactly as it was.
    pub fn get_match_finish(
        &mut self,
        platform: &str,
        match_id: &str,
        outcome: FetchOutcome,
        now_ms: u64,
    ) -> (r: Result<JsonValue, ApiError>)
        requires
            old(self).cache.inv(),
        ensures
            final(self).cache.inv(),
            r is Err ==> final(self).cache@ == old(self).cache@ && final(self).cache.dirty_flag()
                == old(self).cache.dirty_flag() && final(self).cache.entries_view() == old(
                self,
            ).cache.entries_view(),
            match outcome {
                FetchOutcome::Transport(m) => r == Err::<JsonValue, ApiError>(
                    ApiError::Network(m),
                ),
                FetchOutcome::Response { status, body } => {
                    if !is_success(status) {
                        r == Err::<JsonValue, ApiError>(ApiError::HttpStatus(status))
                    } else {
                        match body {
                            None => r == Err::<JsonValue, ApiError>(ApiError::Protocol),
                            Some(doc) => {
                                if wf_json(doc@) {
                                    &&& r matches Ok(given) && given@ == doc@
                                    &&& final(self).cache@ == old(self).cache@.insert(
                                        match_key_spec(platform@, match_id@),
                                        spec_new_entry(doc@, MATCH_TTL_MS, true, now_ms),
                                    )
                                    &&& final(self).cache.dirty_flag()
                                } else {
                                    r == Err::<JsonValue, ApiError>(ApiError::Protocol)
                                }
                            },
                        }
                    }
                },
            },
    {
        match outcome {
            FetchOutcome::Transport(m) => Err(ApiError::Network(m)),
            FetchOutcome::Response { status, body } => {
                if !(200 <= status && status < 300) {
                    return Err(ApiError::HttpStatus(status));
                }
                match body {
                    None => Err(ApiError::Protocol),
                    Some(doc) => {
                        if !doc.well_formed() {
                            return Err(ApiError::Protocol);
                        }
                        let stored = doc.duplicate();
                        let key = match_key(platform, match_id);
                        self.cache.set(key, stored, MATCH_TTL_MS, true, now_ms);
                        Ok(doc)
                    },
                }
            },
        }
    }

    /// The request that lists a player's matches; never cached, since the
    /// list changes as new matches are played. The player id has its
    /// separator removed before being embedded in the path.
    pub fn get_player_matches_request(platform: &str, player_id: &str, page: i32) -> (r: Request)
        ensures
            r.url@ == url_of(
                "/api/players/"@ + platform@ + "-"@ + strip_dashes(player_id@) + "/matches"@,
            ),
            r.params@.len() == 1,
            r.params@[0].0@ == "page"@ && r.params@[0].1@ == int_text(page as int),
            r.timeout_secs == REQUEST_TIMEOUT_SECS,
    {
        let normalized = normalize_player_id(player_id);
        let mut path = String::from_str("/api/players/");
        path.append(platform);
        path.append("-");
        path.append(normalized.as_str());
        path.append("/matches");
        let url = get_url(path.as_str());
        let mut params: Vec<(String, String)> = Vec::new();
        params.push((String::from_str("page"), int_string(page)));
        Request { url, params, timeout_secs: REQUEST_TIMEOUT_SECS }
    }

    /// What the match list does with each outcome: the body is handed
    /// through verbatim on success; nothing is cached.
    pub fn get_player_matches_finish(outcome: FetchOutcome) -> (r: Result<JsonValue, ApiError>)
        ensures
            match outcome {
                FetchOutcome::Transport(m) => r == Err::<JsonValue, ApiError>(
                    ApiError::Network(m),
                ),
                FetchOutcome::Response { status, body } => {
                    if !is_success(status) {
                        r == Err::<JsonValue, ApiError>(ApiError::HttpStatus(status))
                    } else {
                        match body {
                            None => r == Err::<JsonValue, ApiError>(ApiError::Protocol),
                            Some(doc) => r == Ok::<JsonValue, ApiError>(doc),
                        }
                    }
                },
            },
    {
        match outcome {
            FetchOutcome::Transport(m) => Err(ApiError::Network(m)),
            FetchOutcome::Response { status, body } => {
                if !(200 <= status && status < 300) {
                    return Err(ApiError::HttpStatus(status));
                }
                match body {
                    None => Err(ApiError::Protocol),
                    Some(doc) => Ok(doc),
                }
            },
        }
    }
}

} // verus!
