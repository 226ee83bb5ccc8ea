use supervive_core::json::JsonValue;
use supervive_core::service::ApiError;
use supervive_core::service::FetchOutcome;
use supervive_core::service::SuperviveService;

fn exists_doc(name: &str, value: bool) -> JsonValue {
    JsonValue::Obj(vec![(name.to_string(), JsonValue::Bool(value))])
}

#[test]
fn search_and_match_cache_keys_are_distinct() {
    assert_ne!(
        supervive_core::service::search_key("abc"),
        supervive_core::service::search_key("abcd")
    );
    assert_ne!(
        supervive_core::service::match_key("pc", "123"),
        supervive_core::service::match_key("xbox", "123")
    );
    assert_eq!(supervive_core::service::search_key("abc"), "search:abc".to_string());
    assert_eq!(supervive_core::service::match_key("pc", "123"), "match:pc:123".to_string());
}

#[test]
fn check_player_exists_reads_either_field_name() {
    let ok = SuperviveService::check_player_exists_finish(FetchOutcome::Response {
        status: 200,
        body: Some(exists_doc("exists", true)),
    });
    assert!(matches!(ok, Ok(true)));
    let capitalised = SuperviveService::check_player_exists_finish(FetchOutcome::Response {
        status: 200,
        body: Some(exists_doc("Exists", false)),
    });
    assert!(matches!(capitalised, Ok(false)));
    // a non-boolean under the first name falls back to the second
    let fallback = SuperviveService::check_player_exists_finish(FetchOutcome::Response {
        status: 200,
        body: Some(JsonValue::Obj(vec![
            ("exists".to_string(), JsonValue::Str("yes".to_string())),
            ("Exists".to_string(), JsonValue::Bool(true)),
        ])),
    });
    assert!(matches!(fallback, Ok(true)));
}

#[test]
fn check_player_exists_failures() {
    let transport = SuperviveService::check_player_exists_finish(FetchOutcome::Transport(
        "connection refused".to_string(),
    ));
    assert!(matches!(transport, Err(ApiError::Network(_))));
    let status = SuperviveService::check_player_exists_finish(FetchOutcome::Response {
        status: 404,
        body: Some(exists_doc("exists", true)),
    });
    assert!(matches!(status, Err(ApiError::HttpStatus(404))));
    let missing = SuperviveService::check_player_exists_finish(FetchOutcome::Response {
        status: 200,
        body: Some(JsonValue::Obj(vec![])),
    });
    assert!(matches!(missing, Err(ApiError::Protocol)));
    let unparsed = SuperviveService::check_player_exists_finish(FetchOutcome::Response {
        status: 200,
        body: None,
    });
    assert!(matches!(unparsed, Err(ApiError::Protocol)));
}

#[test]
fn search_hit_comes_from_cache_and_miss_is_stored() {
    let mut service = SuperviveService::new();
    assert_eq!(service.search_players_cached("abc", 0), None);
    let body = JsonValue::Arr(vec![JsonValue::Str("player".to_string())]);
    let fetched = service.search_players_finish(
        "abc",
        FetchOutcome::Response { status: 200, body: Some(body) },
        0,
    );
    assert_eq!(fetched.unwrap(), JsonValue::Arr(vec![JsonValue::Str("player".to_string())]));
    // a hit six days later, with zero network activity
    let hit = service.search_players_cached("abc", 6 * 24 * 3600 * 1000);
    assert_eq!(hit, Some(JsonValue::Arr(vec![JsonValue::Str("player".to_string())])));
    // a different query is a different key
    assert_eq!(service.search_players_cached("abcd", 0), None);
    // expired seven days on
    assert_eq!(service.search_players_cached("abc", 7 * 24 * 3600 * 1000), None);
}

#[test]
fn failed_fetch_writes_nothing() {
    let mut service = SuperviveService::new();
    let before = service.cache.to_text();
    let status = service.search_players_finish(
        "abc",
        FetchOutcome::Response { status: 500, body: Some(JsonValue::Null) },
        0,
    );
    assert!(matches!(status, Err(ApiError::HttpStatus(500))));
    let transport = service.get_match_finish(
        "pc",
        "123",
        FetchOutcome::Transport("timed out".to_string()),
        0,
    );
    assert!(matches!(transport, Err(ApiError::Network(_))));
    let unparsed = service.get_match_finish(
        "pc",
        "123",
        FetchOutcome::Response { status: 204, body: None },
        0,
    );
    assert!(matches!(unparsed, Err(ApiError::Protocol)));
    assert_eq!(service.cache.to_text(), before);
    assert!(!service.cache.take_dirty());
    assert_eq!(service.search_players_cached("abc", 0), None);
    assert_eq!(service.get_match_cached("pc", "123", 0), None);
}

#[test]
fn match_entries_slide_on_each_hit() {
    let mut service = SuperviveService::new();
    let day_ms: u64 = 24 * 3600 * 1000;
    let stored = service.get_match_finish(
        "pc",
        "123",
        FetchOutcome::Response { status: 200, body: Some(JsonValue::Num("7".to_string())) },
        0,
    );
    assert!(stored.is_ok());
    // viewed on day 10, so still present on day 20 (10 + 15 > 20)
    assert!(service.get_match_cached("pc", "123", 10 * day_ms).is_some());
    assert!(service.get_match_cached("pc", "123", 20 * day_ms).is_some());
    // abandoned after day 20, gone on day 36
    assert_eq!(service.get_match_cached("pc", "123", 36 * day_ms), None);
    // the other platform's key was never written
    assert_eq!(service.get_match_cached("xbox", "123", 10 * day_ms), None);
}

#[test]
fn request_shapes() {
    let check = SuperviveService::check_player_exists_request("steam", "Player#One");
    assert_eq!(check.url, "https://op.gg/supervive/api/players/check".to_string());
    assert_eq!(check.params.len(), 2);
    assert_eq!(check.params[0].0, "platform".to_string());
    assert_eq!(check.params[0].1, "steam".to_string());
    assert_eq!(check.params[1].0, "uniqueDisplayName".to_string());
    assert_eq!(check.params[1].1, "Player#One".to_string());
    assert_eq!(check.timeout_secs, 15);

    let search = SuperviveService::search_players_request("abc");
    assert_eq!(search.url, "https://op.gg/supervive/api/players/search".to_string());
    assert_eq!(search.params[0].0, "query".to_string());
    assert_eq!(search.params[0].1, "abc".to_string());

    let one_match = SuperviveService::get_match_request("pc", "123");
    assert_eq!(one_match.url, "https://op.gg/supervive/api/matches/pc-123".to_string());
    assert!(one_match.params.is_empty());

    let list = SuperviveService::get_player_matches_request("steam", "ab-cd-12", 2);
    assert_eq!(list.url, "https://op.gg/supervive/api/players/steam-abcd12/matches".to_string());
    assert_eq!(list.params[0].0, "page".to_string());
    assert_eq!(list.params[0].1, "2".to_string());
}

#[test]
fn page_numbers_render_with_sign() {
    assert_eq!(supervive_core::service::int_string(0), "0".to_string());
    assert_eq!(supervive_core::service::int_string(37), "37".to_string());
    assert_eq!(supervive_core::service::int_string(-5), "-5".to_string());
    assert_eq!(supervive_core::service::int_string(i32::MIN), "-2147483648".to_string());
}

#[test]
fn player_matches_passthrough() {
    let doc = JsonValue::Obj(vec![("data".to_string(), JsonValue::Arr(vec![]))]);
    let ok = SuperviveService::get_player_matches_finish(FetchOutcome::Response {
        status: 200,
        body: Some(doc),
    });
    assert_eq!(ok.unwrap(), JsonValue::Obj(vec![("data".to_string(), JsonValue::Arr(vec![]))]));
    let bad = SuperviveService::get_player_matches_finish(FetchOutcome::Response {
        status: 502,
        body: None,
    });
    assert!(matches!(bad, Err(ApiError::HttpStatus(502))));
}

#[test]
fn service_state_survives_a_reload() {
    let mut service = SuperviveService::new();
    let stored = service.search_players_finish(
        "abc",
        FetchOutcome::Response { status: 200, body: Some(JsonValue::Num("1".to_string())) },
        1_000,
    );
    assert!(stored.is_ok());
    assert!(service.cache.take_dirty());
    let text = service.cache.to_text();
    let mut service2 = SuperviveService::with_cache(
        supervive_core::store::DiskCache::from_text(text.as_str()),
    );
    assert_eq!(
        service2.search_players_cached("abc", 2_000),
        Some(JsonValue::Num("1".to_string()))
    );
}
