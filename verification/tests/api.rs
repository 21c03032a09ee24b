use stash_snitch::api::{
    is_success, query_params, FetchStep, GuildStashAPI, StashAccount, StashEntries, StashEntry,
};
use stash_snitch::session::IngestionSession;
use stash_snitch::storage::Storage;
use stash_snitch::ratelimiter::{Header, RateLimit, SendVerdict};

#[test]
fn first_page_has_no_query_parameters() {
    assert!(query_params(None).is_empty());
}

#[test]
fn later_pages_are_asked_for_by_time_and_id() {
    let anchor = ("98765".to_string(), 1_600_000_000u64);
    let params = query_params(Some(&anchor));
    assert_eq!(
        params,
        vec![
            ("from".to_string(), "1600000000".to_string()),
            ("fromid".to_string(), "98765".to_string()),
        ]
    );
}

#[test]
fn endpoint_and_cookie_are_built_from_guild_and_session() {
    let api = GuildStashAPI::new(12345, "abcdef");
    assert_eq!(
        api.log_endpoint().as_str(),
        "https://www.pathofexile.com/api/guild/12345/stash/history"
    );
    assert_eq!(api.cookie().as_str(), "POESESSID=abcdef");
}

#[test]
fn negative_guild_id_is_written_with_its_sign() {
    let api = GuildStashAPI::new(i64::MIN, "");
    assert_eq!(
        api.log_endpoint().as_str(),
        "https://www.pathofexile.com/api/guild/-9223372036854775808/stash/history"
    );
}

#[test]
fn request_url_of_the_first_page() {
    let api = GuildStashAPI::new(7, "s");
    let url = api.request_url(None);
    println!("{:?}", url);
    assert_eq!(
        url,
        Some("https://www.pathofexile.com/api/guild/7/stash/history?".to_string())
    );
}

#[test]
fn request_url_after_an_anchor_encodes_the_parameters() {
    let api = GuildStashAPI::new(7, "s");
    let anchor = ("a b&c".to_string(), 42u64);
    assert_eq!(
        api.request_url(Some(&anchor)),
        Some(
            "https://www.pathofexile.com/api/guild/7/stash/history?from=42&fromid=a+b%26c"
                .to_string()
        )
    );
}

#[test]
fn only_the_statuses_from_200_to_299_carry_a_page() {
    assert!(!is_success(199));
    assert!(is_success(200));
    assert!(is_success(299));
    assert!(!is_success(300));
    assert!(!is_success(429));
}

#[test]
fn the_client_starts_with_a_limiter_that_knows_nothing() {
    let mut api = GuildStashAPI::new(7, "s");
    assert!(api.limiter().limits().is_empty());
    assert!(api.limiter().history().is_empty());
    assert_eq!(api.limiter().backoff(0), None);
}

#[test]
fn the_limiter_of_the_client_keeps_what_responses_tell_it() {
    let mut api = GuildStashAPI::new(7, "s");
    let headers = vec![
        Header { name: "x-rate-limit-rules".to_string(), value: "Account".to_string() },
        Header { name: "x-rate-limit-account".to_string(), value: "3:5:10".to_string() },
        Header { name: "x-rate-limit-account-state".to_string(), value: "3:5:10".to_string() },
    ];
    assert_eq!(api.limiter().on_response(10, 200, &headers), SendVerdict::Deliver);
    assert_eq!(api.limiter().on_response(20, 429, &headers), SendVerdict::Retry);
    assert_eq!(api.limiter().limits(), &vec![RateLimit { count: 3, time: 5, penalty: 10 }]);
    assert_eq!(api.limiter().history(), vec![20, 10]);
    assert_eq!(api.limiter().backoff(30), Some(10_000));
    assert_eq!(
        api.log_endpoint().as_str(),
        "https://www.pathofexile.com/api/guild/7/stash/history"
    );
}

#[test]
fn a_duplicate_equals_the_entry() {
    let entry = StashEntry {
        id: "12".to_string(),
        time: 34,
        league: "Standard".to_string(),
        stash: Some("Maps".to_string()),
        item: "Atlas".to_string(),
        action: "modified".to_string(),
        account: StashAccount { name: "who".to_string(), realm: Some("pc".to_string()) },
        x: Some(-1),
        y: Some(2),
    };
    assert_eq!(entry.duplicate(), entry);
    assert_eq!(entry.account.duplicate(), entry.account);
}

fn entry(id: &str, time: u64) -> StashEntry {
    StashEntry {
        id: id.to_string(),
        time,
        league: "Standard".to_string(),
        stash: None,
        item: "Mirror".to_string(),
        action: "added".to_string(),
        account: StashAccount { name: "who".to_string(), realm: None },
        x: None,
        y: None,
    }
}

fn request(url: &str) -> FetchStep {
    FetchStep::Request { url: url.to_string() }
}

#[test]
fn a_session_first_fetches_the_head_and_then_the_page_after_its_anchor() {
    let api = GuildStashAPI::new(7, "s");
    let mut session = IngestionSession::begin(Storage::new(), 7);
    assert_eq!(
        api.fetch(&session),
        request("https://www.pathofexile.com/api/guild/7/stash/history?")
    );
    assert!(session.accept(&StashEntries { entries: vec![entry("100", 50), entry("99", 40)] }));
    assert_eq!(
        api.fetch(&session),
        request("https://www.pathofexile.com/api/guild/7/stash/history?from=40&fromid=99")
    );
}

#[test]
fn nothing_is_fetched_after_a_page_that_overlaps_the_store() {
    let api = GuildStashAPI::new(7, "s");
    let mut txn = Storage::new().begin_insert();
    txn.insert(7, &[entry("100", 50), entry("99", 40), entry("98", 30)]);
    let mut session = IngestionSession::begin(txn.commit(), 7);
    let page = vec![entry("100", 50), entry("99", 40), entry("97", 20), entry("96", 10)];
    assert!(!session.accept(&StashEntries { entries: page }));
    assert_eq!(session.added_count(), 2);
    assert_eq!(api.fetch(&session), FetchStep::Finished);
    let (storage, added) = session.commit();
    assert_eq!(added, 2);
    let ids: Vec<String> = storage.rows().iter().map(|r| r.entry.id.clone()).collect();
    assert_eq!(ids, vec!["100", "99", "98", "97", "96"]);
}

#[test]
fn nothing_is_fetched_after_an_empty_page() {
    let api = GuildStashAPI::new(7, "s");
    let mut session = IngestionSession::begin(Storage::new(), 7);
    assert!(session.accept(&StashEntries { entries: vec![entry("5", 50)] }));
    assert!(!session.accept(&StashEntries { entries: vec![] }));
    assert_eq!(api.fetch(&session), FetchStep::Finished);
}
