use pawnbot::bot::{plan_after_post, plan_cycle, Credentials, CredentialError, CycleAction};
use pawnbot::dec::Dec3;
use pawnbot::message::format_message;
use pawnbot::stats::{ApiResponse, CollectionStats, FetchError};

fn some_stats() -> CollectionStats {
    let d = Dec3 { neg: false, milli: 1500 };
    CollectionStats {
        one_day_volume: d,
        seven_day_average_price: d,
        market_cap: d,
        floor_price: d,
        num_owners: d,
    }
}

#[test]
fn successful_fetch_posts_the_message() {
    let stats = some_stats();
    match plan_cycle(Ok(stats)) {
        CycleAction::Post(m) => assert_eq!(m, format_message(stats)),
        CycleAction::SkipAndLog(_) => panic!("a successful fetch must post"),
    }
}

#[test]
fn failed_fetch_skips_and_logs() {
    match plan_cycle(Err(FetchError::Network)) {
        CycleAction::Post(_) => panic!("a failed fetch must not post"),
        CycleAction::SkipAndLog(line) => {
            assert_eq!(line, "Error: could not reach the stats endpoint")
        }
    }
}

#[test]
fn malformed_fetch_skips_and_logs() {
    match plan_cycle(Err(FetchError::MalformedResponse)) {
        CycleAction::Post(_) => panic!("a failed fetch must not post"),
        CycleAction::SkipAndLog(line) => {
            assert_eq!(line, "Error: the stats response was not in the expected shape")
        }
    }
}

#[test]
fn missing_owner_key_skips_the_cycle() {
    // a response lacking num_owners is malformed; the cycle logs and skips
    let response = ApiResponse {
        stats: vec![
            ("one_day_volume".to_string(), "12.3456".to_string()),
            ("seven_day_average_price".to_string(), "0.987654".to_string()),
            ("market_cap".to_string(), "4500.1".to_string()),
            ("floor_price".to_string(), "1.0005".to_string()),
        ],
    };
    let fetched = CollectionStats::new(response);
    assert_eq!(fetched, Err(FetchError::MalformedResponse));
    match plan_cycle(fetched) {
        CycleAction::Post(_) => panic!("no post may be attempted this cycle"),
        CycleAction::SkipAndLog(line) => {
            assert_eq!(line, "Error: the stats response was not in the expected shape")
        }
    }
}

#[test]
fn post_failure_is_logged_and_swallowed() {
    let log = plan_after_post(Some("connection reset".to_string()));
    assert_eq!(log, Some("Error: connection reset".to_string()));
}

#[test]
fn post_success_logs_nothing() {
    assert_eq!(plan_after_post(None), None);
}

#[test]
fn credentials_need_all_four_values() {
    let v = |s: &str| Some(s.to_string());
    let c = Credentials::new(v("ck"), v("cs"), v("at"), v("ats")).unwrap();
    assert_eq!(c.consumer_key, "ck");
    assert_eq!(c.consumer_secret, "cs");
    assert_eq!(c.access_token, "at");
    assert_eq!(c.access_token_secret, "ats");
}

#[test]
fn first_missing_credential_is_named() {
    let v = |s: &str| Some(s.to_string());
    let cases = [
        (
            Credentials::new(None, v("cs"), v("at"), v("ats")),
            CredentialError::MissingConsumerKey,
            "Expected TWITTER_CONSUMER_KEY in environment",
        ),
        (
            Credentials::new(v("ck"), None, v("at"), v("ats")),
            CredentialError::MissingConsumerSecret,
            "Expected TWITTER_CONSUMER_SECRET in environment",
        ),
        (
            Credentials::new(v("ck"), v("cs"), None, v("ats")),
            CredentialError::MissingAccessToken,
            "Expected TWITTER_ACCESS_TOKEN in environment",
        ),
        (
            Credentials::new(v("ck"), v("cs"), v("at"), None),
            CredentialError::MissingAccessTokenSecret,
            "Expected TWITTER_ACCESS_TOKEN_SECRET in environment",
        ),
        (
            Credentials::new(None, None, None, None),
            CredentialError::MissingConsumerKey,
            "Expected TWITTER_CONSUMER_KEY in environment",
        ),
    ];
    for (result, expected, text) in cases {
        let err = result.err().expect("a missing value must fail");
        assert_eq!(err, expected);
        assert_eq!(err.message(), text);
    }
}
