use pawnbot::stats::{ApiResponse, CollectionStats, FetchError};

fn entry(k: &str, v: &str) -> (String, String) {
    (k.to_string(), v.to_string())
}

fn full_response() -> ApiResponse {
    ApiResponse {
        stats: vec![
            entry("one_day_volume", "12.3456"),
            entry("seven_day_average_price", "0.987654"),
            entry("market_cap", "4500.1"),
            entry("floor_price", "1.0005"),
            entry("num_owners", "321"),
        ],
    }
}

#[test]
fn construction_succeeds_with_all_five_keys() {
    let stats = CollectionStats::new(full_response()).expect("all five keys are present");
    assert_eq!(stats.one_day_volume.milli, 12346);
    assert_eq!(stats.seven_day_average_price.milli, 988);
    assert_eq!(stats.market_cap.milli, 4500100);
    assert_eq!(stats.floor_price.milli, 1001);
    assert_eq!(stats.num_owners.milli, 321000);
}

#[test]
fn extra_keys_are_ignored() {
    let mut r = full_response();
    r.stats.push(entry("total_supply", "8888"));
    r.stats.insert(0, entry("thirty_day_volume", "99.9"));
    assert!(CollectionStats::new(r).is_ok());
}

#[test]
fn first_entry_wins_on_duplicate_keys() {
    let mut r = full_response();
    r.stats.push(entry("num_owners", "999"));
    let stats = CollectionStats::new(r).unwrap();
    assert_eq!(stats.num_owners.milli, 321000);
}

#[test]
fn missing_key_is_malformed() {
    for victim in [
        "one_day_volume",
        "seven_day_average_price",
        "market_cap",
        "floor_price",
        "num_owners",
    ] {
        let mut r = full_response();
        r.stats.retain(|(k, _)| k != victim);
        assert_eq!(
            CollectionStats::new(r),
            Err(FetchError::MalformedResponse),
            "missing {victim} should fail"
        );
    }
}

#[test]
fn non_numeric_value_is_malformed() {
    let mut r = full_response();
    r.stats[2] = entry("market_cap", "lots");
    assert_eq!(CollectionStats::new(r), Err(FetchError::MalformedResponse));
}

#[test]
fn unparsed_body_is_malformed() {
    assert_eq!(
        CollectionStats::from_response(None),
        Err(FetchError::MalformedResponse)
    );
}

#[test]
fn parsed_body_is_constructed() {
    let stats = CollectionStats::from_response(Some(full_response())).unwrap();
    assert_eq!(stats.floor_price.milli, 1001);
}

#[test]
fn fetch_error_descriptions() {
    assert_eq!(
        FetchError::Network.describe(),
        "could not reach the stats endpoint"
    );
    assert_eq!(
        FetchError::MalformedResponse.describe(),
        "the stats response was not in the expected shape"
    );
}
