use pawnbot::dec::Dec3;
use pawnbot::message::format_message;
use pawnbot::stats::{ApiResponse, CollectionStats};

fn dec(milli: u64) -> Dec3 {
    Dec3 { neg: false, milli }
}

#[test]
fn message_follows_the_template() {
    let stats = CollectionStats {
        one_day_volume: dec(12346),
        seven_day_average_price: dec(988),
        market_cap: dec(4500100),
        floor_price: dec(1001),
        num_owners: dec(321000),
    };
    let expected = "\u{1f916} The current floor price is 1.001 ETH, with a daily volume of \
                    12.346 ETH and a market cap of 4500.1 ETH.\n\nThe weekly average sell \
                    price is 0.988 ETH, and there are currently 321 holders.";
    assert_eq!(format_message(stats), expected);
}

#[test]
fn formatting_is_pure() {
    let stats = CollectionStats {
        one_day_volume: dec(500),
        seven_day_average_price: dec(1),
        market_cap: dec(1000000),
        floor_price: dec(0),
        num_owners: dec(42000),
    };
    let once = format_message(stats);
    let twice = format_message(stats);
    assert_eq!(once, twice);
}

#[test]
fn scenario_with_rounded_fetch() {
    let response = ApiResponse {
        stats: vec![
            ("one_day_volume".to_string(), "12.3456".to_string()),
            ("seven_day_average_price".to_string(), "0.987654".to_string()),
            ("market_cap".to_string(), "4500.1".to_string()),
            ("floor_price".to_string(), "1.0005".to_string()),
            ("num_owners".to_string(), "321".to_string()),
        ],
    };
    let stats = CollectionStats::new(response).unwrap();
    let message = format_message(stats);
    assert!(message.contains("floor price is 1.001 ETH"));
    assert!(message.contains("321 holders"));
    assert!(message.starts_with("\u{1f916} "));
}
