//! Decimal numerals and payload round trips.

use market_data::book::{DepthUpdate, OrderBook, PriceLevel};
use market_data::decimal::{parse_scaled, render_scaled};
use market_data::wire::{book_payload, parse_book_payload};

const E8: u64 = 100_000_000;

#[test]
fn parse_scaled_exact_values() {
    assert_eq!(parse_scaled(b"50000"), Some(50000 * E8));
    assert_eq!(parse_scaled(b"0.1"), Some(10_000_000));
    assert_eq!(parse_scaled(b"1.5"), Some(150_000_000));
    assert_eq!(parse_scaled(b"0.00000001"), Some(1));
    assert_eq!(parse_scaled(b"999999999.99999999"), Some(99_999_999_999_999_999));
    assert_eq!(parse_scaled(b"007"), Some(7 * E8));
}

#[test]
fn parse_scaled_rejects_bad_numerals() {
    assert_eq!(parse_scaled(b""), None);
    assert_eq!(parse_scaled(b"."), None);
    assert_eq!(parse_scaled(b"1."), None);
    assert_eq!(parse_scaled(b".5"), None);
    assert_eq!(parse_scaled(b"1.123456789"), None); // nine fractional digits
    assert_eq!(parse_scaled(b"1000000000"), None); // integer part too large
    assert_eq!(parse_scaled(b"12a"), None);
    assert_eq!(parse_scaled(b"1.2.3"), None);
    assert_eq!(parse_scaled(b"-1"), None);
}

#[test]
fn render_scaled_canonical() {
    assert_eq!(render_scaled(150_000_000), b"1.5".to_vec());
    assert_eq!(render_scaled(50000 * E8), b"50000".to_vec());
    assert_eq!(render_scaled(1), b"0.00000001".to_vec());
    assert_eq!(render_scaled(10_000_000), b"0.1".to_vec());
    assert_eq!(render_scaled(0), b"0".to_vec());
}

#[test]
fn render_then_parse_round_trips() {
    let values: Vec<u64> = vec![0, 1, 7, E8, 150_000_000, 50000 * E8, 99_999_999_999_999_999];
    for v in values {
        let text = render_scaled(v);
        assert_eq!(parse_scaled(&text), Some(v));
    }
}

fn sample_book() -> OrderBook {
    let mut book = OrderBook::new("BTCUSDT".to_string());
    let u = DepthUpdate {
        symbol: "BTCUSDT".to_string(),
        first_update_id: 1,
        last_update_id: 45,
        bids: vec![
            PriceLevel { price: 100 * E8, quantity: 15 * E8 / 10 },
            PriceLevel { price: 99 * E8, quantity: 2 * E8 },
        ],
        asks: vec![PriceLevel { price: 101 * E8, quantity: 1 * E8 }],
    };
    book.apply_update(&u, 123456).unwrap();
    book
}

#[test]
fn book_payload_is_canonical_json() {
    let book = sample_book();
    let payload = book_payload(&book);
    let text = String::from_utf8(payload).unwrap();
    assert_eq!(
        text,
        "{\"symbol\":\"BTCUSDT\",\"bids\":{\"100\":1.5,\"99\":2},\"asks\":{\"101\":1},\
         \"last_update_id\":45,\"timestamp\":123456}"
    );
}

#[test]
fn payload_round_trip_preserves_book() {
    let book = sample_book();
    let payload = book_payload(&book);
    let parsed = parse_book_payload(&payload).expect("own payload parses");
    assert_eq!(parsed.symbol, book.symbol);
    assert_eq!(parsed.bids, book.bids);
    assert_eq!(parsed.asks, book.asks);
    assert_eq!(parsed.last_update_id, book.last_update_id);
    assert_eq!(parsed.timestamp, book.timestamp);
}

#[test]
fn payload_parser_rejects_noise() {
    assert!(parse_book_payload(b"").is_none());
    assert!(parse_book_payload(b"{}").is_none());
    assert!(parse_book_payload(b"{\"symbol\":\"BTCUSDT\"}").is_none());
    let book = sample_book();
    let mut payload = book_payload(&book);
    payload.push(b' ');
    assert!(parse_book_payload(&payload).is_none());
    // a crossed book is refused even in valid shape
    let crossed = b"{\"symbol\":\"X\",\"bids\":{\"102\":1},\"asks\":{\"101\":1},\
        \"last_update_id\":1,\"timestamp\":1}";
    assert!(parse_book_payload(crossed).is_none());
}

#[test]
fn empty_sides_round_trip() {
    let book = OrderBook::new("ETHUSDT".to_string());
    let payload = book_payload(&book);
    let text = String::from_utf8(payload.clone()).unwrap();
    assert_eq!(
        text,
        "{\"symbol\":\"ETHUSDT\",\"bids\":{},\"asks\":{},\"last_update_id\":0,\"timestamp\":0}"
    );
    let parsed = parse_book_payload(&payload).unwrap();
    assert!(parsed.bids.is_empty());
    assert!(parsed.asks.is_empty());
}
