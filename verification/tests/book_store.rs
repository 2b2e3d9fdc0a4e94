//! Order book and store behaviour: apply, sequence rule, bootstrap,
//! snapshots.

use market_data::book::{ApplyError, DepthUpdate, OrderBook, PriceLevel};
use market_data::store::OrderBookManager;

const E8: u64 = 100_000_000;

fn lvl(price: u64, qty_e8: u64) -> PriceLevel {
    PriceLevel { price, quantity: qty_e8 }
}

fn depth(symbol: &str, first: u64, last: u64, bids: Vec<PriceLevel>, asks: Vec<PriceLevel>) -> DepthUpdate {
    DepthUpdate {
        symbol: symbol.to_string(),
        first_update_id: first,
        last_update_id: last,
        bids,
        asks,
    }
}

#[test]
fn test_orderbook_update() {
    let mut book = OrderBook::new("BTCUSDT".to_string());

    let update = depth(
        "BTCUSDT",
        1,
        1,
        vec![lvl(50000 * E8, 15 * E8 / 10), lvl(49999 * E8, 2 * E8)],
        vec![lvl(50001 * E8, 1 * E8), lvl(50002 * E8, 3 * E8)],
    );

    assert!(book.apply_update(&update, 7).is_ok());
    assert_eq!(book.bids.len(), 2);
    assert_eq!(book.asks.len(), 2);

    let mid = book.mid_price().unwrap();
    assert!((mid as f64 / 1e9 - 50000.5).abs() < 0.01);
}

#[test]
fn test_sequence_validation() {
    let mut book = OrderBook::new("BTCUSDT".to_string());
    book.last_update_id = 100;

    let update = depth("BTCUSDT", 105, 105, vec![], vec![]);

    assert!(book.apply_update(&update, 7).is_err());
}

#[test]
fn bootstrap_accepts_any_first_update_id() {
    // Scenario: book absent, first delta taken as baseline.
    let mut store = OrderBookManager::new(20);
    let u = depth(
        "BTCUSDT",
        42,
        45,
        vec![lvl(100 * E8, 15 * E8 / 10), lvl(99 * E8, 2 * E8)],
        vec![lvl(101 * E8, 1 * E8)],
    );
    let snap = store.update("BTCUSDT", &u, 1).expect("bootstrap accepted");
    assert_eq!(snap.last_update_id, 45);
    assert_eq!(snap.bids.len(), 2);
    assert_eq!(snap.asks.len(), 1);
    // bids ascending: best bid is the last entry
    assert_eq!(snap.bids[1].price, 100 * E8);
    assert_eq!(snap.bids[1].quantity, 15 * E8 / 10);
    assert_eq!(snap.bids[0].price, 99 * E8);
    assert_eq!(snap.asks[0].price, 101 * E8);
    let mid = snap.mid_price().unwrap();
    assert_eq!(mid, 100_500_000_000);
    assert_eq!(snap.best_bid().unwrap().price, 100 * E8);
    assert_eq!(snap.best_ask().unwrap().price, 101 * E8);
}

#[test]
fn zero_quantity_deletes_level() {
    let mut store = OrderBookManager::new(20);
    let u1 = depth(
        "BTCUSDT",
        42,
        45,
        vec![lvl(100 * E8, 15 * E8 / 10), lvl(99 * E8, 2 * E8)],
        vec![lvl(101 * E8, 1 * E8)],
    );
    store.update("BTCUSDT", &u1, 1).unwrap();
    let u2 = depth("BTCUSDT", 46, 46, vec![lvl(99 * E8, 0)], vec![]);
    let snap = store.update("BTCUSDT", &u2, 2).expect("delete applied");
    assert_eq!(snap.last_update_id, 46);
    assert_eq!(snap.bids.len(), 1);
    assert_eq!(snap.bids[0].price, 100 * E8);
    assert_eq!(snap.bids[0].quantity, 15 * E8 / 10);
    assert_eq!(snap.asks.len(), 1);
    assert_eq!(snap.asks[0].price, 101 * E8);
}

#[test]
fn gap_is_refused_and_book_unchanged() {
    let mut store = OrderBookManager::new(20);
    let u1 = depth(
        "BTCUSDT",
        42,
        45,
        vec![lvl(100 * E8, 15 * E8 / 10)],
        vec![lvl(101 * E8, 1 * E8)],
    );
    store.update("BTCUSDT", &u1, 1).unwrap();
    let u2 = depth("BTCUSDT", 100, 100, vec![], vec![]);
    let err = store.update("BTCUSDT", &u2, 2).unwrap_err();
    assert_eq!(err, ApplyError::Gap);
    let book = store.get("BTCUSDT").unwrap();
    assert_eq!(book.last_update_id, 45);
}

#[test]
fn stale_update_is_dropped() {
    let mut store = OrderBookManager::new(20);
    let u1 = depth(
        "BTCUSDT",
        42,
        45,
        vec![lvl(100 * E8, 15 * E8 / 10)],
        vec![lvl(101 * E8, 1 * E8)],
    );
    store.update("BTCUSDT", &u1, 1).unwrap();
    let u2 = depth("BTCUSDT", 10, 20, vec![lvl(100 * E8, 99 * E8 / 10)], vec![]);
    let err = store.update("BTCUSDT", &u2, 2).unwrap_err();
    assert_eq!(err, ApplyError::Stale);
    let book = store.get("BTCUSDT").unwrap();
    assert_eq!(book.bids[0].quantity, 15 * E8 / 10);
    assert_eq!(book.last_update_id, 45);
}

#[test]
fn reapplying_same_update_is_noop() {
    let mut store = OrderBookManager::new(20);
    let u = depth(
        "BTCUSDT",
        42,
        45,
        vec![lvl(100 * E8, 15 * E8 / 10)],
        vec![lvl(101 * E8, 1 * E8)],
    );
    store.update("BTCUSDT", &u, 1).unwrap();
    let before = store.get("BTCUSDT").unwrap();
    let err = store.update("BTCUSDT", &u, 2).unwrap_err();
    assert_eq!(err, ApplyError::Stale);
    let after = store.get("BTCUSDT").unwrap();
    assert_eq!(after.last_update_id, before.last_update_id);
    assert_eq!(after.bids, before.bids);
    assert_eq!(after.asks, before.asks);
}

#[test]
fn crossed_update_is_refused() {
    let mut store = OrderBookManager::new(20);
    let u1 = depth(
        "BTCUSDT",
        1,
        1,
        vec![lvl(100 * E8, 1 * E8)],
        vec![lvl(101 * E8, 1 * E8)],
    );
    store.update("BTCUSDT", &u1, 1).unwrap();
    // A bid at 102 would cross the ask at 101.
    let u2 = depth("BTCUSDT", 2, 2, vec![lvl(102 * E8, 1 * E8)], vec![]);
    let err = store.update("BTCUSDT", &u2, 2).unwrap_err();
    assert_eq!(err, ApplyError::Crossed);
    let book = store.get("BTCUSDT").unwrap();
    assert_eq!(book.last_update_id, 1);
}

#[test]
fn top_levels_sorted_and_capped() {
    let mut store = OrderBookManager::new(20);
    let u = depth(
        "BTCUSDT",
        1,
        1,
        vec![lvl(98 * E8, 1), lvl(99 * E8, 2), lvl(100 * E8, 3)],
        vec![lvl(101 * E8, 4), lvl(102 * E8, 5), lvl(103 * E8, 6)],
    );
    store.update("BTCUSDT", &u, 1).unwrap();
    let (bids, asks) = store.snapshot("BTCUSDT", 2).unwrap();
    assert_eq!(bids.len(), 2);
    assert_eq!(asks.len(), 2);
    assert!(bids[0].price > bids[1].price);
    assert!(asks[0].price < asks[1].price);
    assert_eq!(bids[0].price, 100 * E8);
    assert_eq!(asks[0].price, 101 * E8);
}

#[test]
fn mid_price_absent_when_side_empty() {
    let mut store = OrderBookManager::new(20);
    let u = depth("BTCUSDT", 1, 1, vec![lvl(100 * E8, 1 * E8)], vec![]);
    let snap = store.update("BTCUSDT", &u, 1).unwrap();
    assert!(snap.mid_price().is_none());
    assert!(snap.spread().is_none());
}

#[test]
fn reset_drops_symbol_entry() {
    let mut store = OrderBookManager::new(20);
    let u = depth(
        "BTCUSDT",
        7,
        9,
        vec![lvl(100 * E8, 1 * E8)],
        vec![lvl(101 * E8, 1 * E8)],
    );
    store.update("BTCUSDT", &u, 1).unwrap();
    assert!(store.get("BTCUSDT").is_some());
    store.reset("BTCUSDT");
    assert!(store.get("BTCUSDT").is_none());
    // the next delta re-bootstraps whatever its ids
    let u2 = depth("BTCUSDT", 500, 510, vec![lvl(90 * E8, 1 * E8)], vec![]);
    let snap = store.update("BTCUSDT", &u2, 2).unwrap();
    assert_eq!(snap.last_update_id, 510);
}

#[test]
fn spread_of_populated_book() {
    let mut book = OrderBook::new("ETHUSDT".to_string());
    let u = depth(
        "ETHUSDT",
        1,
        1,
        vec![lvl(100 * E8, 1 * E8)],
        vec![lvl(102 * E8, 1 * E8)],
    );
    book.apply_update(&u, 3).unwrap();
    assert_eq!(book.spread().unwrap(), 2 * E8);
    assert_eq!(book.timestamp, 3);
}
