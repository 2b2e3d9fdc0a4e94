//! Publisher fan-out, ring behaviour, and the feed client's decisions.

use market_data::book::{ApplyError, DepthUpdate, PriceLevel};
use market_data::feed::{classify_stream, handle_depth, Backoff, DepthOutcome, StreamKind};
use market_data::publish::{build_orderbook_plan, build_trade_plan, Trade};
use market_data::ring::{RingError, SharedMemoryRing};
use market_data::store::OrderBookManager;

const E8: u64 = 100_000_000;

fn depth(symbol: &str, first: u64, last: u64, bids: Vec<PriceLevel>, asks: Vec<PriceLevel>) -> DepthUpdate {
    DepthUpdate {
        symbol: symbol.to_string(),
        first_update_id: first,
        last_update_id: last,
        bids,
        asks,
    }
}

fn lvl(price: u64, qty: u64) -> PriceLevel {
    PriceLevel { price, quantity: qty }
}

#[test]
fn publish_fanout_is_total_and_consistent() {
    // Scenario: best bid 100, best ask 102; all four sinks prepared once.
    let mut store = OrderBookManager::new(20);
    let u = depth(
        "BTCUSDT",
        1,
        5,
        vec![lvl(100 * E8, 1 * E8)],
        vec![lvl(102 * E8, 1 * E8)],
    );
    let snap = store.update("BTCUSDT", &u, 777).unwrap();
    let plan = build_orderbook_plan(&snap, 777);
    assert_eq!(plan.book_channel, "orderbook:BTCUSDT");
    assert_eq!(plan.quote_key, "market_data:BTCUSDT");
    assert_eq!(plan.quote_channel, "market_data:BTCUSDT");
    assert_eq!(plan.quote_ttl_seconds, 300);
    assert_eq!(plan.ring_payload, plan.book_payload);
    let quote = String::from_utf8(plan.quote_payload.clone()).unwrap();
    // mid of 100 and 102 is 101
    assert_eq!(
        quote,
        "{\"symbol\":\"BTCUSDT\",\"last_price\":101,\"bid_price\":100,\"ask_price\":102,\
         \"updated_at\":777}"
    );
    let ring = SharedMemoryRing::new("test_ring", 4);
    assert!(ring.write(&plan.ring_payload).is_ok());
    let record = ring.read().unwrap();
    assert_eq!(record, plan.book_payload);
}

#[test]
fn quote_mid_is_exact_for_half_ticks() {
    let mut store = OrderBookManager::new(20);
    let u = depth(
        "BTCUSDT",
        1,
        5,
        vec![lvl(100 * E8, 1 * E8)],
        vec![lvl(101 * E8, 1 * E8)],
    );
    let snap = store.update("BTCUSDT", &u, 9).unwrap();
    let plan = build_orderbook_plan(&snap, 9);
    let quote = String::from_utf8(plan.quote_payload).unwrap();
    assert!(quote.contains("\"last_price\":100.5,"));
}

#[test]
fn trade_plan_channel_and_payload() {
    let t = Trade {
        symbol: "BTCUSDT".to_string(),
        trade_id: 12345,
        price: 100 * E8 + 25_000_000,
        quantity: 2 * E8,
        timestamp: 1700000000123,
        is_buyer_maker: true,
    };
    let plan = build_trade_plan(&t);
    assert_eq!(plan.channel, "trades:BTCUSDT");
    let text = String::from_utf8(plan.payload).unwrap();
    assert_eq!(
        text,
        "{\"symbol\":\"BTCUSDT\",\"trade_id\":12345,\"price\":100.25,\"quantity\":2,\
         \"timestamp\":1700000000123,\"is_buyer_maker\":true}"
    );
}

#[test]
fn ring_refuses_oversized_and_full() {
    let ring = SharedMemoryRing::new("small_ring", 1);
    let huge = vec![0u8; 65537];
    assert_eq!(ring.write(&huge), Err(RingError::TooLarge));
    assert!(ring.write(b"first").is_ok());
    // drop-newest: the second record is refused, the first survives
    assert_eq!(ring.write(b"second"), Err(RingError::Full));
    assert_eq!(ring.len(), 1);
    assert_eq!(ring.read().unwrap(), b"first".to_vec());
    assert!(ring.read().is_none());
    assert!(ring.is_empty());
}

#[test]
fn backoff_doubles_and_resets() {
    // Scenario: three failures sleep 1000, 2000, 4000; success resets.
    let mut b = Backoff::new(1000, 60000);
    assert_eq!(b.next_delay_ms(), 1000);
    assert_eq!(b.next_delay_ms(), 2000);
    assert_eq!(b.next_delay_ms(), 4000);
    b.on_success();
    assert_eq!(b.next_delay_ms(), 1000);
}

#[test]
fn backoff_caps_at_maximum() {
    let mut b = Backoff::new(40000, 60000);
    assert_eq!(b.next_delay_ms(), 40000);
    assert_eq!(b.next_delay_ms(), 60000);
    assert_eq!(b.next_delay_ms(), 60000);
}

#[test]
fn stream_routing() {
    assert_eq!(classify_stream("btcusdt@depth@100ms"), StreamKind::Depth);
    assert_eq!(classify_stream("btcusdt@aggTrade"), StreamKind::Trade);
    assert_eq!(classify_stream("btcusdt@kline_1m"), StreamKind::Other);
}

#[test]
fn depth_frame_drives_store_and_publisher() {
    let mut store = OrderBookManager::new(20);
    let u = depth(
        "BTCUSDT",
        1,
        5,
        vec![lvl(100 * E8, 1 * E8)],
        vec![lvl(101 * E8, 1 * E8)],
    );
    match handle_depth(&mut store, "BTCUSDT", &u, 1) {
        DepthOutcome::Publish(plan, snap) => {
            assert_eq!(snap.last_update_id, 5);
            assert_eq!(plan.book_channel, "orderbook:BTCUSDT");
        }
        _ => panic!("expected a publish"),
    }
    // a gap resets the book; the connection is kept
    let gap = depth("BTCUSDT", 100, 100, vec![], vec![]);
    match handle_depth(&mut store, "BTCUSDT", &gap, 2) {
        DepthOutcome::ResetBook(e) => assert_eq!(e, ApplyError::Gap),
        _ => panic!("expected a reset"),
    }
    assert!(store.get("BTCUSDT").is_none());
    // one-sided book applies quietly, nothing to publish
    let one_sided = depth("BTCUSDT", 200, 201, vec![lvl(90 * E8, 1 * E8)], vec![]);
    match handle_depth(&mut store, "BTCUSDT", &one_sided, 3) {
        DepthOutcome::AppliedQuiet(snap) => assert_eq!(snap.last_update_id, 201),
        _ => panic!("expected a quiet apply"),
    }
    // a stale delta is silently dropped
    let stale = depth("BTCUSDT", 1, 2, vec![], vec![]);
    match handle_depth(&mut store, "BTCUSDT", &stale, 4) {
        DepthOutcome::Stale => {}
        _ => panic!("expected a stale drop"),
    }
}
