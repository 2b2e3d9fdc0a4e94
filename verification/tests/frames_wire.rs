//! Inbound frame decoding.

use market_data::frames::{parse_frame, Frame};

#[test]
fn depth_frame_decodes() {
    let text = "{\"stream\":\"btcusdt@depth@100ms\",\"data\":{\"e\":\"depthUpdate\",\"s\":\"BTCUSDT\",\"U\":42,\"u\":45,\"b\":[[\"100\",\"1.5\"],[\"99\",\"2\"]],\"a\":[[\"101\",\"1\"]]}}";
    let frame = parse_frame(text.as_bytes()).expect("canonical depth frame parses");
    assert_eq!(frame.stream, "btcusdt@depth@100ms");
    match frame.body {
        Frame::Depth(u) => {
            assert_eq!(u.symbol, "BTCUSDT");
            assert_eq!(u.first_update_id, 42);
            assert_eq!(u.last_update_id, 45);
            assert_eq!(u.bids.len(), 2);
            assert_eq!(u.bids[0].price, 100 * 100_000_000);
            assert_eq!(u.bids[0].quantity, 150_000_000);
            assert_eq!(u.asks.len(), 1);
        }
        _ => panic!("expected a depth frame"),
    }
}

#[test]
fn depth_frame_keeps_zero_quantity_deletes() {
    let text = "{\"stream\":\"btcusdt@depth@100ms\",\"data\":{\"e\":\"depthUpdate\",\"s\":\"BTCUSDT\",\"U\":46,\"u\":46,\"b\":[[\"99\",\"0\"]],\"a\":[]}}";
    let frame = parse_frame(text.as_bytes()).unwrap();
    match frame.body {
        Frame::Depth(u) => {
            assert_eq!(u.bids.len(), 1);
            assert_eq!(u.bids[0].quantity, 0);
            assert!(u.asks.is_empty());
        }
        _ => panic!("expected a depth frame"),
    }
}

#[test]
fn trade_frame_decodes() {
    let text = "{\"stream\":\"btcusdt@aggTrade\",\"data\":{\"e\":\"aggTrade\",\"s\":\"BTCUSDT\",\"a\":26129,\"p\":\"0.001\",\"q\":\"100\",\"T\":123456785,\"m\":true}}";
    let frame = parse_frame(text.as_bytes()).expect("canonical trade frame parses");
    match frame.body {
        Frame::Trade(t) => {
            assert_eq!(t.symbol, "BTCUSDT");
            assert_eq!(t.trade_id, 26129);
            assert_eq!(t.price, 100_000);
            assert_eq!(t.quantity, 100 * 100_000_000);
            assert_eq!(t.timestamp, 123456785);
            assert!(t.is_buyer_maker);
        }
        _ => panic!("expected a trade frame"),
    }
}

#[test]
fn unknown_stream_is_other() {
    let text = "{\"stream\":\"btcusdt@kline_1m\",\"data\":{\"x\":1}}";
    let frame = parse_frame(text.as_bytes()).unwrap();
    assert!(matches!(frame.body, Frame::Other));
}

#[test]
fn bad_frames_are_refused() {
    assert!(parse_frame(b"").is_none());
    assert!(parse_frame(b"{}").is_none());
    assert!(parse_frame(b"{\"stream\":\"btcusdt@depth\",\"data\":{}}").is_none());
    // a depth frame with an inverted id window is refused
    let inverted = "{\"stream\":\"x@depth\",\"data\":{\"e\":\"depthUpdate\",\"s\":\"BTCUSDT\",\"U\":45,\"u\":42,\"b\":[],\"a\":[]}}";
    assert!(parse_frame(inverted.as_bytes()).is_none());
    // a zero price can never be stored
    let zero_price = "{\"stream\":\"x@depth\",\"data\":{\"e\":\"depthUpdate\",\"s\":\"BTCUSDT\",\"U\":1,\"u\":1,\"b\":[[\"0\",\"1\"]],\"a\":[]}}";
    assert!(parse_frame(zero_price.as_bytes()).is_none());
    // trailing bytes are refused
    let mut ok = "{\"stream\":\"x@depth\",\"data\":{\"e\":\"depthUpdate\",\"s\":\"BTCUSDT\",\"U\":1,\"u\":1,\"b\":[],\"a\":[]}}"
    .as_bytes()
    .to_vec();
    assert!(parse_frame(&ok).is_some());
    ok.push(b' ');
    assert!(parse_frame(&ok).is_none());
}
