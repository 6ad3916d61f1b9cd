use orderbook_aggregator::common::{parse_fixed_point, Level, OrderBookData};
use orderbook_aggregator::configuration::{BinanceDepth, BinanceInterval};
use orderbook_aggregator::session::{on_frame, FrameAction, FrameKind};

fn raw(price: i64, quantity: u64) -> Level {
    Level { price, quantity }
}

#[test]
fn snapshot_is_trimmed_and_tagged() {
    let data = OrderBookData {
        bids: vec![raw(10, 1), raw(9, 2), raw(8, 3)],
        asks: vec![raw(11, 4), raw(12, 5)],
    };
    let orders = data.into_exchange_orders("binance".to_owned(), 2);
    assert_eq!("binance", orders.exchange_name);
    let bids: Vec<(i64, u64, String)> =
        orders.bids.iter().map(|l| (l.price, l.amount, l.exchange_name.clone())).collect();
    assert_eq!(vec![(10, 1, "binance".to_owned()), (9, 2, "binance".to_owned())], bids);
    assert_eq!(2, orders.asks.len());
    assert_eq!(12, orders.asks[1].price);
}

#[test]
fn short_snapshot_is_kept_whole() {
    let data = OrderBookData { bids: vec![raw(10, 1)], asks: vec![] };
    let orders = data.into_exchange_orders("bitstamp".to_owned(), 10);
    assert_eq!(1, orders.bids.len());
    assert!(orders.asks.is_empty());
}

#[test]
fn raw_level_is_tagged() {
    let l = raw(5, 6).into_aggregator_level("a".to_owned());
    assert_eq!((5, 6, "a"), (l.price, l.amount, l.exchange_name.as_str()));
}

#[test]
fn depth_and_interval_values() {
    assert_eq!(5, BinanceDepth::D5.levels());
    assert_eq!(10, BinanceDepth::D10.levels());
    assert_eq!(20, BinanceDepth::D20.levels());
    assert_eq!(100, BinanceInterval::I100.millis());
    assert_eq!(1000, BinanceInterval::I1000.millis());
}

#[test]
fn decimal_text_is_read_as_fixed_point() {
    assert_eq!(Some(6_543_000), parse_fixed_point("0.06543000", u64::MAX));
    assert_eq!(Some(1_200_000_000), parse_fixed_point("12", u64::MAX));
    assert_eq!(Some(150_000_000), parse_fixed_point("1.5", u64::MAX));
    assert_eq!(Some(100_000_000), parse_fixed_point("1.", u64::MAX));
    assert_eq!(Some(1), parse_fixed_point("0.00000001", u64::MAX));
}

#[test]
fn malformed_decimal_text_is_refused() {
    for text in ["", "abc", "1.2.3", ".5", "1.123456789", "-1", "1e5", "NaN", "inf", " 1"] {
        assert_eq!(None, parse_fixed_point(text, u64::MAX), "{text}");
    }
}

#[test]
fn decimal_text_above_the_bound_is_refused() {
    assert_eq!(None, parse_fixed_point("99999999999999999999", u64::MAX));
    assert_eq!(None, parse_fixed_point("1.00000001", 100_000_000));
    assert_eq!(Some(100_000_000), parse_fixed_point("1", 100_000_000));
}

#[test]
fn level_is_read_from_a_text_pair() {
    assert_eq!(Some(raw(6_543_000, 250_000_000)), Level::try_from_strings("0.06543000", "2.5"));
    assert_eq!(None, Level::try_from_strings("x", "2.5"));
    assert_eq!(None, Level::try_from_strings("1", ""));
    assert_eq!(None, Level::try_from_strings("100000000000", "1"));
    assert!(Level::try_from_strings("1", "100000000000").is_some());
}

#[test]
fn unsorted_snapshot_is_sorted_per_side() {
    let mut data = OrderBookData {
        bids: vec![raw(8, 1), raw(10, 2), raw(9, 3), raw(10, 4)],
        asks: vec![raw(13, 1), raw(11, 2), raw(12, 3)],
    };
    data.sort_sides();
    let bid_prices: Vec<i64> = data.bids.iter().map(|l| l.price).collect();
    let ask_prices: Vec<i64> = data.asks.iter().map(|l| l.price).collect();
    assert_eq!(vec![10, 10, 9, 8], bid_prices);
    assert_eq!(vec![11, 12, 13], ask_prices);
    let mut quantities: Vec<u64> = data.bids.iter().map(|l| l.quantity).collect();
    quantities.sort();
    assert_eq!(vec![1, 2, 3, 4], quantities);
}

#[test]
fn frames_are_answered_by_kind() {
    assert_eq!(FrameAction::Decode, on_frame(FrameKind::Text));
    assert_eq!(FrameAction::Reply, on_frame(FrameKind::Ping));
    assert_eq!(FrameAction::Ignore, on_frame(FrameKind::Pong));
    assert_eq!(FrameAction::Ignore, on_frame(FrameKind::Raw));
    assert_eq!(FrameAction::Fail, on_frame(FrameKind::Binary));
    assert_eq!(FrameAction::Fail, on_frame(FrameKind::Close));
}
