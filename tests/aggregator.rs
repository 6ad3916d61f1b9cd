use orderbook_aggregator::aggregator::{sort_merged, ExchangeOrders, ExchangeTable, Level, Side};
use orderbook_aggregator::orderbook;

const TICKS: f64 = 100_000_000.0;

fn ticks(price: f64) -> i64 {
    (price * TICKS).round() as i64
}

fn level(price: f64, exchange_name: &str) -> Level {
    Level { price: ticks(price), amount: 0, exchange_name: exchange_name.to_owned() }
}

fn int_level(price: i64) -> Level {
    Level { price, amount: 0, exchange_name: String::new() }
}

fn published(price: f64, exchange: &str) -> orderbook::Level {
    orderbook::Level { price: ticks(price), amount: 0, exchange: exchange.to_owned() }
}

fn orders(name: &str, bids: Vec<Level>, asks: Vec<Level>) -> ExchangeOrders {
    ExchangeOrders { exchange_name: name.to_owned(), asks, bids }
}

#[test]
fn test_sorting_asks() {
    let a: Vec<Level> = [1, 5, 8].iter().map(|p| int_level(*p)).collect();
    let b: Vec<Level> = [0, 2, 3, 9].iter().map(|p| int_level(*p)).collect();
    let c: Vec<Level> = [4, 7].iter().map(|p| int_level(*p)).collect();
    let values = [a.as_slice(), &b, &c];
    let res = sort_merged(&values, 3, Side::Ask);
    let res: Vec<i64> = res.into_iter().map(|l| l.price).collect();
    assert_eq!(vec![0, 1, 2], res);
}

#[test]
fn test_sorting_bids() {
    let a = [level(10.0, "a"), level(9.0, "a"), level(8.9, "a")];
    let b = [level(12.0, "b"), level(9.0, "b"), level(8.9, "b")];
    let c = [level(11.0, "c"), level(9.0, "c"), level(8.9, "c")];
    let values = [a.as_slice(), &b, &c];
    let res = sort_merged(&values, 3, Side::Bid);
    assert_eq!(vec![level(12.0, "b"), level(11.0, "c"), level(10.0, "a")], res);
}

#[test]
fn test_sorting_and_spread() {
    let bid_a = vec![level(10.0, "a"), level(9.1, "a"), level(8.9, "a")];
    let bid_b = vec![level(12.0, "b"), level(9.2, "b"), level(8.9, "b")];
    let bid_c = vec![level(11.0, "c"), level(9.3, "c"), level(8.9, "c")];
    let ask_a = vec![level(15.0, "a"), level(20.9, "a"), level(80.9, "a")];
    let ask_b = vec![level(20.0, "b"), level(30.9, "b"), level(80.9, "b")];
    let ask_c = vec![level(13.5, "c"), level(18.8, "c"), level(80.9, "c")];
    let mut exchanges = ExchangeTable::new();
    exchanges.insert(orders("a", bid_a, ask_a));
    exchanges.insert(orders("b", bid_b, ask_b));
    exchanges.insert(orders("c", bid_c, ask_c));
    let summary = exchanges.summary(5);
    let expected = orderbook::Summary {
        spread: ticks(1.5) as i128,
        bids: vec![
            published(12.0, "b"),
            published(11.0, "c"),
            published(10.0, "a"),
            published(9.3, "c"),
            published(9.2, "b"),
        ],
        asks: vec![
            published(13.5, "c"),
            published(15.0, "a"),
            published(18.8, "c"),
            published(20.0, "b"),
            published(20.9, "a"),
        ],
    };
    assert_eq!(expected, summary);
}

#[test]
fn merge_takes_everything_when_target_exceeds_inputs() {
    let a = [int_level(3), int_level(1)];
    let b: [Level; 0] = [];
    let c = [int_level(2)];
    let values = [a.as_slice(), &b, &c];
    let res: Vec<i64> = sort_merged(&values, 10, Side::Bid).into_iter().map(|l| l.price).collect();
    assert_eq!(vec![3, 2, 1], res);
}

#[test]
fn merge_with_zero_target_is_empty() {
    let a = [int_level(3)];
    let values = [a.as_slice()];
    assert!(sort_merged(&values, 0, Side::Bid).is_empty());
}

#[test]
fn merge_of_no_inputs_is_empty() {
    let values: [&[Level]; 0] = [];
    assert!(sort_merged(&values, 4, Side::Ask).is_empty());
}

#[test]
fn merge_keeps_duplicate_prices() {
    let a = [level(5.0, "a"), level(5.0, "a")];
    let b = [level(5.0, "b")];
    let values = [a.as_slice(), &b];
    let res = sort_merged(&values, 3, Side::Ask);
    assert_eq!(vec![level(5.0, "a"), level(5.0, "a"), level(5.0, "b")], res);
}

#[test]
fn equal_prices_are_ordered_by_amount_then_exchange() {
    let mut x = level(5.0, "b");
    x.amount = 2;
    let y = level(5.0, "a");
    let z = level(5.0, "b");
    let first = [y.clone()];
    let second = [z.clone()];
    let third = [x.clone()];
    let values = [first.as_slice(), &second, &third];
    assert_eq!(vec![x.clone(), z.clone(), y.clone()], sort_merged(&values, 3, Side::Bid));
    assert_eq!(vec![y, z, x], sort_merged(&values, 3, Side::Ask));
}

#[test]
fn empty_table_gives_empty_summary() {
    let table = ExchangeTable::new();
    assert_eq!(orderbook::Summary::default(), table.summary(5));
}

#[test]
fn spread_is_zero_when_a_side_is_empty() {
    let mut table = ExchangeTable::new();
    let s = table.update(orders("a", vec![level(10.0, "a")], vec![]), 5);
    assert_eq!(0, s.spread);
    assert_eq!(1, s.bids.len());
    let mut table = ExchangeTable::new();
    let s = table.update(orders("a", vec![], vec![level(10.0, "a")]), 5);
    assert_eq!(0, s.spread);
    assert_eq!(1, s.asks.len());
}

#[test]
fn crossed_book_has_negative_spread() {
    let mut table = ExchangeTable::new();
    table.update(orders("a", vec![level(12.0, "a")], vec![level(13.0, "a")]), 5);
    let s = table.update(orders("b", vec![level(9.0, "b")], vec![level(11.0, "b")]), 5);
    assert_eq!(ticks(11.0) as i128 - ticks(12.0) as i128, s.spread);
    assert!(s.spread < 0);
}

#[test]
fn summary_is_bounded_and_ordered() {
    let mut table = ExchangeTable::new();
    table.update(orders("a", vec![level(10.0, "a"), level(8.0, "a")], vec![level(11.0, "a"), level(14.0, "a")]), 3);
    let s = table.update(orders("b", vec![level(9.0, "b"), level(7.0, "b")], vec![level(12.0, "b"), level(13.0, "b")]), 3);
    assert_eq!(3, s.bids.len());
    assert_eq!(3, s.asks.len());
    assert!(s.bids.windows(2).all(|w| w[0].price >= w[1].price));
    assert!(s.asks.windows(2).all(|w| w[0].price <= w[1].price));
    assert_eq!(s.asks[0].price as i128 - s.bids[0].price as i128, s.spread);
}

#[test]
fn summary_levels_come_from_the_table() {
    let mut table = ExchangeTable::new();
    table.update(orders("a", vec![level(10.0, "a")], vec![level(11.0, "a")]), 5);
    let s = table.update(orders("b", vec![level(9.0, "b")], vec![level(12.0, "b")]), 5);
    assert_eq!(vec![published(10.0, "a"), published(9.0, "b")], s.bids);
    assert_eq!(vec![published(11.0, "a"), published(12.0, "b")], s.asks);
}

#[test]
fn recomputation_is_identical() {
    let mut table = ExchangeTable::new();
    table.update(orders("a", vec![level(10.0, "a")], vec![level(11.0, "a")]), 5);
    table.update(orders("b", vec![level(10.0, "b")], vec![level(11.0, "b")]), 5);
    assert_eq!(table.summary(5), table.summary(5));
}

#[test]
fn resubmitting_a_snapshot_gives_identical_summaries() {
    let mut table = ExchangeTable::new();
    table.update(orders("b", vec![level(9.0, "b")], vec![level(12.0, "b")]), 5);
    let snapshot = orders("a", vec![level(10.0, "a")], vec![level(11.0, "a")]);
    let first = table.update(snapshot.clone(), 5);
    let second = table.update(snapshot, 5);
    assert_eq!(first, second);
}

#[test]
fn new_snapshot_replaces_the_previous_one() {
    let mut table = ExchangeTable::new();
    table.update(orders("a", vec![level(10.0, "a"), level(9.0, "a")], vec![level(11.0, "a"), level(12.0, "a")]), 5);
    let s = table.update(orders("a", vec![level(7.0, "a")], vec![level(15.0, "a")]), 5);
    assert_eq!(vec![published(7.0, "a")], s.bids);
    assert_eq!(vec![published(15.0, "a")], s.asks);
    assert_eq!(ticks(8.0) as i128, s.spread);
}

#[test]
fn exchange_without_asks_still_contributes_bids() {
    let mut table = ExchangeTable::new();
    table.update(orders("a", vec![level(10.0, "a")], vec![]), 5);
    let s = table.update(orders("b", vec![level(11.0, "b")], vec![level(12.0, "b")]), 5);
    assert_eq!(vec![published(11.0, "b"), published(10.0, "a")], s.bids);
    assert_eq!(ticks(1.0) as i128, s.spread);
}

#[test]
fn published_level_keeps_fields() {
    let l = Level { price: 42, amount: 7, exchange_name: "x".to_owned() };
    assert_eq!(orderbook::Level { price: 42, amount: 7, exchange: "x".to_owned() }, l.to_summary_level());
}
