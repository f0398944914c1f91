use orderbook_rs::book::OrderBook;
use orderbook_rs::types::{Side, TimeInForce};

fn book_with(bids: &[(u64, u64)], asks: &[(u64, u64)]) -> OrderBook {
    let mut book = OrderBook::new("BTC/USD");
    let mut id: u128 = 1;
    for &(p, q) in bids {
        book.add_limit_order(id, p, q, Side::Buy, TimeInForce::Gtc, 1).unwrap();
        id += 1;
    }
    for &(p, q) in asks {
        book.add_limit_order(id, p, q, Side::Sell, TimeInForce::Gtc, 1).unwrap();
        id += 1;
    }
    book
}

#[test]
fn depth_queries() {
    let book = book_with(&[(100, 10), (99, 15), (98, 20)], &[]);
    assert_eq!(book.price_at_depth(20, Side::Buy), Some(99));
    assert_eq!(book.price_at_depth(100, Side::Buy), None);
    assert_eq!(book.cumulative_depth_to_target(20, Side::Buy), Some((99, 25)));
    assert_eq!(book.total_depth_at_levels(2, Side::Buy), 25);
    assert_eq!(book.total_depth_at_levels(0, Side::Buy), 0);
    assert_eq!(book.total_depth_at_levels(10, Side::Buy), 45);
    assert_eq!(book.liquidity_in_range(99, 100, Side::Buy), 25);
    assert_eq!(book.liquidity_in_range(101, 100, Side::Buy), 0);
    assert_eq!(book.price_for_queue_position(1, Side::Buy), Some(100));
    assert_eq!(book.price_for_queue_position(2, Side::Buy), Some(99));
    assert_eq!(book.price_for_queue_position(0, Side::Buy), None);
    assert_eq!(book.price_for_queue_position(4, Side::Buy), None);
}

#[test]
fn queue_and_ticks() {
    let mut book = book_with(&[(100, 10)], &[(105, 10)]);
    book.add_limit_order(50, 100, 20, Side::Buy, TimeInForce::Gtc, 2).unwrap();
    assert_eq!(book.queue_ahead_at_price(100, Side::Buy), 2);
    assert_eq!(book.queue_ahead_at_price(90, Side::Buy), 0);
    assert_eq!(book.price_n_ticks_inside(1, 1, Side::Buy), Some(99));
    assert_eq!(book.price_n_ticks_inside(1, 1, Side::Sell), Some(106));
    assert_eq!(book.price_n_ticks_inside(0, 1, Side::Sell), None);
    assert_eq!(book.price_n_ticks_inside(200, 1, Side::Buy), None);
}

#[test]
fn depth_adjusted() {
    let book = book_with(&[(100, 50), (99, 60), (98, 70)], &[]);
    assert_eq!(book.price_at_depth_adjusted(100, 1, Side::Buy), Some(100));
    assert_eq!(book.price_at_depth_adjusted(1000, 1, Side::Buy), Some(98));
    assert_eq!(book.price_at_depth_adjusted(0, 1, Side::Buy), None);
    let asks = book_with(&[], &[(100, 50), (101, 60)]);
    assert_eq!(asks.price_at_depth_adjusted(100, 1, Side::Sell), Some(100));
}

#[test]
fn vwap_and_simulation() {
    let book = book_with(&[], &[(100, 10), (105, 15)]);
    assert_eq!(book.vwap(20, Side::Buy), Some(100 * 10 + 105 * 10));
    assert_eq!(book.vwap(30, Side::Buy), None);
    assert_eq!(book.vwap(0, Side::Buy), None);
    let sim = book.simulate_market_order(20, Side::Buy);
    assert_eq!(sim.fills, vec![(100, 10), (105, 10)]);
    assert_eq!(sim.total_filled, 20);
    assert_eq!(sim.total_cost, 2050);
    assert_eq!(sim.remaining_quantity, 0);
    let sim = book.simulate_market_order(30, Side::Buy);
    assert_eq!(sim.remaining_quantity, 5);
}

#[test]
fn market_impact_walk() {
    let book = book_with(&[], &[(100, 10), (105, 15)]);
    let m = book.market_impact(20, Side::Buy);
    assert_eq!(m.best_price, 100);
    assert_eq!(m.worst_price, 105);
    assert_eq!(m.slippage, 5);
    assert_eq!(m.levels_consumed, 2);
    assert_eq!(m.total_filled, 20);
    assert_eq!(m.total_cost, 2050);
    let e = book.market_impact(0, Side::Buy);
    assert_eq!(e.levels_consumed, 0);
    let bids = book_with(&[(100, 10), (95, 10)], &[]);
    let m = bids.market_impact(15, Side::Sell);
    assert_eq!(m.slippage, 5);
}

#[test]
fn statistics_and_pressure() {
    let book = book_with(&[(100, 10), (99, 20), (98, 30)], &[(101, 5)]);
    let s = book.depth_statistics(Side::Buy, 10);
    assert_eq!(s.total_volume, 60);
    assert_eq!(s.levels_count, 3);
    assert_eq!(s.min_level_size, 10);
    assert_eq!(s.max_level_size, 30);
    assert_eq!(s.weighted_price_sum, 1000 + 1980 + 2940);
    let s = book.depth_statistics(Side::Buy, 2);
    assert_eq!(s.total_volume, 30);
    assert_eq!(book.buy_sell_pressure(), (60, 5));
    assert!(book.is_thin_book(10, 5));
    assert!(!book.is_thin_book(5, 5));
}

#[test]
fn volume_by_price() {
    let book = book_with(&[(100, 10), (99, 20)], &[(101, 5)]);
    let (b, a) = book.get_volume_by_price();
    assert_eq!(b, vec![(100, 10), (99, 20)]);
    assert_eq!(a, vec![(101, 5)]);
}

#[test]
fn depth_histogram() {
    let levels: Vec<(u64, u64)> = (0..10).map(|i| (100 - i, 10)).collect();
    let book = book_with(&levels, &[]);
    let d = book.depth_distribution(Side::Buy, 5);
    assert_eq!(d.len(), 5);
    let ranges: Vec<(u64, u64)> = d.iter().map(|b| (b.min_price, b.max_price)).collect();
    assert_eq!(ranges, vec![(91, 93), (93, 95), (95, 97), (97, 99), (99, 101)]);
    assert!(d.iter().all(|b| b.volume == 20 && b.level_count == 2));
    assert!(book.depth_distribution(Side::Buy, 0).is_empty());
    assert!(book.depth_distribution(Side::Sell, 3).is_empty());
    let one = book_with(&[(50, 7)], &[]);
    let d = one.depth_distribution(Side::Buy, 2);
    assert_eq!((d[0].min_price, d[0].max_price, d[0].volume), (50, 51, 0));
    assert_eq!((d[1].min_price, d[1].max_price, d[1].volume, d[1].level_count), (51, 51, 7, 1));
}

#[test]
fn level_walks() {
    let book = book_with(&[(100, 10), (99, 15), (98, 20)], &[]);
    let all: Vec<(u64, u64, u64)> = book
        .levels_with_cumulative_depth(Side::Buy)
        .iter()
        .map(|l| (l.price, l.quantity, l.cumulative_depth))
        .collect();
    assert_eq!(all, vec![(100, 10, 10), (99, 15, 25), (98, 20, 45)]);
    let until: Vec<u64> = book.levels_until_depth(20, Side::Buy).iter().map(|l| l.price).collect();
    assert_eq!(until, vec![100, 99]);
    assert_eq!(book.levels_until_depth(30, Side::Buy).len(), 3);
    assert!(book.levels_until_depth(0, Side::Buy).is_empty());
    assert!(book.levels_with_cumulative_depth(Side::Sell).is_empty());
}
