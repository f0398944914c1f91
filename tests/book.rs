use orderbook_rs::book::{OrderBook, OrderUpdate};
use orderbook_rs::error::OrderBookError;
use orderbook_rs::types::{Side, TimeInForce};

fn gtc(book: &mut OrderBook, id: u128, price: u64, qty: u64, side: Side) {
    book.add_limit_order(id, price, qty, side, TimeInForce::Gtc, 1).unwrap();
}

#[test]
fn post_only_crossing_is_refused() {
    let mut book = OrderBook::new("X");
    gtc(&mut book, 1, 100, 10, Side::Sell);
    let r = book.add_post_only_order(2, 100, 5, Side::Buy, TimeInForce::Gtc, 2);
    assert!(matches!(r, Err(OrderBookError::WouldCross { order_id: 2, price: 100 })));
    assert_eq!(book.best_ask(), Some(100));
    assert_eq!(book.best_bid(), None);
    assert_eq!(book.get_orders_at_price(100, Side::Sell).len(), 1);
    assert!(book.get_order(2).is_none());
}

#[test]
fn post_only_rests_when_not_crossing() {
    let mut book = OrderBook::new("X");
    gtc(&mut book, 1, 100, 10, Side::Sell);
    let r = book.add_post_only_order(2, 99, 5, Side::Buy, TimeInForce::Gtc, 2).unwrap();
    assert!(r.transactions.is_empty());
    assert_eq!(book.best_bid(), Some(99));
}

#[test]
fn price_time_priority() {
    let mut book = OrderBook::new("X");
    book.add_limit_order(3, 99, 5, Side::Buy, TimeInForce::Gtc, 1).unwrap();
    book.add_limit_order(4, 99, 5, Side::Buy, TimeInForce::Gtc, 2).unwrap();
    let m = book.submit_market_order(5, 7, Side::Sell, 3).unwrap();
    assert_eq!(m.transactions.len(), 2);
    assert_eq!(
        (m.transactions[0].maker_id, m.transactions[0].taker_id, m.transactions[0].price, m.transactions[0].quantity),
        (3, 5, 99, 5)
    );
    assert_eq!(
        (m.transactions[1].maker_id, m.transactions[1].taker_id, m.transactions[1].price, m.transactions[1].quantity),
        (4, 5, 99, 2)
    );
    assert_eq!(m.executed_quantity, 7);
    assert_eq!(m.remaining_quantity, 0);
    assert!(m.is_complete);
    assert!(book.get_order(3).is_none());
    assert_eq!(book.get_order(4).unwrap().visible_quantity, 3);
    assert_eq!(book.best_bid(), Some(99));
    assert_eq!(book.last_trade_price(), Some(99));
}

#[test]
fn better_price_matches_first() {
    let mut book = OrderBook::new("X");
    gtc(&mut book, 1, 102, 5, Side::Sell);
    gtc(&mut book, 2, 101, 5, Side::Sell);
    let m = book.add_limit_order(3, 102, 8, Side::Buy, TimeInForce::Gtc, 2).unwrap();
    assert_eq!(m.transactions[0].price, 101);
    assert_eq!(m.transactions[1].price, 102);
    assert_eq!(m.executed_quantity, 8);
    assert_eq!(book.best_ask(), Some(102));
    assert_eq!(book.get_order(1).unwrap().visible_quantity, 2);
}

#[test]
fn fill_or_kill_without_liquidity_is_refused() {
    let mut book = OrderBook::new("X");
    gtc(&mut book, 1, 100, 3, Side::Sell);
    gtc(&mut book, 2, 101, 4, Side::Sell);
    let r = book.add_limit_order(6, 101, 10, Side::Buy, TimeInForce::Fok, 2);
    assert!(matches!(
        r,
        Err(OrderBookError::CannotBeFullyFilled { order_id: 6, requested: 10, available: 7 })
    ));
    assert_eq!(book.get_volume_by_price().1, vec![(100, 3), (101, 4)]);
}

#[test]
fn fill_or_kill_with_liquidity_fills() {
    let mut book = OrderBook::new("X");
    gtc(&mut book, 1, 100, 3, Side::Sell);
    gtc(&mut book, 2, 101, 4, Side::Sell);
    let m = book.add_limit_order(6, 101, 7, Side::Buy, TimeInForce::Fok, 2).unwrap();
    assert_eq!(m.executed_quantity, 7);
    assert_eq!(book.best_ask(), None);
    assert!(book.get_order(6).is_none());
}

#[test]
fn iceberg_replenishes() {
    let mut book = OrderBook::new("X");
    book.add_iceberg_order(7, 50, 2, 8, 2, Side::Sell, TimeInForce::Gtc, 1).unwrap();
    let m = book.submit_market_order(8, 5, Side::Buy, 2).unwrap();
    let fills: Vec<(u128, u128, u64, u64)> =
        m.transactions.iter().map(|t| (t.maker_id, t.taker_id, t.price, t.quantity)).collect();
    assert_eq!(fills, vec![(7, 8, 50, 2), (7, 8, 50, 2), (7, 8, 50, 1)]);
    let g = book.get_order(7).unwrap();
    assert_eq!(g.visible_quantity + g.hidden_quantity, 5);
    assert_eq!(g.visible_quantity, 1);
    assert_eq!(g.hidden_quantity, 4);
}

#[test]
fn immediate_or_cancel_leaves_nothing() {
    let mut book = OrderBook::new("X");
    gtc(&mut book, 1, 100, 3, Side::Sell);
    let m = book.add_limit_order(2, 100, 5, Side::Buy, TimeInForce::Ioc, 2).unwrap();
    assert_eq!(m.executed_quantity, 3);
    assert_eq!(m.remaining_quantity, 2);
    assert_eq!(book.best_bid(), None);
    assert!(book.get_order(2).is_none());
}

#[test]
fn residual_rests_after_partial_match() {
    let mut book = OrderBook::new("X");
    gtc(&mut book, 1, 100, 3, Side::Sell);
    let m = book.add_limit_order(2, 100, 5, Side::Buy, TimeInForce::Gtc, 2).unwrap();
    assert_eq!(m.executed_quantity, 3);
    assert_eq!(book.best_bid(), Some(100));
    assert_eq!(book.get_order(2).unwrap().visible_quantity, 2);
    assert_eq!(book.best_ask(), None);
}

#[test]
fn zero_quantity_is_refused() {
    let mut book = OrderBook::new("X");
    let r = book.add_limit_order(1, 100, 0, Side::Buy, TimeInForce::Gtc, 1);
    assert!(matches!(r, Err(OrderBookError::InvalidQuantity { order_id: 1, .. })));
    let r = book.submit_market_order(2, 0, Side::Buy, 1);
    assert!(matches!(r, Err(OrderBookError::InvalidQuantity { order_id: 2, .. })));
}

#[test]
fn duplicate_id_is_refused() {
    let mut book = OrderBook::new("X");
    gtc(&mut book, 1, 100, 3, Side::Buy);
    let r = book.add_limit_order(1, 90, 3, Side::Buy, TimeInForce::Gtc, 1);
    assert!(matches!(r, Err(OrderBookError::DuplicateOrderId { order_id: 1 })));
}

#[test]
fn expired_orders_are_refused() {
    let mut book = OrderBook::new("X");
    let r = book.add_limit_order(1, 100, 3, Side::Buy, TimeInForce::Gtd(10), 10);
    assert!(matches!(r, Err(OrderBookError::Expired { order_id: 1 })));
    book.set_market_close_timestamp(50);
    let r = book.add_limit_order(2, 100, 3, Side::Buy, TimeInForce::Day, 60);
    assert!(matches!(r, Err(OrderBookError::Expired { order_id: 2 })));
    book.clear_market_close_timestamp();
    assert!(book.add_limit_order(3, 100, 3, Side::Buy, TimeInForce::Day, 60).is_ok());
}

#[test]
fn market_order_on_empty_side() {
    let mut book = OrderBook::new("X");
    let r = book.submit_market_order(1, 5, Side::Buy, 1);
    assert!(matches!(r, Err(OrderBookError::InsufficientLiquidity { order_id: 1, requested: 5 })));
}

#[test]
fn cancel_twice() {
    let mut book = OrderBook::new("X");
    gtc(&mut book, 1, 100, 3, Side::Buy);
    let o = book.cancel_order(1).unwrap();
    assert_eq!(o.id, 1);
    assert_eq!(o.price, 100);
    assert_eq!(book.best_bid(), None);
    let r = book.cancel_order(1);
    assert!(matches!(r, Err(OrderBookError::OrderNotFound { order_id: 1 })));
}

#[test]
fn cancel_keeps_other_orders() {
    let mut book = OrderBook::new("X");
    gtc(&mut book, 1, 100, 3, Side::Buy);
    gtc(&mut book, 2, 100, 4, Side::Buy);
    book.cancel_order(1).unwrap();
    assert_eq!(book.queue_ahead_at_price(100, Side::Buy), 1);
    assert_eq!(book.get_orders_at_price(100, Side::Buy)[0].id, 2);
}

#[test]
fn spread_and_best_prices() {
    let mut book = OrderBook::new("X");
    assert_eq!(book.spread(), None);
    gtc(&mut book, 1, 100, 10, Side::Buy);
    gtc(&mut book, 2, 105, 10, Side::Sell);
    assert_eq!(book.spread(), Some(5));
    assert_eq!(book.spread_absolute(), Some(5));
    assert_eq!(book.symbol(), "X");
}

#[test]
fn match_limit_order_does_not_rest() {
    let mut book = OrderBook::new("X");
    gtc(&mut book, 1, 100, 3, Side::Sell);
    gtc(&mut book, 2, 102, 3, Side::Sell);
    let m = book.match_limit_order(9, 5, Side::Buy, 101, 2).unwrap();
    assert_eq!(m.executed_quantity, 3);
    assert_eq!(m.remaining_quantity, 2);
    assert_eq!(book.best_bid(), None);
    assert_eq!(book.best_ask(), Some(102));
    let m = book.match_market_order(10, 1, Side::Buy, 3).unwrap();
    assert_eq!(m.transactions[0].price, 102);
}

#[test]
fn all_orders_listed() {
    let mut book = OrderBook::new("X");
    gtc(&mut book, 1, 99, 3, Side::Buy);
    gtc(&mut book, 2, 98, 3, Side::Buy);
    gtc(&mut book, 3, 101, 3, Side::Sell);
    let ids: Vec<u128> = book.get_all_orders().iter().map(|o| o.id).collect();
    assert_eq!(ids, vec![2, 1, 3]);
}

#[test]
fn matching_takes_exactly_what_trades() {
    let mut book = OrderBook::new("X");
    gtc(&mut book, 1, 100, 3, Side::Sell);
    gtc(&mut book, 2, 101, 4, Side::Sell);
    gtc(&mut book, 3, 90, 6, Side::Buy);
    let m = book.submit_market_order(9, 5, Side::Buy, 2).unwrap();
    let traded: u64 = m.transactions.iter().map(|t| t.quantity).sum();
    assert_eq!(traded, 5);
    assert_eq!(m.executed_quantity, 5);
    assert_eq!(book.buy_sell_pressure(), (6, 2));
    let m = book.submit_market_order(10, 50, Side::Buy, 3).unwrap();
    assert_eq!(m.executed_quantity, 2);
    assert_eq!(m.remaining_quantity, 48);
    assert!(!m.is_complete);
    assert_eq!(book.best_ask(), None);
    assert_eq!(m.filled_order_ids, vec![2]);
}

#[test]
fn update_loses_priority_and_may_trade() {
    let mut book = OrderBook::new("X");
    gtc(&mut book, 1, 99, 5, Side::Buy);
    gtc(&mut book, 2, 99, 5, Side::Buy);
    gtc(&mut book, 3, 101, 4, Side::Sell);
    book.update_order(1, OrderUpdate::UpdateQuantity { new_quantity: 8 }, 5).unwrap();
    let at_99: Vec<(u128, u64)> =
        book.get_orders_at_price(99, Side::Buy).iter().map(|o| (o.id, o.visible_quantity)).collect();
    assert_eq!(at_99, vec![(2, 5), (1, 8)]);
    let m = book.update_order(2, OrderUpdate::UpdatePrice { new_price: 101 }, 6).unwrap();
    assert_eq!(m.executed_quantity, 4);
    assert_eq!(book.best_bid(), Some(101));
    assert_eq!(book.get_order(2).unwrap().visible_quantity, 1);
    let m = book.update_order(1, OrderUpdate::Replace { price: 98, quantity: 2 }, 7).unwrap();
    assert!(m.transactions.is_empty());
    assert_eq!(book.get_order(1).unwrap().price, 98);
    let r = book.update_order(77, OrderUpdate::UpdateQuantity { new_quantity: 1 }, 8);
    assert!(matches!(r, Err(OrderBookError::OrderNotFound { order_id: 77 })));
}

#[test]
fn level_that_would_overflow_is_refused() {
    let mut book = OrderBook::new("X");
    gtc(&mut book, 1, 100, u64::MAX, Side::Buy);
    let r = book.add_limit_order(2, 100, 1, Side::Buy, TimeInForce::Gtc, 1);
    assert!(matches!(r, Err(OrderBookError::InvalidQuantity { order_id: 2, .. })));
    assert_eq!(book.queue_ahead_at_price(100, Side::Buy), 1);
    gtc(&mut book, 3, 99, u64::MAX, Side::Buy);
    assert_eq!(book.total_depth_at_levels(2, Side::Buy), u64::MAX);
    assert_eq!(book.vwap(u64::MAX, Side::Sell), Some(100u128 * u64::MAX as u128));
}

#[test]
fn iceberg_without_refill_is_refused() {
    let mut book = OrderBook::new("X");
    let r = book.add_iceberg_order(1, 50, 2, 8, 0, Side::Sell, TimeInForce::Gtc, 1);
    assert!(matches!(r, Err(OrderBookError::InvalidQuantity { order_id: 1, .. })));
    let r = book.add_iceberg_order(2, 50, 0, 8, 2, Side::Sell, TimeInForce::Gtc, 1);
    assert!(matches!(r, Err(OrderBookError::InvalidQuantity { order_id: 2, .. })));
    let r = book.add_iceberg_order(3, 50, u64::MAX, 1, 2, Side::Sell, TimeInForce::Gtc, 1);
    assert!(matches!(r, Err(OrderBookError::InvalidQuantity { order_id: 3, .. })));
}

#[test]
fn iceberg_taker_rests_with_hidden_part() {
    let mut book = OrderBook::new("X");
    gtc(&mut book, 1, 50, 3, Side::Sell);
    let m = book.add_iceberg_order(2, 50, 4, 6, 4, Side::Buy, TimeInForce::Gtc, 2).unwrap();
    assert_eq!(m.executed_quantity, 3);
    let g = book.get_order(2).unwrap();
    assert_eq!((g.visible_quantity, g.hidden_quantity), (4, 3));
}

#[test]
fn expired_makers_are_skipped_and_removed() {
    let mut book = OrderBook::new("X");
    book.add_limit_order(1, 100, 5, Side::Sell, TimeInForce::Gtd(50), 1).unwrap();
    gtc(&mut book, 2, 101, 5, Side::Sell);
    let m = book.submit_market_order(3, 4, Side::Buy, 60).unwrap();
    assert_eq!(m.transactions.len(), 1);
    assert_eq!(m.transactions[0].maker_id, 2);
    assert_eq!(m.transactions[0].price, 101);
    assert!(book.get_order(1).is_none());
    assert_eq!(book.best_ask(), Some(101));
}

#[test]
fn fill_or_kill_ignores_expired_liquidity() {
    let mut book = OrderBook::new("X");
    book.set_market_close_timestamp(50);
    book.add_limit_order(1, 100, 5, Side::Sell, TimeInForce::Day, 1).unwrap();
    gtc(&mut book, 2, 100, 2, Side::Sell);
    let r = book.add_limit_order(3, 100, 4, Side::Buy, TimeInForce::Fok, 60);
    assert!(matches!(r, Err(OrderBookError::CannotBeFullyFilled { requested: 4, available: 2, .. })));
    let m = book.add_limit_order(4, 100, 2, Side::Buy, TimeInForce::Fok, 60).unwrap();
    assert_eq!(m.executed_quantity, 2);
    assert_eq!(book.best_ask(), None);
}

#[test]
fn market_order_against_only_expired_orders() {
    let mut book = OrderBook::new("X");
    book.add_limit_order(1, 100, 5, Side::Buy, TimeInForce::Gtd(10), 1).unwrap();
    let m = book.submit_market_order(2, 3, Side::Sell, 20).unwrap();
    assert_eq!(m.executed_quantity, 0);
    assert_eq!(m.remaining_quantity, 3);
    assert_eq!(book.best_bid(), None);
}
