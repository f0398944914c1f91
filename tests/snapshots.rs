use orderbook_rs::book::OrderBook;
use orderbook_rs::error::OrderBookError;
use orderbook_rs::options::PriceSource;
use orderbook_rs::snapshot::{payload_checksum, OrderBookSnapshotPackage};
use orderbook_rs::types::{Side, TimeInForce};

fn sample() -> OrderBook {
    let mut book = OrderBook::new("X");
    book.add_limit_order(1, 100, 10, Side::Buy, TimeInForce::Gtc, 1).unwrap();
    book.add_limit_order(2, 99, 5, Side::Buy, TimeInForce::Gtc, 1).unwrap();
    book.add_iceberg_order(3, 101, 2, 6, 2, Side::Sell, TimeInForce::Gtc, 1).unwrap();
    book
}

#[test]
fn snapshot_copies_levels() {
    let book = sample();
    let snap = book.create_snapshot(10, 77);
    assert_eq!(snap.symbol, "X");
    assert_eq!(snap.timestamp, 77);
    assert_eq!(snap.bids.len(), 2);
    assert_eq!(snap.bids[0].price, 100);
    assert_eq!(snap.bids[1].price, 99);
    assert_eq!(snap.asks[0].visible_quantity, 2);
    assert_eq!(snap.asks[0].hidden_quantity, 6);
    assert_eq!(snap.best_bid(), Some((100, 10)));
    assert_eq!(snap.best_ask(), Some((101, 2)));
    assert_eq!(snap.spread(), Some(1));
    assert_eq!(snap.total_bid_volume(), 15);
    assert_eq!(snap.total_ask_volume(), 8);
    assert_eq!(snap.total_bid_value(), 100 * 10 + 99 * 5);
    assert_eq!(snap.total_ask_value(), 101 * 8);
    let top = book.create_snapshot(1, 77);
    assert_eq!(top.bids.len(), 1);
}

#[test]
fn restore_round_trip() {
    let book = sample();
    let snap = book.create_snapshot(100, 5);
    let mut other = OrderBook::new("X");
    other.add_limit_order(9, 50, 1, Side::Buy, TimeInForce::Gtc, 1).unwrap();
    other.restore_from_snapshot(&snap).unwrap();
    assert_eq!(other.best_bid(), Some(100));
    assert_eq!(other.best_ask(), Some(101));
    assert!(other.get_order(9).is_none());
    assert_eq!(other.get_order(3).unwrap().hidden_quantity, 6);
    assert_eq!(other.get_volume_by_price(), book.get_volume_by_price());
    assert_eq!(other.last_trade_price(), None);
    other.restore_from_snapshot(&snap).unwrap();
    assert_eq!(other.get_volume_by_price(), book.get_volume_by_price());
}

#[test]
fn restore_other_symbol_is_refused() {
    let book = sample();
    let snap = book.create_snapshot(100, 5);
    let mut other = OrderBook::new("Y");
    let r = other.restore_from_snapshot(&snap);
    assert!(matches!(r, Err(OrderBookError::InvalidOperation { .. })));
    assert_eq!(other.best_bid(), None);
}

#[test]
fn refresh_recomputes_aggregates() {
    let book = sample();
    let mut snap = book.create_snapshot(100, 5);
    snap.bids[0].visible_quantity = 0;
    snap.refresh_aggregates();
    assert_eq!(snap.bids[0].visible_quantity, 10);
    assert_eq!(snap.bids[0].order_count, 1);
}

#[test]
fn package_checksum_detects_tampering() {
    let book = sample();
    let snap = book.create_snapshot(100, 5);
    let payload = b"{\"symbol\":\"X\"}".to_vec();
    let mut pkg = OrderBookSnapshotPackage::new(snap, &payload);
    assert_eq!(pkg.version, 1);
    assert_eq!(pkg.checksum.len(), 64);
    assert!(pkg.validate(&payload).is_ok());
    let mut flipped: Vec<char> = pkg.checksum.chars().collect();
    flipped[0] = if flipped[0] == '0' { '1' } else { '0' };
    pkg.checksum = flipped.into_iter().collect();
    assert!(matches!(pkg.validate(&payload), Err(OrderBookError::ChecksumMismatch { .. })));
}

#[test]
fn package_detects_changed_payload_and_version() {
    let book = sample();
    let payload = b"abc".to_vec();
    let mut pkg = OrderBookSnapshotPackage::new(book.create_snapshot(100, 5), &payload);
    assert_eq!(
        pkg.checksum,
        "ba7816bf8f01cfea414140de5dae2223b00361a396177a9cb410ff61f20015ad"
    );
    assert_eq!(payload_checksum(&payload), pkg.checksum);
    assert!(pkg.clone().into_snapshot(&b"abd".to_vec()).is_err());
    assert!(pkg.clone().into_snapshot(&payload).is_ok());
    pkg.version = 2;
    assert!(matches!(pkg.validate(&payload), Err(OrderBookError::InvalidOperation { .. })));
}

#[test]
fn test_price_source_default() {
    let source = PriceSource::default();
    assert_eq!(source, PriceSource::MidPrice);
}

#[test]
fn package_recomputes_aggregates() {
    let book = sample();
    let mut snap = book.create_snapshot(100, 5);
    snap.bids[0].visible_quantity = 999;
    snap.asks[0].order_count = 0;
    let pkg = OrderBookSnapshotPackage::new(snap, &b"payload".to_vec());
    assert_eq!(pkg.snapshot.bids[0].visible_quantity, 10);
    assert_eq!(pkg.snapshot.asks[0].order_count, 1);
    assert_eq!(pkg.checksum.len(), 64);
    assert!(pkg.checksum.chars().all(|c| c.is_ascii_digit() || ('a'..='f').contains(&c)));
}

#[test]
fn restore_refuses_crossed_snapshot() {
    let book = sample();
    let mut snap = book.create_snapshot(100, 5);
    snap.asks[0].price = 99;
    for o in snap.asks[0].orders.iter_mut() {
        o.price = 99;
    }
    let mut other = OrderBook::new("X");
    let r = other.restore_from_snapshot(&snap);
    assert!(matches!(r, Err(OrderBookError::WouldCross { order_id: 3, price: 99 })));
    assert_eq!(other.best_bid(), None);
}
