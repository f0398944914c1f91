//! Point-in-time copies of the book, restoring a book from one, and the
//! checksum envelope that protects a serialized snapshot.
use vstd::prelude::*;
use sha2::Digest;
use crate::book::OrderBook;
use crate::error::OrderBookError;
use crate::level::{PriceLevel, visible_sum, hidden_sum, quantity_sum};
use crate::store::{ascending_keys, level_map_first_key, level_map_get, level_map_keys,
    level_map_last_key, levels_of, location_get};
use crate::types::{Order, Side};
use crate::depth::cap;

verus! {

/// The schema version of snapshot packages.
pub const ORDERBOOK_SNAPSHOT_FORMAT_VERSION: u32 = 1;

/// One level of a snapshot: its price, aggregates and orders in time
/// priority.
#[derive(Clone, Debug)]
pub struct PriceLevelSnapshot {
    pub price: u64,
    pub visible_quantity: u64,
    pub hidden_quantity: u64,
    pub order_count: usize,
    pub orders: Vec<Order>,
}

impl PriceLevelSnapshot {
    /// The snapshot is an exact copy of `l`.
    pub open spec fn copies(&self, l: PriceLevel) -> bool {
        &&& self.price == l.price
        &&& self.visible_quantity == l.visible_total
        &&& self.hidden_quantity == l.hidden_total
        &&& self.order_count == l.orders@.len()
        &&& self.orders@ == l.orders@
    }

    /// Visible plus hidden quantity, capped at `u64::MAX`.
    pub fn total_quantity(&self) -> (r: u64)
        ensures
            r == cap(self.visible_quantity + self.hidden_quantity),
    {
        self.visible_quantity.saturating_add(self.hidden_quantity)
    }

    /// Recomputes the aggregates from the orders (sums capped at
    /// `u64::MAX`).
    pub fn refresh_aggregates(&mut self)
        ensures
            final(self).orders@ == old(self).orders@,
            final(self).price == old(self).price,
            final(self).visible_quantity == cap(visible_sum(old(self).orders@)),
            final(self).hidden_quantity == cap(hidden_sum(old(self).orders@)),
            final(self).order_count == old(self).orders@.len(),
    {
        let mut v: u64 = 0;
        let mut h: u64 = 0;
        let mut i: usize = 0;
        proof {
            assert(self.orders@.subrange(0, 0) =~= Seq::<Order>::empty());
        }
        while i < self.orders.len()
            invariant
                i <= self.orders@.len(),
                v == cap(visible_sum(self.orders@.subrange(0, i as int))),
                h == cap(hidden_sum(self.orders@.subrange(0, i as int))),
            decreases self.orders@.len() - i,
        {
            proof {
                let a = self.orders@.subrange(0, i as int);
                let b = self.orders@.subrange(0, i + 1);
                assert(b.drop_last() =~= a);
                crate::level::lemma_sums_nonneg(a);
            }
            v = v.saturating_add(self.orders[i].visible_quantity);
            h = h.saturating_add(self.orders[i].hidden_quantity);
            i = i + 1;
        }
        proof {
            assert(self.orders@.subrange(0, self.orders@.len() as int) =~= self.orders@);
        }
        self.visible_quantity = v;
        self.hidden_quantity = h;
        self.order_count = self.orders.len();
    }
}

/// The book at one instant: the best levels of each side, best first.
#[derive(Clone, Debug)]
pub struct OrderBookSnapshot {
    pub symbol: String,
    pub timestamp: u64,
    pub bids: Vec<PriceLevelSnapshot>,
    pub asks: Vec<PriceLevelSnapshot>,
}

impl OrderBookSnapshot {
    /// Recomputes the aggregates of every level.
    pub fn refresh_aggregates(&mut self)
        ensures
            refreshed(*old(self), *final(self)),
    {
        refresh_levels(&mut self.bids);
        refresh_levels(&mut self.asks);
    }

    /// The highest bid level as `(price, visible quantity)`.
    pub fn best_bid(&self) -> (r: Option<(u64, u64)>)
        ensures
            self.bids@.len() == 0 <==> r is None,
            self.bids@.len() > 0 ==> exists|i: int| 0 <= i < self.bids@.len() && #[trigger] self.bids@[i].price == (r->0).0
                && (r->0).1 == self.bids@[i].visible_quantity && forall|j: int| 0 <= j < self.bids@.len() ==> #[trigger] self.bids@[j].price <= (r->0).0,
    {
        best_of(&self.bids, true)
    }

    /// The lowest ask level as `(price, visible quantity)`.
    pub fn best_ask(&self) -> (r: Option<(u64, u64)>)
        ensures
            self.asks@.len() == 0 <==> r is None,
            self.asks@.len() > 0 ==> exists|i: int| 0 <= i < self.asks@.len() && #[trigger] self.asks@[i].price == (r->0).0
                && (r->0).1 == self.asks@[i].visible_quantity && forall|j: int| 0 <= j < self.asks@.len() ==> #[trigger] self.asks@[j].price >= (r->0).0,
    {
        best_of(&self.asks, false)
    }

    /// Best ask price minus best bid price (0 if crossed), when both sides
    /// have a level.
    pub fn spread(&self) -> (r: Option<u64>)
        ensures
            (self.bids@.len() == 0 || self.asks@.len() == 0) <==> r is None,
            r is Some ==> exists|b: u64, a: u64|
                #[trigger] is_extreme_price(self.bids@, b, true) && #[trigger] is_extreme_price(self.asks@, a, false) && r->0 == (if a
                    >= b {
                    (a - b) as u64
                } else {
                    0
                }),
    {
        match (self.best_bid(), self.best_ask()) {
            (Some((b, _)), Some((a, _))) => {
                assert(is_extreme_price(self.bids@, b, true));
                assert(is_extreme_price(self.asks@, a, false));
                Some(a.saturating_sub(b))
            },
            _ => None,
        }
    }

    /// Total quantity of the bid levels, capped at `u64::MAX`.
    pub fn total_bid_volume(&self) -> (r: u64)
        ensures
            r == cap(volume_sum(self.bids@)),
    {
        total_volume(&self.bids)
    }

    /// Total quantity of the ask levels, capped at `u64::MAX`.
    pub fn total_ask_volume(&self) -> (r: u64)
        ensures
            r == cap(volume_sum(self.asks@)),
    {
        total_volume(&self.asks)
    }

    /// Sum over bid levels of price times quantity, capped at `u64::MAX`.
    pub fn total_bid_value(&self) -> (r: u64)
        ensures
            r == cap(value_sum(self.bids@)),
    {
        total_value(&self.bids)
    }

    /// Sum over ask levels of price times quantity, capped at `u64::MAX`.
    pub fn total_ask_value(&self) -> (r: u64)
        ensures
            r == cap(value_sum(self.asks@)),
    {
        total_value(&self.asks)
    }
}

/// Sum over levels of price times (capped) quantity, each product capped.
pub open spec fn value_sum(s: Seq<PriceLevelSnapshot>) -> int
    decreases s.len(),
{
    if s.len() == 0 {
        0
    } else {
        value_sum(s.drop_last()) + cap(s.last().price * cap(s.last().visible_quantity + s.last().hidden_quantity))
    }
}

fn total_value(levels: &Vec<PriceLevelSnapshot>) -> (r: u64)
    ensures
        r == cap(value_sum(levels@)),
{
    let mut total: u64 = 0;
    let mut i: usize = 0;
    proof {
        assert(levels@.subrange(0, 0) =~= Seq::<PriceLevelSnapshot>::empty());
    }
    while i < levels.len()
        invariant
            i <= levels@.len(),
            total == cap(value_sum(levels@.subrange(0, i as int))),
            value_sum(levels@.subrange(0, i as int)) >= 0,
        decreases levels@.len() - i,
    {
        proof {
            let a = levels@.subrange(0, i as int);
            let b = levels@.subrange(0, i + 1);
            assert(b.drop_last() =~= a);
        }
        let price = levels[i].price;
        let qty = levels[i].total_quantity();
        proof {
            assert(0 <= (price as int) * (qty as int) <= 0xffff_ffff_ffff_ffff * 0xffff_ffff_ffff_ffffint) by (nonlinear_arith)
                requires price <= 0xffff_ffff_ffff_ffff, qty <= 0xffff_ffff_ffff_ffff;
        }
        let product = (price as u128) * (qty as u128);
        let capped: u64 = if product > u64::MAX as u128 { u64::MAX } else { product as u64 };
        total = total.saturating_add(capped);
        i = i + 1;
    }
    proof {
        assert(levels@.subrange(0, levels@.len() as int) =~= levels@);
    }
    total
}

/// `b` is `a` with every level's aggregates recomputed from its orders
/// (sums capped at `u64::MAX`); symbol, timestamp, prices and orders kept.
pub open spec fn refreshed(a: OrderBookSnapshot, b: OrderBookSnapshot) -> bool {
    &&& b.symbol == a.symbol
    &&& b.timestamp == a.timestamp
    &&& b.bids@.len() == a.bids@.len()
    &&& b.asks@.len() == a.asks@.len()
    &&& forall|i: int| 0 <= i < b.bids@.len() ==> {
        &&& (#[trigger] b.bids@[i]).orders@ == a.bids@[i].orders@
        &&& b.bids@[i].price == a.bids@[i].price
        &&& b.bids@[i].visible_quantity == cap(visible_sum(a.bids@[i].orders@))
        &&& b.bids@[i].hidden_quantity == cap(hidden_sum(a.bids@[i].orders@))
        &&& b.bids@[i].order_count == a.bids@[i].orders@.len()
    }
    &&& forall|i: int| 0 <= i < b.asks@.len() ==> {
        &&& (#[trigger] b.asks@[i]).orders@ == a.asks@[i].orders@
        &&& b.asks@[i].price == a.asks@[i].price
        &&& b.asks@[i].visible_quantity == cap(visible_sum(a.asks@[i].orders@))
        &&& b.asks@[i].hidden_quantity == cap(hidden_sum(a.asks@[i].orders@))
        &&& b.asks@[i].order_count == a.asks@[i].orders@.len()
    }
}

/// `p` is the highest (or lowest) price among the levels.
pub open spec fn is_extreme_price(levels: Seq<PriceLevelSnapshot>, p: u64, highest: bool) -> bool {
    &&& exists|i: int| 0 <= i < levels.len() && #[trigger] levels[i].price == p
    &&& forall|j: int| 0 <= j < levels.len() ==> (highest ==> #[trigger] levels[j].price <= p) && (!highest ==> levels[j].price >= p)
}

/// Sum over levels of their (capped) total quantities.
pub open spec fn volume_sum(s: Seq<PriceLevelSnapshot>) -> int
    decreases s.len(),
{
    if s.len() == 0 {
        0
    } else {
        volume_sum(s.drop_last()) + cap(s.last().visible_quantity + s.last().hidden_quantity)
    }
}

fn total_volume(levels: &Vec<PriceLevelSnapshot>) -> (r: u64)
    ensures
        r == cap(volume_sum(levels@)),
{
    let mut total: u64 = 0;
    let mut i: usize = 0;
    proof {
        assert(levels@.subrange(0, 0) =~= Seq::<PriceLevelSnapshot>::empty());
    }
    while i < levels.len()
        invariant
            i <= levels@.len(),
            total == cap(volume_sum(levels@.subrange(0, i as int))),
            volume_sum(levels@.subrange(0, i as int)) >= 0,
        decreases levels@.len() - i,
    {
        proof {
            let a = levels@.subrange(0, i as int);
            let b = levels@.subrange(0, i + 1);
            assert(b.drop_last() =~= a);
        }
        total = total.saturating_add(levels[i].total_quantity());
        i = i + 1;
    }
    proof {
        assert(levels@.subrange(0, levels@.len() as int) =~= levels@);
    }
    total
}

fn best_of(levels: &Vec<PriceLevelSnapshot>, highest: bool) -> (r: Option<(u64, u64)>)
    ensures
        levels@.len() == 0 <==> r is None,
        levels@.len() > 0 ==> exists|i: int| 0 <= i < levels@.len() && #[trigger] levels@[i].price == (r->0).0 && (r->0).1
            == levels@[i].visible_quantity && forall|j: int|
            0 <= j < levels@.len() ==> (highest ==> #[trigger] levels@[j].price <= (r->0).0) && (!highest ==> levels@[j].price >= (r->0).0),
{
    if levels.len() == 0 {
        return None;
    }
    let mut best: usize = 0;
    let mut i: usize = 1;
    while i < levels.len()
        invariant
            1 <= i <= levels@.len(),
            best < i,
            forall|j: int| 0 <= j < i ==> (highest ==> #[trigger] levels@[j].price <= levels@[best as int].price) && (!highest
                ==> levels@[j].price >= levels@[best as int].price),
        decreases levels@.len() - i,
    {
        if (highest && levels[i].price > levels[best].price) || (!highest && levels[i].price < levels[best].price) {
            best = i;
        }
        i = i + 1;
    }
    Some((levels[best].price, levels[best].visible_quantity))
}

fn refresh_levels(levels: &mut Vec<PriceLevelSnapshot>)
    ensures
        final(levels)@.len() == old(levels)@.len(),
        forall|i: int| 0 <= i < final(levels)@.len() ==> {
            &&& (#[trigger] final(levels)@[i]).orders@ == old(levels)@[i].orders@
            &&& final(levels)@[i].price == old(levels)@[i].price
            &&& final(levels)@[i].visible_quantity == cap(visible_sum(old(levels)@[i].orders@))
            &&& final(levels)@[i].hidden_quantity == cap(hidden_sum(old(levels)@[i].orders@))
            &&& final(levels)@[i].order_count == old(levels)@[i].orders@.len()
        },
{
    let ghost before = levels@;
    let mut i: usize = 0;
    while i < levels.len()
        invariant
            levels@.len() == before.len(),
            i <= levels@.len(),
            forall|j: int| i <= j < levels@.len() ==> #[trigger] levels@[j] == before[j],
            forall|j: int| 0 <= j < i ==> {
                &&& (#[trigger] levels@[j]).orders@ == before[j].orders@
                &&& levels@[j].price == before[j].price
                &&& levels@[j].visible_quantity == cap(visible_sum(before[j].orders@))
                &&& levels@[j].hidden_quantity == cap(hidden_sum(before[j].orders@))
                &&& levels@[j].order_count == before[j].orders@.len()
            },
        decreases levels@.len() - i,
    {
        let mut l = levels.remove(i);
        l.refresh_aggregates();
        levels.insert(i, l);
        proof {
            assert forall|j: int| i < j < levels@.len() implies #[trigger] levels@[j] == before[j] by {}
        }
        i = i + 1;
    }
}


impl OrderBook {
    /// Copies of the best `depth` levels of `side`, best first.
    fn level_snapshots(&self, side: Side, depth: usize) -> (r: Vec<PriceLevelSnapshot>)
        requires
            self.wf(),
        ensures
            r@.len() == (if depth < self.best_first(side).len() { depth as int } else { self.best_first(side).len() as int }),
            forall|i: int| 0 <= i < r@.len() ==> (#[trigger] r@[i]).copies(self.side_levels(side)[self.best_first(side)[i]]),
    {
        let keys = match side {
            Side::Buy => level_map_keys(&self.bids),
            Side::Sell => level_map_keys(&self.asks),
        };
        let n = keys.len();
        let m = if depth < n { depth } else { n };
        let mut out: Vec<PriceLevelSnapshot> = Vec::new();
        let mut i: usize = 0;
        while i < m
            invariant
                self.wf(),
                n == keys@.len(),
                m <= n,
                m == (if depth < n { depth as int } else { n as int }),
                keys@ == ascending_keys(self.side_levels(side)),
                forall|k: u64| self.side_levels(side).dom().contains(k) <==> keys@.contains(k),
                i <= m,
                out@.len() == i,
                forall|j: int| 0 <= j < i ==> (#[trigger] out@[j]).copies(self.side_levels(side)[self.best_first(side)[j]]),
            decreases m - i,
        {
            let k = match side {
                Side::Sell => keys[i],
                Side::Buy => keys[n - 1 - i],
            };
            proof {
                assert(self.best_first(side)[i as int] == k);
                assert(keys@.contains(k));
                if side == Side::Buy {
                    assert(levels_of(self.bids).dom().contains(k));
                } else {
                    assert(levels_of(self.asks).dom().contains(k));
                }
            }
            let got = match side {
                Side::Buy => level_map_get(&self.bids, k),
                Side::Sell => level_map_get(&self.asks, k),
            };
            match got {
                Some(l) => {
                    let count = l.orders.len();
                    out.push(
                        PriceLevelSnapshot {
                            price: l.price,
                            visible_quantity: l.visible_total,
                            hidden_quantity: l.hidden_total,
                            order_count: count,
                            orders: l.orders,
                        },
                    );
                },
                None => {
                    return out;
                },
            }
            i = i + 1;
        }
        proof {
            assert(self.best_first(side).len() == n);
        }
        out
    }

    /// A copy of the best `depth` levels of each side, best first, stamped
    /// with `timestamp`.
    pub fn create_snapshot(&self, depth: usize, timestamp: u64) -> (r: OrderBookSnapshot)
        requires
            self.wf(),
        ensures
            r.symbol@ == self.symbol_spec()@,
            r.timestamp == timestamp,
            r.bids@.len() == (if depth < self.best_first(Side::Buy).len() { depth as int } else { self.best_first(Side::Buy).len() as int }),
            r.asks@.len() == (if depth < self.best_first(Side::Sell).len() { depth as int } else { self.best_first(Side::Sell).len() as int }),
            forall|i: int| 0 <= i < r.bids@.len() ==> (#[trigger] r.bids@[i]).copies(self.side_levels(Side::Buy)[self.best_first(Side::Buy)[i]]),
            forall|i: int| 0 <= i < r.asks@.len() ==> (#[trigger] r.asks@[i]).copies(self.side_levels(Side::Sell)[self.best_first(Side::Sell)[i]]),
    {
        let bids = self.level_snapshots(Side::Buy, depth);
        let asks = self.level_snapshots(Side::Sell, depth);
        OrderBookSnapshot { symbol: self.symbol.clone(), timestamp, bids, asks }
    }

    /// Rests `order` at `price` on `side` if it belongs there and the book
    /// can take it: right side and price, a positive visible quantity, a way
    /// to refill hidden quantity, a fresh id, no crossing, room in the
    /// level. Returns whether it did.
    fn try_rest(&mut self, order: Order, side: Side, price: u64) -> (ok: bool)
        requires
            old(self).wf(),
        ensures
            final(self).wf(),
            final(self).symbol_spec() == old(self).symbol_spec(),
            final(self).last_trade_spec() == old(self).last_trade_spec(),
            final(self).market_close_spec() == old(self).market_close_spec(),
            ok == rest_ok(*old(self), order, side, price),
            ok ==> final(self).locations() == old(self).locations().insert(order.id, (price, side)),
            ok ==> final(self).side_levels(side.opposite_spec()) == old(self).side_levels(side.opposite_spec()),
            ok ==> final(self).side_levels(side).dom() == old(self).side_levels(side).dom().insert(price),
            ok && old(self).side_levels(side).dom().contains(price) ==> final(self).side_levels(side)[price].orders@
                == old(self).side_levels(side)[price].orders@.push(order),
            ok && !old(self).side_levels(side).dom().contains(price) ==> final(self).side_levels(side)[price].orders@
                == seq![order],
            ok ==> final(self).side_levels(side).remove(price) == old(self).side_levels(side).remove(price),
            !ok ==> *final(self) == *old(self),
    {
        if order.side != side || order.price != price || order.visible_quantity == 0 || (order.hidden_quantity > 0
            && order.replenish_amount == 0) || order.visible_quantity > u64::MAX - order.hidden_quantity {
            return false;
        }
        if location_get(&self.order_locations, order.id).is_some() {
            return false;
        }
        let crossing = match side {
            Side::Buy => match level_map_first_key(&self.asks) {
                None => false,
                Some(a) => {
                    proof {
                        assert(self.side_levels(Side::Sell).dom().contains(a));
                    }
                    a <= price
                },
            },
            Side::Sell => match level_map_last_key(&self.bids) {
                None => false,
                Some(b) => {
                    proof {
                        assert(self.side_levels(Side::Buy).dom().contains(b));
                    }
                    price <= b
                },
            },
        };
        if crossing {
            return false;
        }
        if !self.level_has_room_for(price, side, order.visible_quantity + order.hidden_quantity) {
            return false;
        }
        proof {
            if side == Side::Buy {
                assert forall|a: u64| #[trigger] self.side_levels(Side::Sell).dom().contains(a) implies price < a by {
                    assert(levels_of(self.asks).dom().contains(a));
                }
            } else {
                assert forall|b: u64| #[trigger] self.side_levels(Side::Buy).dom().contains(b) implies b < price by {
                    assert(levels_of(self.bids).dom().contains(b));
                }
            }
        }
        self.rest_resting_order(order);
        true
    }

    /// Why `order`, listed at `price` on `side`, cannot rest on this book:
    /// see [`is_refusal`].
    fn refusal(&self, order: Order, side: Side, price: u64) -> (e: OrderBookError)
        requires
            self.wf(),
        ensures
            is_refusal(e, *self, order, side, price),
    {
        if order.side != side || order.price != price {
            return OrderBookError::InvalidOperation { message: "snapshot lists an order at another price or side".to_string() };
        }
        if order.visible_quantity == 0 || (order.hidden_quantity > 0 && order.replenish_amount == 0)
            || order.visible_quantity > u64::MAX - order.hidden_quantity {
            return OrderBookError::InvalidQuantity { order_id: order.id, quantity: order.visible_quantity };
        }
        if location_get(&self.order_locations, order.id).is_some() {
            return OrderBookError::DuplicateOrderId { order_id: order.id };
        }
        let crossing = match side {
            Side::Buy => match level_map_first_key(&self.asks) {
                None => false,
                Some(a) => {
                    proof {
                        assert(self.side_levels(Side::Sell).dom().contains(a));
                    }
                    a <= price
                },
            },
            Side::Sell => match level_map_last_key(&self.bids) {
                None => false,
                Some(b) => {
                    proof {
                        assert(self.side_levels(Side::Buy).dom().contains(b));
                    }
                    price <= b
                },
            },
        };
        if crossing {
            return OrderBookError::WouldCross { order_id: order.id, price };
        }
        OrderBookError::InvalidQuantity { order_id: order.id, quantity: order.visible_quantity + order.hidden_quantity }
    }

    /// Rests every order of `levels` on `side`, which holds no level yet,
    /// level after level, while each one is accepted; returns whether all
    /// were.
    fn load_levels(&mut self, levels: &Vec<PriceLevelSnapshot>, side: Side) -> (r: Result<(), OrderBookError>)
        requires
            old(self).wf(),
            old(self).side_levels(side).dom().is_empty(),
        ensures
            final(self).wf(),
            final(self).symbol_spec() == old(self).symbol_spec(),
            final(self).last_trade_spec() == old(self).last_trade_spec(),
            final(self).market_close_spec() == old(self).market_close_spec(),
            final(self).side_levels(side.opposite_spec()) == old(self).side_levels(side.opposite_spec()),
            forall|id: u128| #[trigger] old(self).locations().dom().contains(id) ==> final(self).locations().dom().contains(id)
                && final(self).locations()[id] == old(self).locations()[id],
            r is Ok ==> forall|i: int, k: int|
                0 <= i < levels@.len() && 0 <= k < levels@[i].orders@.len() ==> {
                    &&& final(self).locations().dom().contains(#[trigger] levels@[i].orders@[k].id)
                    &&& final(self).locations()[levels@[i].orders@[k].id] == (levels@[i].price, side)
                },
            r is Ok ==> forall|id: u128| #[trigger] final(self).locations().dom().contains(id) ==> old(self).locations().dom().contains(id)
                || loaded_ids(levels@, levels@.len() as int, 0).contains(id),
            r is Ok && prices_distinct(levels@) ==> map_loaded(final(self).side_levels(side), levels@, levels@.len() as int, 0),
            load_fits(*old(self), levels@, side) ==> r is Ok,
            r is Err ==> refusal_names(r->Err_0, levels@),
    {
        let ghost b0 = *self;
        let mut i: usize = 0;
        proof {
            assert(map_loaded(self.side_levels(side), levels@, 0, 0));
        }
        while i < levels.len()
            invariant
                self.wf(),
                i <= levels@.len(),
                self.symbol == b0.symbol_spec(),
                self.last_trade_price == b0.last_trade_spec(),
                self.market_close_timestamp == b0.market_close_spec(),
                b0 == *old(self),
                self.side_levels(side.opposite_spec()) == b0.side_levels(side.opposite_spec()),
                forall|id: u128| #[trigger] b0.locations().dom().contains(id) ==> self.locations().dom().contains(id)
                    && self.locations()[id] == b0.locations()[id],
                forall|a: int, k: int|
                    0 <= a < i && 0 <= k < levels@[a].orders@.len() ==> {
                        &&& self.locations().dom().contains(#[trigger] levels@[a].orders@[k].id)
                        &&& self.locations()[levels@[a].orders@[k].id] == (levels@[a].price, side)
                    },
                forall|id: u128| #[trigger] self.locations().dom().contains(id) ==> b0.locations().dom().contains(id)
                    || loaded_ids(levels@, i as int, 0).contains(id),
                prices_distinct(levels@) ==> map_loaded(self.side_levels(side), levels@, i as int, 0),
            decreases levels@.len() - i,
        {
            let level = &levels[i];
            let mut k: usize = 0;
            while k < level.orders.len()
                invariant
                    self.wf(),
                    i < levels@.len(),
                    *level == levels@[i as int],
                    k <= level.orders@.len(),
                    self.symbol == b0.symbol_spec(),
                    self.last_trade_price == b0.last_trade_spec(),
                    self.market_close_timestamp == b0.market_close_spec(),
                    b0 == *old(self),
                    self.side_levels(side.opposite_spec()) == b0.side_levels(side.opposite_spec()),
                    forall|id: u128| #[trigger] b0.locations().dom().contains(id) ==> self.locations().dom().contains(id)
                        && self.locations()[id] == b0.locations()[id],
                    forall|a: int, c: int|
                        0 <= a < i && 0 <= c < levels@[a].orders@.len() ==> {
                            &&& self.locations().dom().contains(#[trigger] levels@[a].orders@[c].id)
                            &&& self.locations()[levels@[a].orders@[c].id] == (levels@[a].price, side)
                        },
                    forall|c: int|
                        0 <= c < k ==> {
                            &&& self.locations().dom().contains(#[trigger] level.orders@[c].id)
                            &&& self.locations()[level.orders@[c].id] == (level.price, side)
                        },
                    forall|id: u128| #[trigger] self.locations().dom().contains(id) ==> b0.locations().dom().contains(id)
                        || loaded_ids(levels@, i as int, k as int).contains(id),
                    prices_distinct(levels@) ==> map_loaded(self.side_levels(side), levels@, i as int, k as int),
                decreases level.orders@.len() - k,
            {
                let ghost before = *self;
                let o = level.orders[k];
                proof {
                    if load_fits(b0, levels@, side) {
                        lemma_fits_rest_ok(b0, before, levels@, side, i as int, k as int);
                    }
                }
                if !self.try_rest(o, side, level.price) {
                    let e = self.refusal(o, side, level.price);
                    proof {
                        assert(levels@[i as int].orders@[k as int] == o);
                    }
                    return Err(e);
                }
                proof {
                    lemma_load_step(before, *self, levels@, side, i as int, k as int);
                    assert forall|id: u128| #[trigger] b0.locations().dom().contains(id) implies self.locations().dom().contains(id)
                        && self.locations()[id] == b0.locations()[id] by {
                        assert(id != level.orders@[k as int].id);
                    }
                }
                k = k + 1;
            }
            proof {
                lemma_loaded_next_level(levels@, i as int);
                if prices_distinct(levels@) {
                    lemma_map_loaded_next_level(self.side_levels(side), levels@, i as int);
                }
            }
            i = i + 1;
        }
        Ok(())
    }

    /// Replaces the book's levels and index with those of `snapshot`, and
    /// clears the last trade price and the market close. Refused, leaving
    /// the book as it was, when the symbol differs (`InvalidOperation`), or
    /// when an order of the snapshot cannot rest where it is listed without
    /// breaking the book's invariants; [`is_refusal`] gives the error kind
    /// of each such case. A snapshot that fits (see [`snapshot_fits`]) is
    /// always restored.
    pub fn restore_from_snapshot(&mut self, snapshot: &OrderBookSnapshot) -> (r: Result<(), OrderBookError>)
        requires
            old(self).wf(),
        ensures
            final(self).wf(),
            restore_post(*old(self), *snapshot, *final(self), r),
    {
        if !(snapshot.symbol == self.symbol) {
            return Err(OrderBookError::InvalidOperation { message: "snapshot symbol does not match the book".to_string() });
        }
        let mut fresh = OrderBook::new(self.symbol.as_str());
        fresh.next_transaction_id = self.next_transaction_id;
        let ghost f0 = fresh;
        proof {
            if snapshot_fits(*snapshot) {
                assert(load_fits(f0, snapshot.bids@, Side::Buy));
            }
        }
        match fresh.load_levels(&snapshot.bids, Side::Buy) {
            Err(e) => return Err(e),
            Ok(()) => {},
        }
        let ghost f1 = fresh;
        proof {
            if snapshot_fits(*snapshot) {
                lemma_asks_fit_after_bids(f0, f1, *snapshot);
            }
        }
        match fresh.load_levels(&snapshot.asks, Side::Sell) {
            Err(e) => return Err(e),
            Ok(()) => {},
        }
        *self = fresh;
        Ok(())
    }
}

/// Level prices are pairwise distinct.
pub open spec fn prices_distinct(levels: Seq<PriceLevelSnapshot>) -> bool {
    forall|i: int, j: int| 0 <= i < j < levels.len() ==> #[trigger] levels[i].price != #[trigger] levels[j].price
}

/// The ids of the orders of levels `0..i`, and of the first `k` orders of
/// level `i`.
pub open spec fn loaded_ids(levels: Seq<PriceLevelSnapshot>, i: int, k: int) -> Set<u128> {
    Set::new(
        |id: u128|
            exists|j: int, c: int|
                0 <= j < levels.len() && 0 <= c < levels[j].orders@.len() && (j < i || (j == i && c < k))
                    && #[trigger] levels[j].orders@[c].id == id,
    )
}

/// `m` holds exactly levels `0..i` with their orders, and the first `k`
/// orders of level `i`.
pub open spec fn map_loaded(m: Map<u64, PriceLevel>, levels: Seq<PriceLevelSnapshot>, i: int, k: int) -> bool {
    &&& forall|j: int|
        0 <= j < i && levels[j].orders@.len() > 0 ==> m.dom().contains(#[trigger] levels[j].price)
            && m[levels[j].price].orders@ == levels[j].orders@
    &&& k > 0 ==> m.dom().contains(levels[i].price) && m[levels[i].price].orders@ == levels[i].orders@.subrange(0, k)
    &&& forall|p: u64|
        #[trigger] m.dom().contains(p) ==> (exists|j: int| 0 <= j < i && levels[j].orders@.len() > 0 && #[trigger] levels[j].price == p)
            || (k > 0 && p == levels[i].price)
}

/// `book` accepts `order` at `price` on `side`.
pub open spec fn rest_ok(book: OrderBook, order: Order, side: Side, price: u64) -> bool {
    &&& order.side == side
    &&& order.price == price
    &&& order.can_rest()
    &&& order.total_spec() <= u64::MAX
    &&& !book.locations().dom().contains(order.id)
    &&& side == Side::Buy ==> forall|a: u64| #[trigger] book.side_levels(Side::Sell).dom().contains(a) ==> price < a
    &&& side == Side::Sell ==> forall|b: u64| #[trigger] book.side_levels(Side::Buy).dom().contains(b) ==> b < price
    &&& book.side_levels(side).dom().contains(price) ==> book.side_levels(side)[price].total_spec() + order.total_spec() <= u64::MAX
}

/// The levels can rest on `side` of an empty side: distinct prices, each
/// level holding orders that fit in one level, of that side and price, that
/// can rest, with ids unique among all the levels.
pub open spec fn levels_fit(levels: Seq<PriceLevelSnapshot>, side: Side) -> bool {
    &&& prices_distinct(levels)
    &&& forall|i: int|
        0 <= i < levels.len() ==> (#[trigger] levels[i]).orders@.len() > 0 && quantity_sum(levels[i].orders@) <= u64::MAX
    &&& forall|i: int, k: int|
        0 <= i < levels.len() && 0 <= k < levels[i].orders@.len() ==> {
            let o = #[trigger] levels[i].orders@[k];
            &&& o.side == side
            &&& o.price == levels[i].price
            &&& o.can_rest()
        }
    &&& forall|i: int, k: int, j: int, c: int|
        0 <= i < levels.len() && 0 <= k < levels[i].orders@.len() && 0 <= j < levels.len() && 0 <= c < levels[j].orders@.len()
            && (i != j || k != c) ==> #[trigger] levels[i].orders@[k].id != #[trigger] levels[j].orders@[c].id
}

/// Every order of `levels` can be rested on `side` of `book`: the levels
/// fit, `book` indexes none of their ids, and no price crosses the other
/// side.
pub open spec fn load_fits(book: OrderBook, levels: Seq<PriceLevelSnapshot>, side: Side) -> bool {
    &&& levels_fit(levels, side)
    &&& forall|i: int, k: int|
        0 <= i < levels.len() && 0 <= k < levels[i].orders@.len() ==> !book.locations().dom().contains(
            #[trigger] levels[i].orders@[k].id,
        )
    &&& forall|i: int, q: u64|
        0 <= i < levels.len() && #[trigger] book.side_levels(side.opposite_spec()).dom().contains(q) ==> (side == Side::Buy
            ==> #[trigger] levels[i].price < q) && (side == Side::Sell ==> q < levels[i].price)
}

/// A snapshot that a book can be restored from: both sides fit, no id is on
/// both sides, and every bid price is below every ask price.
pub open spec fn snapshot_fits(s: OrderBookSnapshot) -> bool {
    &&& levels_fit(s.bids@, Side::Buy)
    &&& levels_fit(s.asks@, Side::Sell)
    &&& forall|i: int, k: int, j: int, c: int|
        0 <= i < s.bids@.len() && 0 <= k < s.bids@[i].orders@.len() && 0 <= j < s.asks@.len() && 0 <= c
            < s.asks@[j].orders@.len() ==> #[trigger] s.bids@[i].orders@[k].id != #[trigger] s.asks@[j].orders@[c].id
    &&& forall|i: int, j: int|
        0 <= i < s.bids@.len() && 0 <= j < s.asks@.len() ==> #[trigger] s.bids@[i].price < #[trigger] s.asks@[j].price
}

/// What [`OrderBook::restore_from_snapshot`] does.
pub open spec fn restore_post(old_book: OrderBook, snapshot: OrderBookSnapshot, new_book: OrderBook, r: Result<(), OrderBookError>) -> bool {
    &&& snapshot.symbol@ != old_book.symbol_spec()@ ==> r is Err && is_invalid_operation(r)
    &&& (snapshot.symbol@ == old_book.symbol_spec()@ && snapshot_fits(snapshot)) ==> r is Ok
    &&& r is Err ==> new_book == old_book
    &&& (r is Err && snapshot.symbol@ == old_book.symbol_spec()@) ==> refusal_names(r->Err_0, snapshot.bids@) || refusal_names(
        r->Err_0,
        snapshot.asks@,
    )
    &&& r is Ok ==> {
        &&& new_book.symbol_spec()@ == old_book.symbol_spec()@
        &&& new_book.last_trade_spec() is None
        &&& new_book.market_close_spec() is None
        &&& forall|i: int, k: int|
            0 <= i < snapshot.bids@.len() && 0 <= k < snapshot.bids@[i].orders@.len() ==> {
                &&& new_book.locations().dom().contains(#[trigger] snapshot.bids@[i].orders@[k].id)
                &&& new_book.locations()[snapshot.bids@[i].orders@[k].id] == (snapshot.bids@[i].price, Side::Buy)
            }
        &&& forall|i: int, k: int|
            0 <= i < snapshot.asks@.len() && 0 <= k < snapshot.asks@[i].orders@.len() ==> {
                &&& new_book.locations().dom().contains(#[trigger] snapshot.asks@[i].orders@[k].id)
                &&& new_book.locations()[snapshot.asks@[i].orders@[k].id] == (snapshot.asks@[i].price, Side::Sell)
            }
        &&& forall|id: u128| #[trigger] new_book.locations().dom().contains(id) ==> loaded_ids(snapshot.bids@, snapshot.bids@.len() as int, 0).contains(id)
            || loaded_ids(snapshot.asks@, snapshot.asks@.len() as int, 0).contains(id)
        &&& prices_distinct(snapshot.bids@) ==> map_loaded(new_book.side_levels(Side::Buy), snapshot.bids@, snapshot.bids@.len() as int, 0)
        &&& prices_distinct(snapshot.asks@) ==> map_loaded(new_book.side_levels(Side::Sell), snapshot.asks@, snapshot.asks@.len() as int, 0)
    }
}

proof fn lemma_prefix_quantity(s: Seq<Order>, k: int)
    requires
        0 <= k < s.len(),
    ensures
        quantity_sum(s.subrange(0, k + 1)) == quantity_sum(s.subrange(0, k)) + s[k].total_spec(),
        quantity_sum(s.subrange(0, k + 1)) <= quantity_sum(s),
{
    assert(s.subrange(0, k + 1) =~= s.subrange(0, k).push(s[k]));
    crate::level::lemma_sums_push(s.subrange(0, k), s[k]);
    assert(s =~= s.subrange(0, k + 1) + s.subrange(k + 1, s.len() as int));
    crate::level::lemma_sums_concat(s.subrange(0, k + 1), s.subrange(k + 1, s.len() as int));
    crate::level::lemma_sums_nonneg(s.subrange(k + 1, s.len() as int));
}

/// While loading, the next order is accepted when the whole load fits.
proof fn lemma_fits_rest_ok(b0: OrderBook, cur: OrderBook, levels: Seq<PriceLevelSnapshot>, side: Side, i: int, k: int)
    requires
        load_fits(b0, levels, side),
        cur.wf(),
        0 <= i < levels.len(),
        0 <= k < levels[i].orders@.len(),
        cur.side_levels(side.opposite_spec()) == b0.side_levels(side.opposite_spec()),
        forall|id: u128| #[trigger] cur.locations().dom().contains(id) ==> b0.locations().dom().contains(id)
            || loaded_ids(levels, i, k).contains(id),
        map_loaded(cur.side_levels(side), levels, i, k),
    ensures
        rest_ok(cur, levels[i].orders@[k], side, levels[i].price),
{
    let o = levels[i].orders@[k];
    let p = levels[i].price;
    assert(levels[i].orders@.len() > 0);
    lemma_prefix_quantity(levels[i].orders@, k);
    crate::level::lemma_sums_nonneg(levels[i].orders@.subrange(0, k));
    assert(!cur.locations().dom().contains(o.id)) by {
        if cur.locations().dom().contains(o.id) {
            assert(!b0.locations().dom().contains(o.id));
            let (j, c) = choose|j: int, c: int|
                0 <= j < levels.len() && 0 <= c < levels[j].orders@.len() && (j < i || (j == i && c < k))
                    && #[trigger] levels[j].orders@[c].id == o.id;
            assert(levels[j].orders@[c].id != levels[i].orders@[k].id);
        }
    }
    if side == Side::Buy {
        assert forall|a: u64| #[trigger] cur.side_levels(Side::Sell).dom().contains(a) implies p < a by {
            assert(b0.side_levels(side.opposite_spec()).dom().contains(a));
        }
    } else {
        assert forall|b: u64| #[trigger] cur.side_levels(Side::Buy).dom().contains(b) implies b < p by {
            assert(b0.side_levels(side.opposite_spec()).dom().contains(b));
        }
    }
    if cur.side_levels(side).dom().contains(p) {
        if k == 0 {
            let j = choose|j: int| 0 <= j < i && levels[j].orders@.len() > 0 && #[trigger] levels[j].price == p;
            assert(levels[j].price != levels[i].price);
        }
        assert(cur.side_levels(side)[p].orders@ == levels[i].orders@.subrange(0, k));
        assert(cur.side_levels(side)[p].wf());
    }
}

/// One accepted order moves the load one order further.
proof fn lemma_load_step(before: OrderBook, after: OrderBook, levels: Seq<PriceLevelSnapshot>, side: Side, i: int, k: int)
    requires
        0 <= i < levels.len(),
        0 <= k < levels[i].orders@.len(),
        after.locations() == before.locations().insert(levels[i].orders@[k].id, (levels[i].price, side)),
        after.side_levels(side).dom() == before.side_levels(side).dom().insert(levels[i].price),
        before.side_levels(side).dom().contains(levels[i].price) ==> after.side_levels(side)[levels[i].price].orders@
            == before.side_levels(side)[levels[i].price].orders@.push(levels[i].orders@[k]),
        !before.side_levels(side).dom().contains(levels[i].price) ==> after.side_levels(side)[levels[i].price].orders@
            == seq![levels[i].orders@[k]],
        after.side_levels(side).remove(levels[i].price) == before.side_levels(side).remove(levels[i].price),
    ensures
        forall|id: u128|
            #[trigger] loaded_ids(levels, i, k + 1).contains(id) <==> (loaded_ids(levels, i, k).contains(id) || id
                == levels[i].orders@[k].id),
        prices_distinct(levels) && map_loaded(before.side_levels(side), levels, i, k) ==> map_loaded(
            after.side_levels(side),
            levels,
            i,
            k + 1,
        ),
{
    let p = levels[i].price;
    assert forall|id: u128|
        #[trigger] loaded_ids(levels, i, k + 1).contains(id) <==> (loaded_ids(levels, i, k).contains(id) || id
            == levels[i].orders@[k].id) by {
        if loaded_ids(levels, i, k + 1).contains(id) {
            let (j, c) = choose|j: int, c: int|
                0 <= j < levels.len() && 0 <= c < levels[j].orders@.len() && (j < i || (j == i && c < k + 1))
                    && #[trigger] levels[j].orders@[c].id == id;
            if !(j == i && c == k) {
                assert(loaded_ids(levels, i, k).contains(id));
            }
        }
        if id == levels[i].orders@[k].id {
            assert(levels[i].orders@[k].id == id);
        }
        if loaded_ids(levels, i, k).contains(id) {
            let (j, c) = choose|j: int, c: int|
                0 <= j < levels.len() && 0 <= c < levels[j].orders@.len() && (j < i || (j == i && c < k))
                    && #[trigger] levels[j].orders@[c].id == id;
            assert(levels[j].orders@[c].id == id);
        }
    }
    if prices_distinct(levels) && map_loaded(before.side_levels(side), levels, i, k) {
        let mb = before.side_levels(side);
        let ma = after.side_levels(side);
        assert forall|q: u64| q != p && #[trigger] ma.dom().contains(q) implies mb.dom().contains(q) && ma[q] == mb[q] by {
            assert(ma.remove(p).dom().contains(q));
            assert(ma.remove(p)[q] == mb.remove(p)[q]);
        }
        if k == 0 {
            if mb.dom().contains(p) {
                let j = choose|j: int| 0 <= j < i && levels[j].orders@.len() > 0 && #[trigger] levels[j].price == p;
                assert(levels[j].price != levels[i].price);
            }
            assert(seq![levels[i].orders@[0]] =~= levels[i].orders@.subrange(0, 1));
        } else {
            assert(levels[i].orders@.subrange(0, k).push(levels[i].orders@[k]) =~= levels[i].orders@.subrange(0, k + 1));
        }
        assert forall|j: int| 0 <= j < i && levels[j].orders@.len() > 0 implies ma.dom().contains(#[trigger] levels[j].price)
            && ma[levels[j].price].orders@ == levels[j].orders@ by {
            assert(levels[j].price != p);
            assert(mb.dom().contains(levels[j].price));
            assert(ma.dom().contains(levels[j].price));
            assert(ma[levels[j].price] == mb[levels[j].price]);
        }
        assert forall|q: u64| #[trigger] ma.dom().contains(q) implies (exists|j: int|
            0 <= j < i && levels[j].orders@.len() > 0 && #[trigger] levels[j].price == q) || (k + 1 > 0 && q == levels[i].price) by {
            if q != p {
                assert(mb.dom().contains(q));
            }
        }
    }
}

proof fn lemma_loaded_next_level(levels: Seq<PriceLevelSnapshot>, i: int)
    requires
        0 <= i < levels.len(),
    ensures
        loaded_ids(levels, i, levels[i].orders@.len() as int) == loaded_ids(levels, i + 1, 0),
{
    let n = levels[i].orders@.len() as int;
    assert forall|id: u128| #[trigger] loaded_ids(levels, i, n).contains(id) <==> loaded_ids(levels, i + 1, 0).contains(id) by {
        if loaded_ids(levels, i, n).contains(id) {
            let (j, c) = choose|j: int, c: int|
                0 <= j < levels.len() && 0 <= c < levels[j].orders@.len() && (j < i || (j == i && c < n))
                    && #[trigger] levels[j].orders@[c].id == id;
            assert(levels[j].orders@[c].id == id);
        }
        if loaded_ids(levels, i + 1, 0).contains(id) {
            let (j, c) = choose|j: int, c: int|
                0 <= j < levels.len() && 0 <= c < levels[j].orders@.len() && (j < i + 1 || (j == i + 1 && c < 0))
                    && #[trigger] levels[j].orders@[c].id == id;
            assert(levels[j].orders@[c].id == id);
        }
    }
    assert(loaded_ids(levels, i, n) =~= loaded_ids(levels, i + 1, 0));
}

proof fn lemma_map_loaded_next_level(m: Map<u64, PriceLevel>, levels: Seq<PriceLevelSnapshot>, i: int)
    requires
        0 <= i < levels.len(),
        map_loaded(m, levels, i, levels[i].orders@.len() as int),
    ensures
        map_loaded(m, levels, i + 1, 0),
{
    let n = levels[i].orders@.len() as int;
    if n > 0 {
        assert(levels[i].orders@.subrange(0, n) =~= levels[i].orders@);
    }
    assert forall|q: u64| #[trigger] m.dom().contains(q) implies (exists|j: int|
        0 <= j < i + 1 && levels[j].orders@.len() > 0 && #[trigger] levels[j].price == q) || (0int > 0 && q == levels[i + 1].price) by {
        if !(exists|j: int| 0 <= j < i && levels[j].orders@.len() > 0 && #[trigger] levels[j].price == q) {
            assert(n > 0 && q == levels[i].price);
            assert(levels[i].price == q);
        } else {
            let j = choose|j: int| 0 <= j < i && levels[j].orders@.len() > 0 && #[trigger] levels[j].price == q;
            assert(levels[j].price == q);
        }
    }
}

proof fn lemma_asks_fit_after_bids(f0: OrderBook, f1: OrderBook, snapshot: OrderBookSnapshot)
    requires
        snapshot_fits(snapshot),
        f0.locations().dom().is_empty(),
        forall|id: u128| #[trigger] f1.locations().dom().contains(id) ==> f0.locations().dom().contains(id)
            || loaded_ids(snapshot.bids@, snapshot.bids@.len() as int, 0).contains(id),
        map_loaded(f1.side_levels(Side::Buy), snapshot.bids@, snapshot.bids@.len() as int, 0),
    ensures
        load_fits(f1, snapshot.asks@, Side::Sell),
{
    let bids = snapshot.bids@;
    let asks = snapshot.asks@;
    assert forall|i: int, k: int| 0 <= i < asks.len() && 0 <= k < asks[i].orders@.len() implies !f1.locations().dom().contains(
        #[trigger] asks[i].orders@[k].id) by {
        let id = asks[i].orders@[k].id;
        if f1.locations().dom().contains(id) {
            assert(!f0.locations().dom().contains(id));
            let (j, c) = choose|j: int, c: int|
                0 <= j < bids.len() && 0 <= c < bids[j].orders@.len() && (j < bids.len() || (j == bids.len() && c < 0))
                    && #[trigger] bids[j].orders@[c].id == id;
            assert(snapshot.bids@[j].orders@[c].id != snapshot.asks@[i].orders@[k].id);
        }
    }
    assert forall|i: int, q: u64| 0 <= i < asks.len() && #[trigger] f1.side_levels(Side::Sell.opposite_spec()).dom().contains(q)
        implies (Side::Sell == Side::Buy ==> #[trigger] asks[i].price < q) && (Side::Sell == Side::Sell ==> q < asks[i].price) by {
        let j = choose|j: int| 0 <= j < bids.len() && bids[j].orders@.len() > 0 && #[trigger] bids[j].price == q;
        assert(snapshot.bids@[j].price < snapshot.asks@[i].price);
    }
}

/// Why `order`, listed at `price` on `side`, cannot rest on `book`, by the
/// first check it fails: listed at another price or side
/// (`InvalidOperation`); no visible quantity, hidden quantity with nothing
/// to refill it, or a total past `u64::MAX` (`InvalidQuantity`); an id the
/// book already holds (`DuplicateOrderId`); a price crossing the other
/// side (`WouldCross`); otherwise, a level that would pass `u64::MAX`
/// (`InvalidQuantity` with the order's total).
pub open spec fn is_refusal(e: OrderBookError, book: OrderBook, order: Order, side: Side, price: u64) -> bool {
    if order.side != side || order.price != price {
        e is InvalidOperation
    } else if order.visible_quantity == 0 || (order.hidden_quantity > 0 && order.replenish_amount == 0) || order.total_spec()
        > u64::MAX {
        e == OrderBookError::InvalidQuantity { order_id: order.id, quantity: order.visible_quantity }
    } else if book.locations().dom().contains(order.id) {
        e == OrderBookError::DuplicateOrderId { order_id: order.id }
    } else if (side == Side::Buy && exists|a: u64| #[trigger] book.side_levels(Side::Sell).dom().contains(a) && a <= price) || (side
        == Side::Sell && exists|b: u64| #[trigger] book.side_levels(Side::Buy).dom().contains(b) && price <= b) {
        e == OrderBookError::WouldCross { order_id: order.id, price }
    } else {
        e == OrderBookError::InvalidQuantity { order_id: order.id, quantity: order.total_spec() as u64 }
    }
}

/// `e` is a refusal of some order of `levels` (see [`is_refusal`]).
pub open spec fn refusal_names(e: OrderBookError, levels: Seq<PriceLevelSnapshot>) -> bool {
    match e {
        OrderBookError::InvalidOperation { .. } => true,
        OrderBookError::InvalidQuantity { order_id, .. } => exists|i: int, k: int|
            0 <= i < levels.len() && 0 <= k < levels[i].orders@.len() && #[trigger] levels[i].orders@[k].id == order_id,
        OrderBookError::DuplicateOrderId { order_id } => exists|i: int, k: int|
            0 <= i < levels.len() && 0 <= k < levels[i].orders@.len() && #[trigger] levels[i].orders@[k].id == order_id,
        OrderBookError::WouldCross { order_id, .. } => exists|i: int, k: int|
            0 <= i < levels.len() && 0 <= k < levels[i].orders@.len() && #[trigger] levels[i].orders@[k].id == order_id,
        _ => false,
    }
}

/// `r` is an `InvalidOperation` error.
pub open spec fn is_invalid_operation<T>(r: Result<T, OrderBookError>) -> bool {
    match r {
        Err(OrderBookError::InvalidOperation { .. }) => true,
        _ => false,
    }
}

/// The lowercase hex SHA-256 digest of a byte string.
pub uninterp spec fn sha256_hex_of(payload: Seq<u8>) -> Seq<char>;

/// 64 characters, each a lowercase hex digit.
pub open spec fn is_hex_digest(s: Seq<char>) -> bool {
    &&& s.len() == 64
    &&& forall|i: int| 0 <= i < s.len() ==> ('0' <= #[trigger] s[i] <= '9') || ('a' <= s[i] <= 'f')
}

/// Relies on `sha2::Sha256::digest` and the lowercase hex formatting of
/// its output (generic-array's `LowerHex`: two digits `0-9a-f` per byte of
/// the 32-byte digest): the digest of the bytes, as text.
#[verifier::external_body]
fn sha256_hex(payload: &Vec<u8>) -> (r: String)
    ensures
        r@ == sha256_hex_of(payload@),
        is_hex_digest(r@),
{
    format!("{:x}", sha2::Sha256::digest(payload.as_slice()))
}

/// The checksum of a serialized snapshot: its hex SHA-256 digest.
pub fn payload_checksum(payload: &Vec<u8>) -> (r: String)
    ensures
        r@ == sha256_hex_of(payload@),
        is_hex_digest(r@),
{
    sha256_hex(payload)
}

/// Checks a package's version, and its stored checksum `expected` against
/// the checksum `actual` computed from its payload.
pub fn check_checksum(version: u32, expected: &String, actual: &String) -> (r: Result<(), OrderBookError>)
    ensures
        version != ORDERBOOK_SNAPSHOT_FORMAT_VERSION ==> is_invalid_operation(r),
        version == ORDERBOOK_SNAPSHOT_FORMAT_VERSION && expected@ == actual@ ==> r is Ok,
        version == ORDERBOOK_SNAPSHOT_FORMAT_VERSION && expected@ != actual@ ==> match r {
            Err(OrderBookError::ChecksumMismatch { expected: e, actual: a }) => e@ == expected@ && a@ == actual@,
            _ => false,
        },
{
    if version != ORDERBOOK_SNAPSHOT_FORMAT_VERSION {
        return Err(OrderBookError::InvalidOperation { message: "unsupported snapshot version".to_string() });
    }
    if *expected == *actual {
        Ok(())
    } else {
        Err(OrderBookError::ChecksumMismatch { expected: expected.clone(), actual: actual.clone() })
    }
}

/// A snapshot with its schema version and the checksum of its serialized
/// form.
#[derive(Clone, Debug)]
pub struct OrderBookSnapshotPackage {
    pub version: u32,
    pub snapshot: OrderBookSnapshot,
    pub checksum: String,
}

impl OrderBookSnapshotPackage {
    /// Packages `snapshot` with its aggregates recomputed; `payload` is the
    /// serialized form of that recomputed snapshot (recomputing twice gives
    /// the same snapshot), and the checksum is its digest.
    pub fn new(snapshot: OrderBookSnapshot, payload: &Vec<u8>) -> (r: OrderBookSnapshotPackage)
        ensures
            r.version == ORDERBOOK_SNAPSHOT_FORMAT_VERSION,
            refreshed(snapshot, r.snapshot),
            r.checksum@ == sha256_hex_of(payload@),
            is_hex_digest(r.checksum@),
    {
        let mut snapshot = snapshot;
        snapshot.refresh_aggregates();
        OrderBookSnapshotPackage { version: ORDERBOOK_SNAPSHOT_FORMAT_VERSION, snapshot, checksum: payload_checksum(payload) }
    }

    /// Checks the version and that `payload`, the serialized snapshot,
    /// still has the stored checksum.
    pub fn validate(&self, payload: &Vec<u8>) -> (r: Result<(), OrderBookError>)
        ensures
            self.version != ORDERBOOK_SNAPSHOT_FORMAT_VERSION ==> is_invalid_operation(r),
            self.version == ORDERBOOK_SNAPSHOT_FORMAT_VERSION ==> (r is Ok <==> self.checksum@ == sha256_hex_of(payload@)),
            self.version == ORDERBOOK_SNAPSHOT_FORMAT_VERSION && self.checksum@ != sha256_hex_of(payload@) ==> match r {
                Err(OrderBookError::ChecksumMismatch { expected: e, actual: a }) => e@ == self.checksum@ && a@ == sha256_hex_of(payload@),
                _ => false,
            },
    {
        let actual = payload_checksum(payload);
        check_checksum(self.version, &self.checksum, &actual)
    }

    /// The snapshot, once [`OrderBookSnapshotPackage::validate`] passes.
    pub fn into_snapshot(self, payload: &Vec<u8>) -> (r: Result<OrderBookSnapshot, OrderBookError>)
        ensures
            self.version != ORDERBOOK_SNAPSHOT_FORMAT_VERSION ==> is_invalid_operation(r),
            self.version == ORDERBOOK_SNAPSHOT_FORMAT_VERSION ==> (r is Ok <==> self.checksum@ == sha256_hex_of(payload@)),
            self.version == ORDERBOOK_SNAPSHOT_FORMAT_VERSION && self.checksum@ != sha256_hex_of(payload@) ==> match r {
                Err(OrderBookError::ChecksumMismatch { expected: e, actual: a }) => e@ == self.checksum@ && a@ == sha256_hex_of(payload@),
                _ => false,
            },
            r is Ok ==> r->Ok_0 == self.snapshot,
    {
        match self.validate(payload) {
            Ok(()) => Ok(self.snapshot),
            Err(e) => Err(e),
        }
    }
}

} // verus!
