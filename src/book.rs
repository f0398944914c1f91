//! The order book: two sides of price levels, the location index, and the
//! matching engine.
use vstd::prelude::*;
use crossbeam_skiplist::SkipMap;
use dashmap::DashMap;
use crate::consistency::{book_inv, pick, with_level, without_ids, lemma_replace_level, lemma_insert_order};
use crate::error::OrderBookError;
use crate::level::{PriceLevel, all_live, fifo_outcome, id_set, lemma_sums_nonneg, no_hidden};
use crate::walk::{at_price, orders_at, lemma_at_price_concat, lemma_at_price_all_or_none};
use crate::store::{ascending_keys, levels_of, locations_of, is_max_key, is_min_key, level_map_new, level_map_get, level_map_insert,
    level_map_remove, level_map_first_key, level_map_last_key, level_map_keys, location_index_new,
    location_get, location_insert, location_remove};
use crate::types::{Order, Side, TimeInForce, Transaction, expired, traded_sum};
use crate::depth::{crossing_liquidity, crossing_sum, cap, ladder_monotone};

verus! {

/// What one matching operation did: the transactions in the order they were
/// executed, the quantity traded and the quantity left over.
#[derive(Clone, Debug)]
pub struct MatchResult {
    pub order_id: u128,
    pub transactions: Vec<Transaction>,
    pub executed_quantity: u64,
    pub remaining_quantity: u64,
    pub is_complete: bool,
    /// Ids of the resting orders that were filled in full and left the book.
    pub filled_order_ids: Vec<u128>,
}

/// Whether a resting price is acceptable to a taker on `side` with the
/// given limit (no limit accepts every price).
pub open spec fn crosses(side: Side, price: u64, limit: Option<u64>) -> bool {
    match limit {
        None => true,
        Some(l) => match side {
            Side::Buy => price <= l,
            Side::Sell => price >= l,
        },
    }
}

/// Executable form of [`crosses`].
pub fn crosses_limit(side: Side, price: u64, limit: Option<u64>) -> (r: bool)
    ensures
        r == crosses(side, price, limit),
{
    match limit {
        None => true,
        Some(l) => match side {
            Side::Buy => price <= l,
            Side::Sell => price >= l,
        },
    }
}

/// A limit order book for one symbol.
pub struct OrderBook {
    pub(crate) symbol: String,
    pub(crate) bids: SkipMap<u64, PriceLevel>,
    pub(crate) asks: SkipMap<u64, PriceLevel>,
    pub(crate) order_locations: DashMap<u128, (u64, Side)>,
    pub(crate) next_transaction_id: u64,
    pub(crate) last_trade_price: Option<u64>,
    pub(crate) market_close_timestamp: Option<u64>,
}

/// Removes `ids[from..]` from the location index.
fn drop_locations(m: &mut DashMap<u128, (u64, Side)>, ids: &Vec<u128>, from: usize)
    requires
        from <= ids@.len(),
    ensures
        locations_of(*final(m)) == without_ids(locations_of(*old(m)), ids@.subrange(from as int, ids@.len() as int)),
{
    let ghost l0 = locations_of(*m);
    let mut j: usize = from;
    proof {
        assert(without_ids(l0, ids@.subrange(from as int, from as int)) =~= l0);
    }
    while j < ids.len()
        invariant
            from <= j <= ids@.len(),
            locations_of(*m) == without_ids(l0, ids@.subrange(from as int, j as int)),
        decreases ids@.len() - j,
    {
        let ghost before = locations_of(*m);
        location_remove(m, ids[j]);
        proof {
            let g1 = ids@.subrange(from as int, j as int);
            let g2 = ids@.subrange(from as int, j + 1);
            assert(g2 =~= g1.push(ids@[j as int]));
            assert forall|id: u128| #[trigger] g2.contains(id) <==> (g1.contains(id) || id == ids@[j as int]) by {
                if g2.contains(id) {
                    let k = choose|k: int| 0 <= k < g2.len() && g2[k] == id;
                    if k < g1.len() {
                        assert(g1[k] == id);
                    }
                }
                if g1.contains(id) {
                    let k = choose|k: int| 0 <= k < g1.len() && g1[k] == id;
                    assert(g2[k] == id);
                }
                if id == ids@[j as int] {
                    assert(g2[g2.len() - 1] == id);
                }
            }
            assert(locations_of(*m) =~= without_ids(l0, g2));
        }
        j = j + 1;
    }
}

impl OrderBook {
    /// The levels of one side, by price.
    /// The book's symbol.
    pub open(crate) spec fn symbol_spec(&self) -> String {
        self.symbol
    }

    /// The price of the last trade, if any.
    pub open(crate) spec fn last_trade_spec(&self) -> Option<u64> {
        self.last_trade_price
    }

    /// The market close that expires `Day` orders, if set.
    pub open(crate) spec fn market_close_spec(&self) -> Option<u64> {
        self.market_close_timestamp
    }

    pub open(crate) spec fn side_levels(&self, side: Side) -> Map<u64, PriceLevel> {
        pick(levels_of(self.bids), levels_of(self.asks), side)
    }

    /// The location index, by order id.
    pub open(crate) spec fn locations(&self) -> Map<u128, (u64, Side)> {
        locations_of(self.order_locations)
    }

    /// The book's invariant: see [`book_inv`].
    pub open spec fn wf(&self) -> bool {
        book_inv(self.side_levels(Side::Buy), self.side_levels(Side::Sell), self.locations())
    }

    /// An empty book for `symbol`.
    pub fn new(symbol: &str) -> (r: OrderBook)
        ensures
            r.wf(),
            r.symbol_spec()@ == symbol@,
            r.side_levels(Side::Buy).dom().is_empty(),
            r.side_levels(Side::Sell).dom().is_empty(),
            r.locations().dom().is_empty(),
            r.last_trade_spec() is None,
            r.market_close_spec() is None,
    {
        OrderBook {
            symbol: symbol.to_string(),
            bids: level_map_new(),
            asks: level_map_new(),
            order_locations: location_index_new(),
            next_transaction_id: 0,
            last_trade_price: None,
            market_close_timestamp: None,
        }
    }

    /// The book's symbol.
    pub fn symbol(&self) -> (r: &str)
        ensures
            r@ == self.symbol_spec()@,
    {
        self.symbol.as_str()
    }

    /// Sets the market close used to expire `Day` orders.
    pub fn set_market_close_timestamp(&mut self, timestamp: u64)
        ensures
            final(self).market_close_spec() == Some(timestamp),
            final(self).side_levels(Side::Buy) == old(self).side_levels(Side::Buy),
            final(self).side_levels(Side::Sell) == old(self).side_levels(Side::Sell),
            final(self).locations() == old(self).locations(),
            final(self).last_trade_spec() == old(self).last_trade_spec(),
            final(self).symbol_spec() == old(self).symbol_spec(),
    {
        self.market_close_timestamp = Some(timestamp);
    }

    /// Clears the market close.
    pub fn clear_market_close_timestamp(&mut self)
        ensures
            final(self).market_close_spec() is None,
            final(self).side_levels(Side::Buy) == old(self).side_levels(Side::Buy),
            final(self).side_levels(Side::Sell) == old(self).side_levels(Side::Sell),
            final(self).locations() == old(self).locations(),
            final(self).last_trade_spec() == old(self).last_trade_spec(),
            final(self).symbol_spec() == old(self).symbol_spec(),
    {
        self.market_close_timestamp = None;
    }

    /// The highest bid price, if any bid rests.
    pub fn best_bid(&self) -> (r: Option<u64>)
        ensures
            r is None <==> self.side_levels(Side::Buy).dom().is_empty(),
            r is Some ==> is_max_key(self.side_levels(Side::Buy), r->0),
    {
        level_map_last_key(&self.bids)
    }

    /// The lowest ask price, if any ask rests.
    pub fn best_ask(&self) -> (r: Option<u64>)
        ensures
            r is None <==> self.side_levels(Side::Sell).dom().is_empty(),
            r is Some ==> is_min_key(self.side_levels(Side::Sell), r->0),
    {
        level_map_first_key(&self.asks)
    }

    /// Best ask minus best bid, when both sides hold orders (the book is
    /// never crossed, so the difference is positive).
    pub fn spread(&self) -> (r: Option<u64>)
        requires
            self.wf(),
        ensures
            r == self.spread_spec(),
            r is Some <==> (!self.side_levels(Side::Buy).dom().is_empty()
                && !self.side_levels(Side::Sell).dom().is_empty()),
    {
        match (self.best_bid(), self.best_ask()) {
            (Some(bid), Some(ask)) => {
                assert(levels_of(self.bids).dom().contains(bid) && levels_of(self.asks).dom().contains(ask));
                let ghost b = choose|b: u64| is_max_key(self.side_levels(Side::Buy), b);
                let ghost a = choose|a: u64| is_min_key(self.side_levels(Side::Sell), a);
                assert(levels_of(self.bids).dom().contains(b) && levels_of(self.asks).dom().contains(a));
                assert(b == bid && a == ask);
                Some(ask - bid)
            },
            _ => None,
        }
    }

    /// Same as [`OrderBook::spread`].
    pub fn spread_absolute(&self) -> (r: Option<u64>)
        requires
            self.wf(),
        ensures
            r == self.spread_spec(),
    {
        self.spread()
    }

    /// Best ask minus best bid, when both sides hold orders.
    pub open spec fn spread_spec(&self) -> Option<u64> {
        if !self.side_levels(Side::Buy).dom().is_empty() && !self.side_levels(Side::Sell).dom().is_empty() {
            let b = choose|b: u64| is_max_key(self.side_levels(Side::Buy), b);
            let a = choose|a: u64| is_min_key(self.side_levels(Side::Sell), a);
            Some((a - b) as u64)
        } else {
            None
        }
    }

    /// The price of the last trade, if the book has traded.
    pub fn last_trade_price(&self) -> (r: Option<u64>)
        ensures
            r == self.last_trade_spec(),
    {
        self.last_trade_price
    }

    /// Walks the side opposite `side` best price first, trading up to
    /// `quantity` at prices that `limit` accepts. Makers that are filled in
    /// full leave the book and the index, and so do the makers of each level
    /// reached that have expired at `now`, without trading.
    pub fn match_order(&mut self, taker_id: u128, side: Side, quantity: u64, limit: Option<u64>, now: u64) -> (r:
        MatchResult)
        requires
            old(self).wf(),
        ensures
            final(self).wf(),
            final(self).symbol_spec() == old(self).symbol_spec(),
            final(self).market_close_spec() == old(self).market_close_spec(),
            final(self).side_levels(side) == old(self).side_levels(side),
            forall|id: u128| #[trigger] final(self).locations().dom().contains(id) ==> old(self).locations().dom().contains(id)
                && final(self).locations()[id] == old(self).locations()[id],
            forall|id: u128| #[trigger] old(self).locations().dom().contains(id) && old(self).locations()[id].1 == side
                ==> final(self).locations().dom().contains(id),
            r.order_id == taker_id,
            match_done(*old(self), *final(self), r, taker_id, quantity as int, side, limit, now),
            r.remaining_quantity > 0 ==> forall|q: u64| #[trigger] final(self).side_levels(side.opposite_spec()).dom().contains(q)
                ==> !crosses(side, q, limit),
            forall|k: int| 0 <= k < r.transactions@.len() ==> (#[trigger] r.transactions@[k]).timestamp == now,
    {
        let os = side.opposite();
        let ghost cs0 = crossing_sum(old(self).live_ladder(side.opposite_spec(), now), side, limit);
        let mut remaining = quantity;
        let mut trades: Vec<Transaction> = Vec::new();
        let mut filled: Vec<u128> = Vec::new();
        loop
            invariant
                self.wf(),
                self.symbol == old(self).symbol_spec(),
                self.market_close_timestamp == old(self).market_close_spec(),
                self.last_trade_price == old(self).last_trade_spec(),
                os == side.opposite_spec(),
                self.side_levels(side) == old(self).side_levels(side),
                self.side_levels(os).dom().subset_of(old(self).side_levels(os).dom()),
                forall|id: u128| #[trigger] self.locations().dom().contains(id) ==> old(self).locations().dom().contains(id)
                    && self.locations()[id] == old(self).locations()[id],
                remaining <= quantity,
                traded_sum(trades@) == quantity - remaining,
                forall|k: int| 0 <= k < trades@.len() ==> {
                    &&& (#[trigger] trades@[k]).taker_id == taker_id
                    &&& trades@[k].quantity > 0
                    &&& trades@[k].timestamp == now
                    &&& crosses(side, trades@[k].price, limit)
                },
                forall|k1: int, k2: int| 0 <= k1 < k2 < trades@.len() ==> (side == Side::Buy ==> #[trigger] trades@[k1].price
                    <= #[trigger] trades@[k2].price) && (side == Side::Sell ==> trades@[k1].price >= trades@[k2].price),
                forall|k: int, q: u64| 0 <= k < trades@.len() && #[trigger] self.side_levels(os).dom().contains(q) ==>
                    (side == Side::Buy ==> #[trigger] trades@[k].price <= q) && (side == Side::Sell ==> trades@[k].price >= q),
                forall|k: int| 0 <= k < trades@.len() ==> old(self).side_levels(os).dom().contains(#[trigger] trades@[k].price),
                crossing_sum(self.live_ladder(os, now), side, limit) + (quantity - remaining) == cs0,
                remaining > 0 ==> forall|q: u64| #[trigger] self.side_levels(os).dom().contains(q) ==> self.side_levels(os)[q]
                    == old(self).side_levels(os)[q],
                remaining > 0 ==> forall|k: int| 0 <= k < trades@.len() ==> !self.side_levels(os).dom().contains(#[trigger] trades@[k].price),
                fifo_at_prices(old(self).side_levels(os), self.side_levels(os), trades@, now, old(self).market_close_spec()),
                forall|q: u64| #[trigger] self.side_levels(os).dom().contains(q) && at_price(trades@, q).len() == 0
                    ==> self.side_levels(os)[q] == old(self).side_levels(os)[q],
                forall|q: u64| #[trigger] old(self).side_levels(os).dom().contains(q) && !crosses(side, q, limit)
                    ==> self.side_levels(os).dom().contains(q) && self.side_levels(os)[q] == old(self).side_levels(os)[q],
                forall|id: u128| #[trigger] old(self).locations().dom().contains(id) && old(self).locations()[id].1 == side
                    ==> self.locations().dom().contains(id),
            ensures
                self.wf(),
                self.symbol == old(self).symbol_spec(),
                self.market_close_timestamp == old(self).market_close_spec(),
                self.last_trade_price == old(self).last_trade_spec(),
                self.side_levels(side) == old(self).side_levels(side),
                self.side_levels(os).dom().subset_of(old(self).side_levels(os).dom()),
                forall|id: u128| #[trigger] self.locations().dom().contains(id) ==> old(self).locations().dom().contains(id)
                    && self.locations()[id] == old(self).locations()[id],
                remaining <= quantity,
                traded_sum(trades@) == quantity - remaining,
                forall|k: int| 0 <= k < trades@.len() ==> {
                    &&& (#[trigger] trades@[k]).taker_id == taker_id
                    &&& trades@[k].quantity > 0
                    &&& trades@[k].timestamp == now
                    &&& crosses(side, trades@[k].price, limit)
                },
                forall|k1: int, k2: int| 0 <= k1 < k2 < trades@.len() ==> (side == Side::Buy ==> #[trigger] trades@[k1].price
                    <= #[trigger] trades@[k2].price) && (side == Side::Sell ==> trades@[k1].price >= trades@[k2].price),
                remaining > 0 ==> forall|q: u64| #[trigger] self.side_levels(os).dom().contains(q) ==> !crosses(side, q, limit),
                forall|k: int| 0 <= k < trades@.len() ==> old(self).side_levels(os).dom().contains(#[trigger] trades@[k].price),
                crossing_sum(self.live_ladder(os, now), side, limit) + (quantity - remaining) == cs0,
                remaining > 0 ==> crossing_sum(self.live_ladder(os, now), side, limit) == 0,
                forall|k: int, q: u64| 0 <= k < trades@.len() && #[trigger] self.side_levels(os).dom().contains(q) ==>
                    (side == Side::Buy ==> #[trigger] trades@[k].price <= q) && (side == Side::Sell ==> trades@[k].price >= q),
                remaining > 0 ==> forall|q: u64| #[trigger] self.side_levels(os).dom().contains(q) ==> self.side_levels(os)[q]
                    == old(self).side_levels(os)[q],
                remaining > 0 ==> forall|k: int| 0 <= k < trades@.len() ==> !self.side_levels(os).dom().contains(#[trigger] trades@[k].price),
                fifo_at_prices(old(self).side_levels(os), self.side_levels(os), trades@, now, old(self).market_close_spec()),
                forall|q: u64| #[trigger] self.side_levels(os).dom().contains(q) && at_price(trades@, q).len() == 0
                    ==> self.side_levels(os)[q] == old(self).side_levels(os)[q],
                forall|q: u64| #[trigger] old(self).side_levels(os).dom().contains(q) && !crosses(side, q, limit)
                    ==> self.side_levels(os).dom().contains(q) && self.side_levels(os)[q] == old(self).side_levels(os)[q],
                forall|id: u128| #[trigger] old(self).locations().dom().contains(id) && old(self).locations()[id].1 == side
                    ==> self.locations().dom().contains(id),
            decreases remaining, self.side_levels(os).dom().len(),
        {
            if remaining == 0 {
                break;
            }
            let best = match side {
                Side::Buy => level_map_first_key(&self.asks),
                Side::Sell => level_map_last_key(&self.bids),
            };
            let p = match best {
                None => {
                    proof {
                        crate::walk::lemma_ladder_prices(self.side_levels(os), os, Some((now, self.market_close_timestamp)));
                        crate::walk::lemma_crossing_sum_none(self.live_ladder(os, now), side, limit);
                    }
                    break;
                },
                Some(p) => p,
            };
            if !crosses_limit(side, p, limit) {
                proof {
                    crate::walk::lemma_ladder_prices(self.side_levels(os), os, Some((now, self.market_close_timestamp)));
                    assert forall|q: u64| #[trigger] self.side_levels(os).dom().contains(q) implies !crosses(side, q, limit) by {
                        if side == Side::Buy {
                            assert(levels_of(self.asks).dom().contains(q));
                        } else {
                            assert(levels_of(self.bids).dom().contains(q));
                        }
                    }
                    crate::walk::lemma_crossing_sum_none(self.live_ladder(os, now), side, limit);
                }
                break;
            }
            let got = match side {
                Side::Buy => level_map_get(&self.asks, p),
                Side::Sell => level_map_get(&self.bids, p),
            };
            let mut level = match got {
                None => break,
                Some(l) => l,
            };
            let ghost b0 = levels_of(self.bids);
            let ghost a0 = levels_of(self.asks);
            let ghost l0 = self.locations();
            let ghost lv0 = level;
            let ghost tr0 = trades@;
            let ghost dom0 = self.side_levels(os).dom();
            let ghost rem0 = remaining;
            assert(pick(b0, a0, os).dom().contains(p));
            assert(level.wf());
            let mut expired_ids: Vec<u128> = Vec::new();
            level.drop_expired(now, self.market_close_timestamp, &mut expired_ids);
            let ghost lv1 = level;
            let from = filled.len();
            let consumed = level.match_against(remaining, taker_id, now, &mut self.next_transaction_id, &mut trades, &mut filled);
            remaining = remaining - consumed;
            drop_locations(&mut self.order_locations, &expired_ids, 0);
            drop_locations(&mut self.order_locations, &filled, from);
            let ghost e = expired_ids@.subrange(0, expired_ids@.len() as int);
            let ghost f = filled@.subrange(from as int, filled@.len() as int);
            let ghost gone = e + f;
            if level.orders.len() == 0 {
                match side {
                    Side::Buy => level_map_remove(&mut self.asks, p),
                    Side::Sell => level_map_remove(&mut self.bids, p),
                }
            } else {
                match side {
                    Side::Buy => level_map_insert(&mut self.asks, p, level),
                    Side::Sell => level_map_insert(&mut self.bids, p, level),
                }
            }
            proof {
                crate::consistency::lemma_without_ids_concat(l0, e, f);
                assert(expired_ids@.subrange(0, 0) =~= Seq::<u128>::empty());
                assert forall|id: u128| #[trigger] e.contains(id) implies !id_set(lv1.orders@).contains(id) by {
                    let k = choose|k: int| 0 <= k < e.len() && e[k] == id;
                    assert(expired_ids@[k] == id);
                }
                assert forall|id: u128| #[trigger] gone.contains(id) implies !id_set(level.orders@).contains(id) by {
                    if f.contains(id) {
                        let k = choose|k: int| 0 <= k < f.len() && f[k] == id;
                        assert(filled@[from + k] == id);
                    }
                }
                assert forall|id: u128|
                    #![trigger id_set(pick(b0, a0, os)[p].orders@).contains(id)]
                    #![trigger id_set(level.orders@).contains(id)]
                    id_set(pick(b0, a0, os)[p].orders@).contains(id) <==> (id_set(level.orders@).contains(id) || gone.contains(id)) by {
                    assert(id_set(lv1.orders@).contains(id) <==> (id_set(level.orders@).contains(id) || f.contains(id)));
                }
                lemma_replace_level(b0, a0, l0, os, p, level, gone);
                if level.orders@.len() == 0 {
                    assert(level.orders@ =~= Seq::<Order>::empty());
                    assert(crate::level::visible_sum(level.orders@) == 0);
                    assert(crate::level::hidden_sum(level.orders@) == 0);
                }
                crate::level::lemma_sums_nonneg(level.orders@);
                let close = self.market_close_timestamp;
                assert(all_live(level.orders@, now, close));
                crate::level::lemma_live_sum_bounds(level.orders@, now, close);
                if side == Side::Buy {
                    assert(is_min_key(a0, p));
                } else {
                    assert(is_max_key(b0, p));
                }
                crate::walk::lemma_walk_step(pick(b0, a0, os), os, p, level, side, limit, Some((now, close)));
                if side == Side::Buy {
                    assert(levels_of(self.asks) == with_level(a0, p, level));
                } else {
                    assert(levels_of(self.bids) == with_level(b0, p, level));
                }
                assert(self.locations() == without_ids(l0, gone));
                {
                    let cur = pick(b0, a0, os);
                    let nw = self.side_levels(os);
                    let close = self.market_close_timestamp;
                    let blk = trades@.subrange(tr0.len() as int, trades@.len() as int);
                    assert(trades@ =~= tr0 + blk);
                    assert(cur[p] == old(self).side_levels(os)[p]);
                    assert forall|k: int| 0 <= k < blk.len() implies (#[trigger] blk[k]).price == p by {
                        assert(blk[k] == trades@[tr0.len() + k]);
                    }
                    assert forall|q: u64| #[trigger] old(self).side_levels(os).dom().contains(q) && at_price(trades@, q).len() > 0
                        && clean_level(old(self).side_levels(os)[q], now, close) implies exists|fs: Seq<u128>|
                        fifo_outcome(old(self).side_levels(os)[q].orders@, orders_at(nw, q), at_price(trades@, q), fs) by {
                        lemma_at_price_concat(tr0, blk, q);
                        if q == p {
                            assert forall|k: int| 0 <= k < tr0.len() implies (#[trigger] tr0[k]).price != p by {
                                assert(trades@[k] == tr0[k]);
                                assert(cur.dom().contains(p));
                            }
                            lemma_at_price_all_or_none(tr0, p);
                            lemma_at_price_all_or_none(blk, p);
                            assert(at_price(trades@, p) =~= blk);
                            assert(lv1.orders@ == lv0.orders@);
                            assert(orders_at(nw, p) =~= level.orders@);
                            let fs = filled@.subrange(from as int, filled@.len() as int);
                            assert(fifo_outcome(lv0.orders@, level.orders@, blk, fs));
                        } else {
                            assert forall|k: int| 0 <= k < blk.len() implies (#[trigger] blk[k]).price != q by {}
                            lemma_at_price_all_or_none(blk, q);
                            assert(at_price(trades@, q) =~= at_price(tr0, q));
                            assert(orders_at(nw, q) == orders_at(cur, q));
                        }
                    }
                    assert forall|q: u64| #[trigger] nw.dom().contains(q) && at_price(trades@, q).len() == 0
                        implies nw[q] == old(self).side_levels(os)[q] by {
                        lemma_at_price_concat(tr0, blk, q);
                        if q == p {
                            lemma_at_price_all_or_none(blk, p);
                            assert(level.orders@.len() > 0);
                            if blk.len() == 0 {
                                assert(trades@ =~= tr0);
                                assert(consumed == 0);
                            }
                            assert(at_price(blk, p).len() > 0);
                        } else {
                            assert forall|k: int| 0 <= k < blk.len() implies (#[trigger] blk[k]).price != q by {}
                            lemma_at_price_all_or_none(blk, q);
                            assert(nw[q] == cur[q]);
                        }
                    }
                    if remaining > 0 {
                        assert(level.orders@.len() == 0);
                        assert forall|q: u64| #[trigger] nw.dom().contains(q) implies nw[q] == old(self).side_levels(os)[q] by {
                            assert(q != p);
                        }
                        assert forall|k: int| 0 <= k < trades@.len() implies !nw.dom().contains(#[trigger] trades@[k].price) by {
                            if k < tr0.len() {
                                assert(trades@[k] == tr0[k]);
                            }
                        }
                    }
                }
                assert forall|q: u64| #[trigger] old(self).side_levels(os).dom().contains(q) && !crosses(side, q, limit)
                    implies self.side_levels(os).dom().contains(q) && self.side_levels(os)[q] == old(self).side_levels(os)[q] by {
                    assert(q != p);
                    assert(pick(b0, a0, os).dom().contains(q));
                }
                assert forall|id: u128| #[trigger] old(self).locations().dom().contains(id) && old(self).locations()[id].1 == side
                    implies self.locations().dom().contains(id) by {
                    assert(l0.dom().contains(id));
                    if gone.contains(id) {
                        assert(id_set(pick(b0, a0, os)[p].orders@).contains(id));
                        let k = choose|k: int| 0 <= k < pick(b0, a0, os)[p].orders@.len() && pick(b0, a0, os)[p].orders@[k].id == id;
                        assert(crate::consistency::indexed(pick(b0, a0, os), l0, os));
                        assert(l0.dom().contains(pick(b0, a0, os)[p].orders@[k].id));
                    }
                }
                if consumed == 0 {
                    assert(level.orders@.len() == 0);
                    assert(self.side_levels(os).dom() =~= dom0.remove(p));
                }
                // prices: every new trade is at p, the best remaining price
                assert forall|k: int| tr0.len() <= k < trades@.len() implies (#[trigger] trades@[k]).price == p && crosses(side, p, limit) by {}
                assert forall|k: int| 0 <= k < trades@.len() implies old(self).side_levels(os).dom().contains(#[trigger] trades@[k].price) by {
                    if k < tr0.len() {
                        assert(trades@[k] == trades@.subrange(0, tr0.len() as int)[k]);
                    } else {
                        assert(pick(b0, a0, os).dom().contains(p));
                    }
                }
                assert forall|k: int| 0 <= k < trades@.len() implies {
                    &&& (#[trigger] trades@[k]).taker_id == taker_id
                    &&& trades@[k].quantity > 0
                    &&& trades@[k].timestamp == now
                    &&& crosses(side, trades@[k].price, limit)
                } by {
                    if k < tr0.len() {
                        assert(trades@[k] == trades@.subrange(0, tr0.len() as int)[k]);
                    }
                }
                assert forall|k1: int, k2: int| 0 <= k1 < k2 < trades@.len() implies (side == Side::Buy ==> #[trigger] trades@[k1].price
                    <= #[trigger] trades@[k2].price) && (side == Side::Sell ==> trades@[k1].price >= trades@[k2].price) by {
                    if k1 < tr0.len() {
                        assert(trades@[k1] == trades@.subrange(0, tr0.len() as int)[k1]);
                        assert(pick(b0, a0, os).dom().contains(p));
                    }
                    if k2 < tr0.len() {
                        assert(trades@[k2] == trades@.subrange(0, tr0.len() as int)[k2]);
                    }
                }
                assert forall|k: int, q: u64| 0 <= k < trades@.len() && #[trigger] self.side_levels(os).dom().contains(q) implies
                    (side == Side::Buy ==> #[trigger] trades@[k].price <= q) && (side == Side::Sell ==> trades@[k].price >= q) by {
                    assert(pick(b0, a0, os).dom().contains(q));
                    if k < tr0.len() {
                        assert(trades@[k] == trades@.subrange(0, tr0.len() as int)[k]);
                    }
                    if side == Side::Buy {
                        assert(is_min_key(a0, p));
                    } else {
                        assert(is_max_key(b0, p));
                    }
                }
            }
        }
        proof {
            crate::depth::lemma_crossing_sum_nonneg(self.live_ladder(os, now), side, limit);
        }
        if trades.len() > 0 {
            self.last_trade_price = Some(trades[trades.len() - 1].price);
        }
        MatchResult {
            order_id: taker_id,
            transactions: trades,
            executed_quantity: quantity - remaining,
            remaining_quantity: remaining,
            is_complete: remaining == 0,
            filled_order_ids: filled,
        }
    }

    /// The prices of one side, best first.
    pub open spec fn best_first(&self, side: Side) -> Seq<u64> {
        crate::walk::best_first_keys(self.side_levels(side), side)
    }

    /// One side as `(price, quantity of the orders not expired at now)`
    /// pairs, best price first.
    pub open spec fn live_ladder(&self, side: Side, now: u64) -> Seq<(u64, u64)> {
        crate::walk::ladder_at(self.side_levels(side), side, Some((now, self.market_close_spec())))
    }

    /// One side as `(price, total quantity)` pairs, best price first.
    pub open spec fn ladder(&self, side: Side) -> Seq<(u64, u64)> {
        crate::walk::ladder_of(self.side_levels(side), side)
    }

    /// One side as `(price, total quantity)` pairs, best price first.
    pub fn depth_ladder(&self, side: Side) -> (r: Vec<(u64, u64)>)
        requires
            self.wf(),
        ensures
            r@ == self.ladder(side),
            ladder_monotone(r@, side),
    {
        let keys = match side {
            Side::Buy => level_map_keys(&self.bids),
            Side::Sell => level_map_keys(&self.asks),
        };
        let n = keys.len();
        let mut out: Vec<(u64, u64)> = Vec::new();
        let mut i: usize = 0;
        while i < n
            invariant
                self.wf(),
                n == keys@.len(),
                keys@ == ascending_keys(self.side_levels(side)),
                forall|k: u64| self.side_levels(side).dom().contains(k) <==> keys@.contains(k),
                i <= n,
                out@.len() == i,
                forall|j: int| 0 <= j < i ==> #[trigger] out@[j] == self.ladder(side)[j],
            decreases n - i,
        {
            let k = match side {
                Side::Sell => keys[i],
                Side::Buy => keys[n - 1 - i],
            };
            proof {
                if side == Side::Sell {
                    assert(keys@[i as int] == k);
                } else {
                    assert(keys@[n - 1 - i] == k);
                }
                assert(keys@.contains(k));
                assert(self.side_levels(side).dom().contains(k));
                if side == Side::Buy {
                    assert(levels_of(self.bids).dom().contains(k));
                } else {
                    assert(levels_of(self.asks).dom().contains(k));
                }
            }
            let got = match side {
                Side::Buy => level_map_get(&self.bids, k),
                Side::Sell => level_map_get(&self.asks, k),
            };
            let qty = match got {
                Some(l) => l.total_quantity(),
                None => 0,
            };
            out.push((k, qty));
            proof {
                assert(self.best_first(side)[i as int] == k);
                assert(self.best_first(side).len() == n);
            }
            i = i + 1;
        }
        proof {
            assert(self.ladder(side).len() == n);
            assert(out@ =~= self.ladder(side));
            assert forall|a: int, b: int| 0 <= a < b < out@.len() implies (side == Side::Sell ==> #[trigger] out@[a].0 < #[trigger] out@[b].0)
                && (side == Side::Buy ==> out@[a].0 > out@[b].0) by {
                assert(out@[a] == self.ladder(side)[a]);
                assert(out@[b] == self.ladder(side)[b]);
                if side == Side::Sell {
                    assert(keys@[a] < keys@[b]);
                } else {
                    assert(keys@[n - 1 - b] < keys@[n - 1 - a]);
                }
            }
        }
        out
    }

    /// One side as `(price, quantity of the orders not expired at now)`
    /// pairs, best price first.
    pub fn live_depth_ladder(&self, side: Side, now: u64) -> (r: Vec<(u64, u64)>)
        requires
            self.wf(),
        ensures
            r@ == self.live_ladder(side, now),
    {
        let keys = match side {
            Side::Buy => level_map_keys(&self.bids),
            Side::Sell => level_map_keys(&self.asks),
        };
        let n = keys.len();
        let mut out: Vec<(u64, u64)> = Vec::new();
        let mut i: usize = 0;
        while i < n
            invariant
                self.wf(),
                n == keys@.len(),
                keys@ == ascending_keys(self.side_levels(side)),
                forall|k: u64| self.side_levels(side).dom().contains(k) <==> keys@.contains(k),
                i <= n,
                out@.len() == i,
                forall|j: int| 0 <= j < i ==> #[trigger] out@[j] == self.live_ladder(side, now)[j],
            decreases n - i,
        {
            let k = match side {
                Side::Sell => keys[i],
                Side::Buy => keys[n - 1 - i],
            };
            proof {
                if side == Side::Sell {
                    assert(keys@[i as int] == k);
                } else {
                    assert(keys@[n - 1 - i] == k);
                }
                assert(keys@.contains(k));
                assert(self.side_levels(side).dom().contains(k));
                if side == Side::Buy {
                    assert(levels_of(self.bids).dom().contains(k));
                } else {
                    assert(levels_of(self.asks).dom().contains(k));
                }
            }
            let got = match side {
                Side::Buy => level_map_get(&self.bids, k),
                Side::Sell => level_map_get(&self.asks, k),
            };
            let qty = match got {
                Some(l) => l.live_quantity(now, self.market_close_timestamp),
                None => 0,
            };
            out.push((k, qty));
            proof {
                assert(self.best_first(side)[i as int] == k);
                assert(self.best_first(side).len() == n);
            }
            i = i + 1;
        }
        proof {
            assert(self.live_ladder(side, now).len() == n);
            assert(out@ =~= self.live_ladder(side, now));
        }
        out
    }

    /// Cancels the order with `order_id`: it leaves its level (the level
    /// leaves the book if it becomes empty) and the index.
    pub fn cancel_order(&mut self, order_id: u128) -> (r: Result<Order, OrderBookError>)
        requires
            old(self).wf(),
        ensures
            final(self).wf(),
            cancel_post(*old(self), order_id, *final(self), r),
    {
        let (price, side) = match location_get(&self.order_locations, order_id) {
            None => return Err(OrderBookError::OrderNotFound { order_id }),
            Some(loc) => loc,
        };
        let got = match side {
            Side::Buy => level_map_get(&self.bids, price),
            Side::Sell => level_map_get(&self.asks, price),
        };
        let ghost b0 = levels_of(self.bids);
        let ghost a0 = levels_of(self.asks);
        let ghost l0 = self.locations();
        assert(l0.dom().contains(order_id));
        assert(pick(b0, a0, side).dom().contains(price));
        let mut level = match got {
            None => return Err(OrderBookError::OrderNotFound { order_id }),
            Some(l) => l,
        };
        let ghost lv0 = level;
        let removed = level.remove_order(order_id);
        let order = match removed {
            None => return Err(OrderBookError::OrderNotFound { order_id }),
            Some(o) => o,
        };
        location_remove(&mut self.order_locations, order_id);
        if level.orders.len() == 0 {
            match side {
                Side::Buy => level_map_remove(&mut self.bids, price),
                Side::Sell => level_map_remove(&mut self.asks, price),
            }
        } else {
            match side {
                Side::Buy => level_map_insert(&mut self.bids, price, level),
                Side::Sell => level_map_insert(&mut self.asks, price, level),
            }
        }
        proof {
            let gone = seq![order_id];
            assert(gone.contains(order_id)) by {
                assert(gone[0] == order_id);
            }
            assert forall|id: u128| #[trigger] gone.contains(id) implies !id_set(level.orders@).contains(id) by {
                let k = choose|k: int| 0 <= k < gone.len() && gone[k] == id;
            }
            assert forall|id: u128|
                #![trigger id_set(pick(b0, a0, side)[price].orders@).contains(id)]
                #![trigger id_set(level.orders@).contains(id)]
                id_set(pick(b0, a0, side)[price].orders@).contains(id) <==> (id_set(level.orders@).contains(id) || gone.contains(id)) by {
                if gone.contains(id) {
                    let k = choose|k: int| 0 <= k < gone.len() && gone[k] == id;
                }
            }
            lemma_replace_level(b0, a0, l0, side, price, level, gone);
            assert(without_ids(l0, gone) =~= l0.remove(order_id));
            let i = choose|i: int| 0 <= i < lv0.orders@.len() && #[trigger] lv0.orders@[i] == order && order.id == order_id
                && level.orders@ == lv0.orders@.remove(i);
            assert(lv0.orders@[i].price == price);
            assert(lv0 == pick(b0, a0, side)[price]);
            let m2 = with_level(pick(b0, a0, side), price, level);
            assert(m2.remove(price) =~= pick(b0, a0, side).remove(price));
            assert(self.side_levels(side) == m2);
        }
        Ok(order)
    }

    /// Puts `order` at the tail of its level, creating the level if needed,
    /// and indexes it.
    pub(crate) fn rest_resting_order(&mut self, order: Order)
        requires
            old(self).wf(),
            order.can_rest(),
            order.total_spec() <= u64::MAX,
            !old(self).locations().dom().contains(order.id),
            order.side == Side::Buy ==> forall|a: u64| #[trigger] old(self).side_levels(Side::Sell).dom().contains(a) ==> order.price < a,
            order.side == Side::Sell ==> forall|b: u64| #[trigger] old(self).side_levels(Side::Buy).dom().contains(b) ==> b < order.price,
            old(self).side_levels(order.side).dom().contains(order.price) ==> old(self).side_levels(order.side)[order.price].total_spec()
                + order.total_spec() <= u64::MAX,
        ensures
            final(self).wf(),
            final(self).symbol_spec() == old(self).symbol_spec(),
            final(self).last_trade_spec() == old(self).last_trade_spec(),
            final(self).market_close_spec() == old(self).market_close_spec(),
            final(self).locations() == old(self).locations().insert(order.id, (order.price, order.side)),
            final(self).side_levels(order.side.opposite_spec()) == old(self).side_levels(order.side.opposite_spec()),
            final(self).side_levels(order.side).dom() == old(self).side_levels(order.side).dom().insert(order.price),
            old(self).side_levels(order.side).dom().contains(order.price) ==> final(self).side_levels(order.side)[order.price].orders@
                == old(self).side_levels(order.side)[order.price].orders@.push(order),
            !old(self).side_levels(order.side).dom().contains(order.price) ==> final(self).side_levels(order.side)[order.price].orders@
                == seq![order],
            final(self).side_levels(order.side).remove(order.price) == old(self).side_levels(order.side).remove(order.price),
    {
        let side = order.side;
        let price = order.price;
        let got = match side {
            Side::Buy => level_map_get(&self.bids, price),
            Side::Sell => level_map_get(&self.asks, price),
        };
        let ghost b0 = levels_of(self.bids);
        let ghost a0 = levels_of(self.asks);
        let ghost l0 = self.locations();
        let mut level = match got {
            Some(l) => l,
            None => PriceLevel::new(price, side),
        };
        let ghost lv0 = level;
        proof {
            if side == Side::Buy {
                assert(pick(b0, a0, side) == b0);
            } else {
                assert(pick(b0, a0, side) == a0);
            }
            assert(pick(b0, a0, side).dom().contains(price) ==> lv0 == pick(b0, a0, side)[price]);
            assert(crate::consistency::indexed(pick(b0, a0, side), l0, side));
            if !pick(b0, a0, side).dom().contains(price) {
                assert(lv0.orders@ =~= Seq::<Order>::empty());
                assert(crate::level::visible_sum(lv0.orders@) == 0);
                assert(crate::level::hidden_sum(lv0.orders@) == 0);
            }
            assert(!id_set(lv0.orders@).contains(order.id)) by {
                if id_set(lv0.orders@).contains(order.id) {
                    let k = choose|k: int| 0 <= k < lv0.orders@.len() && lv0.orders@[k].id == order.id;
                    assert(0 <= k < lv0.orders@.len());
                    assert(pick(b0, a0, side).dom().contains(price));
                    assert(lv0 == pick(b0, a0, side)[price]);
                    assert(pick(b0, a0, side)[price].orders@[k].id == order.id);
                    assert(l0.dom().contains(pick(b0, a0, side)[price].orders@[k].id));
                    assert(false);
                }
            }
            lemma_sums_nonneg(lv0.orders@);
            assert(!l0.dom().contains(order.id));
            assert(!id_set(lv0.orders@).contains(order.id));
            assert(lv0.total_spec() + order.total_spec() <= u64::MAX);
            assert(lv0.wf());
        }
        level.add_order(order);
        let ghost lv1 = level;
        match side {
            Side::Buy => level_map_insert(&mut self.bids, price, level),
            Side::Sell => level_map_insert(&mut self.asks, price, level),
        }
        location_insert(&mut self.order_locations, order.id, (price, side));
        proof {
            let s1 = lv1.orders@;
            assert forall|id: u128| #![trigger id_set(s1).contains(id)] id_set(s1).contains(id) <==> (id == order.id || (pick(b0, a0, side).dom().contains(price)
                && id_set(pick(b0, a0, side)[price].orders@).contains(id))) by {
                if id_set(s1).contains(id) {
                    let k = choose|k: int| 0 <= k < s1.len() && s1[k].id == id;
                    if k < s1.len() - 1 {
                        assert(lv0.orders@[k].id == id);
                    }
                }
                if id == order.id {
                    assert(s1[s1.len() - 1].id == id);
                }
                if pick(b0, a0, side).dom().contains(price) && id_set(pick(b0, a0, side)[price].orders@).contains(id) {
                    let k = choose|k: int| 0 <= k < lv0.orders@.len() && lv0.orders@[k].id == id;
                    assert(s1[k].id == id);
                }
            }
            if side == Side::Buy {
                assert forall|a: u64| #[trigger] a0.dom().contains(a) implies price < a by {
                    assert(old(self).side_levels(Side::Sell).dom().contains(a));
                }
            } else {
                assert forall|b: u64| #[trigger] b0.dom().contains(b) implies b < price by {
                    assert(old(self).side_levels(Side::Buy).dom().contains(b));
                }
            }
            lemma_insert_order(b0, a0, l0, side, price, lv1, order.id);
            assert(pick(b0, a0, side).insert(price, lv1).remove(price) =~= pick(b0, a0, side).remove(price));
            if !pick(b0, a0, side).dom().contains(price) {
                assert(s1 =~= seq![order]);
            }
        }
    }

    /// Whether an order with this time in force has expired at `now`.
    fn is_expired(&self, tif: TimeInForce, now: u64) -> (r: bool)
        ensures
            r == expired(tif, now, self.market_close_spec()),
    {
        match tif {
            TimeInForce::Gtd(expiry) => expiry <= now,
            TimeInForce::Day => match self.market_close_timestamp {
                Some(close) => close <= now,
                None => false,
            },
            _ => false,
        }
    }

    /// Whether a new order of `quantity` fits in the level at `price` on
    /// `side`.
    pub(crate) fn level_has_room_for(&self, price: u64, side: Side, quantity: u64) -> (r: bool)
        requires
            self.wf(),
        ensures
            r == (!self.side_levels(side).dom().contains(price) || self.side_levels(side)[price].total_spec() + quantity
                <= u64::MAX),
    {
        let got = match side {
            Side::Buy => level_map_get(&self.bids, price),
            Side::Sell => level_map_get(&self.asks, price),
        };
        match got {
            None => true,
            Some(l) => {
                assert(l.wf());
                l.total_quantity() <= u64::MAX - quantity
            },
        }
    }

    /// Why an incoming order would be refused before it touches the book,
    /// if it would.
    pub open spec fn entry_check(
        &self,
        order_id: u128,
        price: u64,
        visible: u64,
        hidden: u64,
        replenish: u64,
        side: Side,
        tif: TimeInForce,
        post_only: bool,
        now: u64,
    ) -> Option<OrderBookError> {
        let total = visible + hidden;
        let opp = side.opposite_spec();
        if visible == 0 || total > u64::MAX || (hidden > 0 && replenish == 0) {
            Some(OrderBookError::InvalidQuantity { order_id, quantity: visible })
        } else if self.locations().dom().contains(order_id) {
            Some(OrderBookError::DuplicateOrderId { order_id })
        } else if expired(tif, now, self.market_close_spec()) {
            Some(OrderBookError::Expired { order_id })
        } else if self.side_levels(side).dom().contains(price) && self.side_levels(side)[price].total_spec() + total > u64::MAX {
            Some(OrderBookError::InvalidQuantity { order_id, quantity: total as u64 })
        } else if post_only && exists|q: u64| #[trigger] self.side_levels(opp).dom().contains(q) && crosses(side, q, Some(price)) {
            Some(OrderBookError::WouldCross { order_id, price })
        } else if tif == TimeInForce::Fok && crossing_sum(self.live_ladder(opp, now), side, Some(price)) < total {
            Some(
                OrderBookError::CannotBeFullyFilled {
                    order_id,
                    requested: total as u64,
                    available: cap(crossing_sum(self.live_ladder(opp, now), side, Some(price))),
                },
            )
        } else {
            None
        }
    }

    /// Whether the unfilled part of an order with this time in force rests.
    pub open spec fn rests(tif: TimeInForce) -> bool {
        tif != TimeInForce::Ioc && tif != TimeInForce::Fok
    }

    /// What an accepted order did: it traded against the other side at
    /// prices its limit accepts, and its residual rests at its price when
    /// its time in force lets it.
    pub open spec fn entry_done(
        old_book: OrderBook,
        new_book: OrderBook,
        m: MatchResult,
        order_id: u128,
        price: u64,
        total: int,
        side: Side,
        tif: TimeInForce,
        now: u64,
        shown: u64,
        replenish: u64,
    ) -> bool {
        &&& m.order_id == order_id
        &&& match_done(old_book, new_book, m, order_id, total, side, Some(price), now)
        &&& new_book.market_close_spec() == old_book.market_close_spec()
        &&& (Self::rests(tif) && m.remaining_quantity > 0) ==> {
            let own = new_book.side_levels(side);
            let was = old_book.side_levels(side);
            &&& new_book.locations().dom().contains(order_id)
            &&& new_book.locations()[order_id] == (price, side)
            &&& own.dom() == was.dom().insert(price)
            &&& own.remove(price) == was.remove(price)
            &&& was.dom().contains(price) ==> own[price].orders@.drop_last() == was[price].orders@
            &&& !was.dom().contains(price) ==> own[price].orders@.len() == 1
            &&& own[price].orders@.last() == (Order {
                id: order_id,
                price,
                visible_quantity: if m.remaining_quantity < shown { m.remaining_quantity } else { shown },
                hidden_quantity: (m.remaining_quantity - (if m.remaining_quantity < shown { m.remaining_quantity } else { shown })) as u64,
                replenish_amount: replenish,
                side,
                timestamp: now,
                time_in_force: tif,
            })
        }
        &&& !(Self::rests(tif) && m.remaining_quantity > 0) ==> !new_book.locations().dom().contains(order_id)
            && new_book.side_levels(side) == old_book.side_levels(side)
        &&& forall|id: u128| #[trigger] new_book.locations().dom().contains(id) && id != order_id
            ==> old_book.locations().dom().contains(id) && new_book.locations()[id] == old_book.locations()[id]
        &&& forall|id: u128| #[trigger] old_book.locations().dom().contains(id) && old_book.locations()[id].1 == side
            ==> new_book.locations().dom().contains(id)
        &&& new_book.symbol_spec() == old_book.symbol_spec()
    }

    /// Places an order: checks it, matches it against the other side up to
    /// its limit price, and rests what is left when its time in force lets
    /// it. An order with hidden quantity rests showing at most `visible`.
    fn place(
        &mut self,
        order_id: u128,
        price: u64,
        visible: u64,
        hidden: u64,
        replenish: u64,
        side: Side,
        tif: TimeInForce,
        post_only: bool,
        now: u64,
    ) -> (r: Result<MatchResult, OrderBookError>)
        requires
            old(self).wf(),
        ensures
            final(self).wf(),
            match old(self).entry_check(order_id, price, visible, hidden, replenish, side, tif, post_only, now) {
                Some(e) => r == Err::<MatchResult, OrderBookError>(e) && *final(self) == *old(self),
                None => r is Ok && Self::entry_done(*old(self), *final(self), r->Ok_0, order_id, price, visible + hidden, side, tif, now, visible, replenish)
                    && (post_only ==> r->Ok_0.transactions@.len() == 0),
            },
    {
        let opp = side.opposite();
        if visible == 0 || visible > u64::MAX - hidden || (hidden > 0 && replenish == 0) {
            return Err(OrderBookError::InvalidQuantity { order_id, quantity: visible });
        }
        let total = visible + hidden;
        if location_get(&self.order_locations, order_id).is_some() {
            return Err(OrderBookError::DuplicateOrderId { order_id });
        }
        if self.is_expired(tif, now) {
            return Err(OrderBookError::Expired { order_id });
        }
        if !self.level_has_room_for(price, side, total) {
            return Err(OrderBookError::InvalidQuantity { order_id, quantity: total });
        }
        if post_only {
            let best = match side {
                Side::Buy => level_map_first_key(&self.asks),
                Side::Sell => level_map_last_key(&self.bids),
            };
            proof {
                if best is None {
                    assert(!(exists|q: u64| #[trigger] self.side_levels(opp).dom().contains(q) && crosses(side, q, Some(price)))) by {
                        if exists|q: u64| #[trigger] self.side_levels(opp).dom().contains(q) && crosses(side, q, Some(price)) {
                            let q = choose|q: u64| #[trigger] self.side_levels(opp).dom().contains(q) && crosses(side, q, Some(price));
                            if side == Side::Buy {
                                assert(levels_of(self.asks).dom().contains(q));
                            } else {
                                assert(levels_of(self.bids).dom().contains(q));
                            }
                        }
                    }
                }
            }
            if let Some(b) = best {
                if crosses_limit(side, b, Some(price)) {
                    proof {
                        assert(self.side_levels(opp).dom().contains(b));
                    }
                    return Err(OrderBookError::WouldCross { order_id, price });
                }
                proof {
                    assert(!(exists|q: u64| #[trigger] self.side_levels(opp).dom().contains(q) && crosses(side, q, Some(price)))) by {
                        if exists|q: u64| #[trigger] self.side_levels(opp).dom().contains(q) && crosses(side, q, Some(price)) {
                            let q = choose|q: u64| #[trigger] self.side_levels(opp).dom().contains(q) && crosses(side, q, Some(price));
                            if side == Side::Buy {
                                assert(levels_of(self.asks).dom().contains(q));
                            } else {
                                assert(levels_of(self.bids).dom().contains(q));
                            }
                        }
                    }
                }
            }
        }
        if tif == TimeInForce::Fok {
            let ladder = self.live_depth_ladder(opp, now);
            let available = crossing_liquidity(&ladder, side, Some(price));
            if available < total {
                return Err(OrderBookError::CannotBeFullyFilled { order_id, requested: total, available });
            }
            proof {
                crate::depth::lemma_crossing_sum_nonneg(self.live_ladder(opp, now), side, Some(price));
            }
            assert(crossing_sum(self.live_ladder(opp, now), side, Some(price)) >= total);
        }
        assert(self.entry_check(order_id, price, visible, hidden, replenish, side, tif, post_only, now) is None);
        let ghost before = *self;
        let result = self.match_order(order_id, side, total, Some(price), now);
        proof {
            if post_only && result.transactions@.len() > 0 {
                let t = result.transactions@[0];
                assert(crosses(side, t.price, Some(price)));
                assert(before.side_levels(opp).dom().contains(t.price));
            }
        }
        let rest = match tif {
            TimeInForce::Ioc => false,
            TimeInForce::Fok => false,
            _ => true,
        };
        if rest && result.remaining_quantity > 0 {
            let shown = if result.remaining_quantity < visible { result.remaining_quantity } else { visible };
            let order = Order {
                id: order_id,
                price,
                visible_quantity: shown,
                hidden_quantity: result.remaining_quantity - shown,
                replenish_amount: replenish,
                side,
                timestamp: now,
                time_in_force: tif,
            };
            proof {
                assert(!self.locations().dom().contains(order_id));
                if side == Side::Buy {
                    assert forall|a: u64| #[trigger] self.side_levels(Side::Sell).dom().contains(a) implies price < a by {
                        assert(!crosses(side, a, Some(price)));
                    }
                } else {
                    assert forall|b: u64| #[trigger] self.side_levels(Side::Buy).dom().contains(b) implies b < price by {
                        assert(!crosses(side, b, Some(price)));
                    }
                }
            }
            let ghost mid = *self;
            self.rest_resting_order(order);
            proof {
                let own = self.side_levels(side);
                let was = mid.side_levels(side);
                if was.dom().contains(price) {
                    assert(own[price].orders@.drop_last() =~= was[price].orders@);
                }
                assert(self.side_levels(side.opposite_spec()) == mid.side_levels(side.opposite_spec()));
                assert(match_done(before, *self, result, order_id, total as int, side, Some(price), now));
            }
        }
        Ok(result)
    }

    /// Adds a limit order of `quantity` at `price`: it trades first against
    /// the other side at prices up to (buy) or down to (sell) `price`, then
    /// rests what is left unless it is immediate-or-cancel or fill-or-kill.
    pub fn add_limit_order(
        &mut self,
        order_id: u128,
        price: u64,
        quantity: u64,
        side: Side,
        time_in_force: TimeInForce,
        now: u64,
    ) -> (r: Result<MatchResult, OrderBookError>)
        requires
            old(self).wf(),
        ensures
            final(self).wf(),
            match old(self).entry_check(order_id, price, quantity, 0, 0, side, time_in_force, false, now) {
                Some(e) => r == Err::<MatchResult, OrderBookError>(e) && *final(self) == *old(self),
                None => r is Ok && Self::entry_done(*old(self), *final(self), r->Ok_0, order_id, price, quantity as int, side, time_in_force, now, quantity, 0),
            },
    {
        self.place(order_id, price, quantity, 0, 0, side, time_in_force, false, now)
    }

    /// Adds a post-only order: refused with `WouldCross` if any resting
    /// order on the other side is at a price it would trade at; otherwise it
    /// rests in full without trading.
    pub fn add_post_only_order(
        &mut self,
        order_id: u128,
        price: u64,
        quantity: u64,
        side: Side,
        time_in_force: TimeInForce,
        now: u64,
    ) -> (r: Result<MatchResult, OrderBookError>)
        requires
            old(self).wf(),
        ensures
            final(self).wf(),
            match old(self).entry_check(order_id, price, quantity, 0, 0, side, time_in_force, true, now) {
                Some(e) => r == Err::<MatchResult, OrderBookError>(e) && *final(self) == *old(self),
                None => r is Ok && Self::entry_done(*old(self), *final(self), r->Ok_0, order_id, price, quantity as int, side, time_in_force, now, quantity, 0)
                    && r->Ok_0.transactions@.len() == 0,
            },
    {
        self.place(order_id, price, quantity, 0, 0, side, time_in_force, true, now)
    }

    /// Adds an iceberg order showing `visible` of `visible + hidden`, which
    /// refills its visible part by up to `replenish_amount` at a time. It
    /// trades first like a limit order for its whole quantity.
    pub fn add_iceberg_order(
        &mut self,
        order_id: u128,
        price: u64,
        visible: u64,
        hidden: u64,
        replenish_amount: u64,
        side: Side,
        time_in_force: TimeInForce,
        now: u64,
    ) -> (r: Result<MatchResult, OrderBookError>)
        requires
            old(self).wf(),
        ensures
            final(self).wf(),
            match old(self).entry_check(order_id, price, visible, hidden, replenish_amount, side, time_in_force, false, now) {
                Some(e) => r == Err::<MatchResult, OrderBookError>(e) && *final(self) == *old(self),
                None => r is Ok && Self::entry_done(*old(self), *final(self), r->Ok_0, order_id, price, visible + hidden, side, time_in_force, now, visible, replenish_amount),
            },
    {
        self.place(order_id, price, visible, hidden, replenish_amount, side, time_in_force, false, now)
    }

    /// Matches a market order of `quantity` against the other side at any
    /// price. What cannot be filled is dropped. Refused when the quantity is
    /// zero or the other side is empty.
    pub fn match_market_order(&mut self, order_id: u128, quantity: u64, side: Side, now: u64) -> (r: Result<
        MatchResult,
        OrderBookError,
    >)
        requires
            old(self).wf(),
        ensures
            final(self).wf(),
            quantity == 0 ==> r == Err::<MatchResult, OrderBookError>(OrderBookError::InvalidQuantity { order_id, quantity }),
            quantity > 0 && old(self).side_levels(side.opposite_spec()).dom().is_empty() ==> r == Err::<MatchResult, OrderBookError>(
                OrderBookError::InsufficientLiquidity { order_id, requested: quantity },
            ),
            r is Err ==> *final(self) == *old(self),
            r is Ok <==> quantity > 0 && !old(self).side_levels(side.opposite_spec()).dom().is_empty(),
            r is Ok ==> {
                let m = r->Ok_0;
                &&& m.order_id == order_id
                &&& match_done(*old(self), *final(self), m, order_id, quantity as int, side, None, now)
                &&& m.remaining_quantity > 0 ==> final(self).side_levels(side.opposite_spec()).dom().is_empty()
                &&& final(self).side_levels(side) == old(self).side_levels(side)
            },
    {
        if quantity == 0 {
            return Err(OrderBookError::InvalidQuantity { order_id, quantity });
        }
        let best = match side {
            Side::Buy => level_map_first_key(&self.asks),
            Side::Sell => level_map_last_key(&self.bids),
        };
        if best.is_none() {
            return Err(OrderBookError::InsufficientLiquidity { order_id, requested: quantity });
        }
        let result = self.match_order(order_id, side, quantity, None, now);
        proof {
            if result.remaining_quantity > 0 {
                if !self.side_levels(side.opposite_spec()).dom().is_empty() {
                    let q = choose|q: u64| self.side_levels(side.opposite_spec()).dom().contains(q);
                    assert(!crosses(side, q, None::<u64>));
                }
            }
        }
        Ok(result)
    }

    /// Same as [`OrderBook::match_market_order`].
    pub fn submit_market_order(&mut self, order_id: u128, quantity: u64, side: Side, now: u64) -> (r: Result<
        MatchResult,
        OrderBookError,
    >)
        requires
            old(self).wf(),
        ensures
            final(self).wf(),
            quantity == 0 ==> r == Err::<MatchResult, OrderBookError>(OrderBookError::InvalidQuantity { order_id, quantity }),
            quantity > 0 && old(self).side_levels(side.opposite_spec()).dom().is_empty() ==> r == Err::<MatchResult, OrderBookError>(
                OrderBookError::InsufficientLiquidity { order_id, requested: quantity },
            ),
            r is Err ==> *final(self) == *old(self),
            r is Ok <==> quantity > 0 && !old(self).side_levels(side.opposite_spec()).dom().is_empty(),
            r is Ok ==> {
                let m = r->Ok_0;
                &&& m.order_id == order_id
                &&& match_done(*old(self), *final(self), m, order_id, quantity as int, side, None, now)
                &&& m.remaining_quantity > 0 ==> final(self).side_levels(side.opposite_spec()).dom().is_empty()
                &&& final(self).side_levels(side) == old(self).side_levels(side)
            },
    {
        self.match_market_order(order_id, quantity, side, now)
    }

    /// Matches `quantity` against the other side at prices `limit_price`
    /// accepts, without resting anything.
    pub fn match_limit_order(&mut self, order_id: u128, quantity: u64, side: Side, limit_price: u64, now: u64) -> (r: Result<
        MatchResult,
        OrderBookError,
    >)
        requires
            old(self).wf(),
        ensures
            final(self).wf(),
            quantity == 0 ==> r == Err::<MatchResult, OrderBookError>(OrderBookError::InvalidQuantity { order_id, quantity }),
            r is Err ==> *final(self) == *old(self),
            r is Ok <==> quantity > 0,
            r is Ok ==> {
                let m = r->Ok_0;
                &&& m.order_id == order_id
                &&& match_done(*old(self), *final(self), m, order_id, quantity as int, side, Some(limit_price), now)
                &&& m.remaining_quantity > 0 ==> forall|q: u64| #[trigger] final(self).side_levels(side.opposite_spec()).dom().contains(q)
                    ==> !crosses(side, q, Some(limit_price))
                &&& final(self).side_levels(side) == old(self).side_levels(side)
            },
    {
        if quantity == 0 {
            return Err(OrderBookError::InvalidQuantity { order_id, quantity });
        }
        Ok(self.match_order(order_id, side, quantity, Some(limit_price), now))
    }

    /// Changes a resting order: it is cancelled and entered again with its
    /// new price and quantity (so it loses its time priority, and may
    /// trade). Refused with `OrderNotFound` when no order has the id; when
    /// the new order is refused, the old one stays cancelled.
    pub fn update_order(&mut self, order_id: u128, update: OrderUpdate, now: u64) -> (r: Result<MatchResult, OrderBookError>)
        requires
            old(self).wf(),
        ensures
            final(self).wf(),
            !old(self).locations().dom().contains(order_id) ==> is_not_found(r, order_id) && *final(self) == *old(self),
            old(self).locations().dom().contains(order_id) ==> exists|mid: OrderBook, o: Order|
                #[trigger] cancel_post(*old(self), order_id, mid, Ok(o)) && update_done(mid, *final(self), r, o, update, now),
    {
        let ghost b0 = *self;
        let o = match self.cancel_order(order_id) {
            Err(e) => return Err(e),
            Ok(o) => o,
        };
        let ghost mid = *self;
        let (price, visible, hidden, replenish) = match update {
            OrderUpdate::UpdateQuantity { new_quantity } => (o.price, new_quantity, 0, 0),
            OrderUpdate::UpdatePrice { new_price } => (new_price, o.visible_quantity, o.hidden_quantity, o.replenish_amount),
            OrderUpdate::Replace { price, quantity } => (price, quantity, 0, 0),
        };
        let r = self.place(order_id, price, visible, hidden, replenish, o.side, o.time_in_force, false, now);
        proof {
            assert(cancel_post(b0, order_id, mid, Ok(o)));
            assert(update_done(mid, *self, r, o, update, now));
        }
        r
    }
}

/// A change to a resting order.
#[derive(Clone, Copy, Debug, PartialEq, Eq, Structural)]
pub enum OrderUpdate {
    /// Same price, new quantity (shown in full).
    UpdateQuantity { new_quantity: u64 },
    /// New price, same quantities.
    UpdatePrice { new_price: u64 },
    /// New price and quantity (shown in full).
    Replace { price: u64, quantity: u64 },
}

/// The price, visible, hidden and replenish quantities of order `o` after
/// `update`.
pub open spec fn updated_terms(o: Order, update: OrderUpdate) -> (u64, u64, u64, u64) {
    match update {
        OrderUpdate::UpdateQuantity { new_quantity } => (o.price, new_quantity, 0, 0),
        OrderUpdate::UpdatePrice { new_price } => (new_price, o.visible_quantity, o.hidden_quantity, o.replenish_amount),
        OrderUpdate::Replace { price, quantity } => (price, quantity, 0, 0),
    }
}

/// After `o` was cancelled from `mid`, its updated form was entered: see
/// [`OrderBook::entry_check`] and [`OrderBook::entry_done`].
pub open spec fn update_done(mid: OrderBook, new_book: OrderBook, r: Result<MatchResult, OrderBookError>, o: Order, update: OrderUpdate, now: u64) -> bool {
    let (price, visible, hidden, replenish) = updated_terms(o, update);
    match mid.entry_check(o.id, price, visible, hidden, replenish, o.side, o.time_in_force, false, now) {
        Some(e) => r == Err::<MatchResult, OrderBookError>(e) && new_book == mid,
        None => r is Ok && OrderBook::entry_done(mid, new_book, r->Ok_0, o.id, price, visible + hidden, o.side, o.time_in_force, now, visible, replenish),
    }
}


/// A level with no hidden quantity and no order expired at `now`.
pub open spec fn clean_level(l: PriceLevel, now: u64, close: Option<u64>) -> bool {
    no_hidden(l.orders@) && all_live(l.orders@, now, close)
}

/// Price-time priority: at every price that traded whose level held no
/// hidden or expired order, the trades at that price and what is left of
/// the level are as [`fifo_outcome`] says.
pub open spec fn fifo_at_prices(
    old_side: Map<u64, PriceLevel>,
    new_side: Map<u64, PriceLevel>,
    ts: Seq<Transaction>,
    now: u64,
    close: Option<u64>,
) -> bool {
    forall|p: u64|
        #[trigger] old_side.dom().contains(p) && at_price(ts, p).len() > 0 && clean_level(old_side[p], now, close) ==> exists|
            fs: Seq<u128>,
        | fifo_outcome(old_side[p].orders@, orders_at(new_side, p), at_price(ts, p), fs)
}

/// What matching `quantity` for `taker_id` on `side` with `limit` did to
/// the other side and what it reports: the quantities add up, the traded
/// quantity is the smaller of `quantity` and the live liquidity the limit
/// accepts, which drops by exactly that much; trades come best price first,
/// levels better than a traded price are used up, levels the limit refuses
/// are untouched, and the last trade price follows the last transaction.
pub open spec fn match_done(
    old_book: OrderBook,
    new_book: OrderBook,
    m: MatchResult,
    taker_id: u128,
    quantity: int,
    side: Side,
    limit: Option<u64>,
    now: u64,
) -> bool {
    let os = side.opposite_spec();
    let cs0 = crossing_sum(old_book.live_ladder(os, now), side, limit);
    &&& m.executed_quantity + m.remaining_quantity == quantity
    &&& m.executed_quantity == traded_sum(m.transactions@)
    &&& m.is_complete == (m.remaining_quantity == 0)
    &&& m.executed_quantity == if quantity <= cs0 { quantity } else { cs0 }
    &&& crossing_sum(new_book.live_ladder(os, now), side, limit) == cs0 - m.executed_quantity
    &&& new_book.side_levels(os).dom().subset_of(old_book.side_levels(os).dom())
    &&& forall|k: int| 0 <= k < m.transactions@.len() ==> {
        &&& (#[trigger] m.transactions@[k]).taker_id == taker_id
        &&& m.transactions@[k].quantity > 0
        &&& crosses(side, m.transactions@[k].price, limit)
        &&& old_book.side_levels(os).dom().contains(m.transactions@[k].price)
    }
    &&& forall|k1: int, k2: int| 0 <= k1 < k2 < m.transactions@.len() ==> (side == Side::Buy ==> #[trigger] m.transactions@[k1].price
        <= #[trigger] m.transactions@[k2].price) && (side == Side::Sell ==> m.transactions@[k1].price >= m.transactions@[k2].price)
    &&& forall|k: int, q: u64|
        0 <= k < m.transactions@.len() && #[trigger] new_book.side_levels(os).dom().contains(q) ==> (side == Side::Buy
            ==> #[trigger] m.transactions@[k].price <= q) && (side == Side::Sell ==> m.transactions@[k].price >= q)
    &&& forall|q: u64| #[trigger] old_book.side_levels(os).dom().contains(q) && !crosses(side, q, limit)
        ==> new_book.side_levels(os).dom().contains(q) && new_book.side_levels(os)[q] == old_book.side_levels(os)[q]
    &&& m.transactions@.len() > 0 ==> new_book.last_trade_spec() == Some(m.transactions@.last().price)
    &&& m.transactions@.len() == 0 ==> new_book.last_trade_spec() == old_book.last_trade_spec()
    &&& fifo_at_prices(old_book.side_levels(os), new_book.side_levels(os), m.transactions@, now, old_book.market_close_spec())
    &&& forall|q: u64| #[trigger] new_book.side_levels(os).dom().contains(q) && at_price(m.transactions@, q).len() == 0
        ==> new_book.side_levels(os)[q] == old_book.side_levels(os)[q]
}

/// What [`OrderBook::cancel_order`] does: it succeeds exactly when the id is
/// indexed, returns that order, and drops it from the index; it fails with
/// `OrderNotFound` and changes nothing otherwise.
pub open spec fn cancel_post(old_book: OrderBook, order_id: u128, new_book: OrderBook, r: Result<Order, OrderBookError>) -> bool {
    &&& r is Ok <==> old_book.locations().dom().contains(order_id)
    &&& r is Err ==> new_book == old_book && is_not_found(r, order_id)
    &&& r is Ok ==> {
        let (p, s) = old_book.locations()[order_id];
        &&& r->Ok_0.id == order_id
        &&& r->Ok_0.price == p
        &&& r->Ok_0.side == s
        &&& new_book.locations() == old_book.locations().remove(order_id)
        &&& new_book.side_levels(s.opposite_spec()) == old_book.side_levels(s.opposite_spec())
        &&& new_book.side_levels(s).remove(p) == old_book.side_levels(s).remove(p)
        &&& exists|i: int|
            0 <= i < old_book.side_levels(s)[p].orders@.len() && #[trigger] old_book.side_levels(s)[p].orders@[i] == r->Ok_0
                && (if old_book.side_levels(s)[p].orders@.len() == 1 {
                !new_book.side_levels(s).dom().contains(p)
            } else {
                new_book.side_levels(s).dom().contains(p) && new_book.side_levels(s)[p].orders@ == old_book.side_levels(s)[p].orders@.remove(i)
            })
        &&& new_book.symbol_spec() == old_book.symbol_spec()
        &&& new_book.last_trade_spec() == old_book.last_trade_spec()
        &&& new_book.market_close_spec() == old_book.market_close_spec()
    }
}

/// `r` is the error that reports `order_id` as not found.
pub open spec fn is_not_found<T>(r: Result<T, OrderBookError>, order_id: u128) -> bool {
    match r {
        Err(OrderBookError::OrderNotFound { order_id: id }) => id == order_id,
        _ => false,
    }
}

} // verus!
