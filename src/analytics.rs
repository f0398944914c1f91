//! Read-only analytics of the book: depth, liquidity, queue positions and
//! the effect of a hypothetical market order.
use vstd::prelude::*;
use crate::book::OrderBook;
use crate::depth::{
    DepthStats, DistributionBin, MarketImpact, histogram, is_histogram, lemma_fills_prices_behind_best, OrderSimulation, cap, cost_sum, depth_to_target, filled_sum, fills, ladder_statistics,
    lemma_prefix_sum_nonneg, prefix_sum, range_sum, reach, simulate_fills, sum_first, sum_in_range, weighted_sum,
};
use crate::store::{is_max_key, is_min_key, level_map_get};
use crate::types::Side;

verus! {

/// The price of the rung where [`reach`] stops.
pub open spec fn reach_price(l: Seq<(u64, u64)>, target: u64) -> Option<u64> {
    match reach(l, target as int, 0) {
        None => None,
        Some((p, _)) => Some(p),
    }
}

impl OrderBook {
    /// The first price, best first, at which the cumulative quantity of
    /// `side` reaches `target_depth`.
    pub fn price_at_depth(&self, target_depth: u64, side: Side) -> (r: Option<u64>)
        requires
            self.wf(),
        ensures
            r == reach_price(self.ladder(side), target_depth),
    {
        let l = self.depth_ladder(side);
        match depth_to_target(&l, target_depth) {
            None => None,
            Some((p, _)) => Some(p),
        }
    }

    /// Like [`OrderBook::price_at_depth`], with the cumulative quantity
    /// reached there (capped at `u64::MAX`).
    pub fn cumulative_depth_to_target(&self, target_depth: u64, side: Side) -> (r: Option<(u64, u64)>)
        requires
            self.wf(),
        ensures
            match reach(self.ladder(side), target_depth as int, 0) {
                None => r is None,
                Some((p, c)) => r == Some((p, cap(c))),
            },
    {
        let l = self.depth_ladder(side);
        depth_to_target(&l, target_depth)
    }

    /// Total quantity of the best `levels` levels of `side`, capped at
    /// `u64::MAX`.
    pub fn total_depth_at_levels(&self, levels: usize, side: Side) -> (r: u64)
        requires
            self.wf(),
        ensures
            r == cap(prefix_sum(self.ladder(side), levels as int)),
    {
        let l = self.depth_ladder(side);
        sum_first(&l, levels)
    }

    /// Total quantity of the levels of `side` priced in
    /// `[min_price, max_price]`, capped at `u64::MAX`.
    pub fn liquidity_in_range(&self, min_price: u64, max_price: u64, side: Side) -> (r: u64)
        requires
            self.wf(),
        ensures
            r == cap(range_sum(self.ladder(side), min_price, max_price)),
    {
        let l = self.depth_ladder(side);
        sum_in_range(&l, min_price, max_price)
    }

    /// Total quantity resting on each side, capped at `u64::MAX`.
    pub fn buy_sell_pressure(&self) -> (r: (u64, u64))
        requires
            self.wf(),
        ensures
            r.0 == cap(prefix_sum(self.ladder(Side::Buy), self.ladder(Side::Buy).len() as int)),
            r.1 == cap(prefix_sum(self.ladder(Side::Sell), self.ladder(Side::Sell).len() as int)),
    {
        let b = self.depth_ladder(Side::Buy);
        let a = self.depth_ladder(Side::Sell);
        (sum_first(&b, b.len()), sum_first(&a, a.len()))
    }

    /// Number of orders queued at `price` on `side` (0 without a level).
    pub fn queue_ahead_at_price(&self, price: u64, side: Side) -> (r: usize)
        requires
            self.wf(),
        ensures
            self.side_levels(side).dom().contains(price) ==> r == self.side_levels(side)[price].orders@.len(),
            !self.side_levels(side).dom().contains(price) ==> r == 0,
    {
        let got = match side {
            Side::Buy => level_map_get(&self.bids, price),
            Side::Sell => level_map_get(&self.asks, price),
        };
        match got {
            Some(l) => l.order_count(),
            None => 0,
        }
    }

    /// The price `n_ticks` ticks of `tick_size` behind the best price of
    /// `side` (below the best bid, above the best ask); `None` for zero
    /// ticks or tick size, an empty side, or a price out of range.
    pub fn price_n_ticks_inside(&self, n_ticks: usize, tick_size: u64, side: Side) -> (r: Option<u64>)
        requires
            self.wf(),
        ensures
            (n_ticks == 0 || tick_size == 0 || self.side_levels(side).dom().is_empty()) ==> r is None,
            r is Some ==> exists|best: u64| {
                &&& match side {
                    Side::Buy => is_max_key(self.side_levels(side), best) && r->0 + n_ticks * tick_size == best,
                    Side::Sell => is_min_key(self.side_levels(side), best) && r->0 == best + n_ticks * tick_size,
                }
            },
            !(n_ticks == 0 || tick_size == 0 || self.side_levels(side).dom().is_empty()) && r is None ==> forall|best: u64|
                match side {
                    Side::Buy => is_max_key(self.side_levels(side), best) ==> n_ticks * tick_size > best,
                    Side::Sell => is_min_key(self.side_levels(side), best) ==> best + n_ticks * tick_size > u64::MAX,
                },
    {
        if n_ticks == 0 || tick_size == 0 {
            return None;
        }
        if n_ticks as u128 > u64::MAX as u128 {
            return None;
        }
        let n = n_ticks as u64;
        let adjustment = match n.checked_mul(tick_size) {
            Some(a) => a,
            None => {
                proof {
                    assert forall|best: u64| match side {
                        Side::Buy => is_max_key(self.side_levels(side), best) ==> n_ticks * tick_size > best,
                        Side::Sell => is_min_key(self.side_levels(side), best) ==> best + n_ticks * tick_size > u64::MAX,
                    } by {
                        assert(n_ticks * tick_size > u64::MAX);
                    }
                }
                return None;
            },
        };
        match side {
            Side::Buy => match self.best_bid() {
                None => None,
                Some(b) => b.checked_sub(adjustment),
            },
            Side::Sell => match self.best_ask() {
                None => None,
                Some(a) => a.checked_add(adjustment),
            },
        }
    }

    /// The price of the `position`-th best level of `side` (1 is the best).
    pub fn price_for_queue_position(&self, position: usize, side: Side) -> (r: Option<u64>)
        requires
            self.wf(),
        ensures
            (1 <= position <= self.ladder(side).len()) ==> r == Some(self.ladder(side)[position - 1].0),
            !(1 <= position <= self.ladder(side).len()) ==> r is None,
    {
        let l = self.depth_ladder(side);
        if position == 0 || position > l.len() {
            None
        } else {
            Some(l[position - 1].0)
        }
    }

    /// One tick better than the first price at which the cumulative
    /// quantity of `side` reaches `target_depth`; the deepest price when it
    /// is never reached. `None` for a zero target or tick, an empty side, or
    /// a price out of range.
    pub fn price_at_depth_adjusted(&self, target_depth: u64, tick_size: u64, side: Side) -> (r: Option<u64>)
        requires
            self.wf(),
        ensures
            (target_depth == 0 || tick_size == 0 || self.ladder(side).len() == 0) ==> r is None,
            !(target_depth == 0 || tick_size == 0 || self.ladder(side).len() == 0) ==> match reach_price(self.ladder(side), target_depth) {
                None => r == Some(self.ladder(side).last().0),
                Some(p) => match side {
                    Side::Buy => r == (if p + tick_size <= u64::MAX { Some((p + tick_size) as u64) } else { None }),
                    Side::Sell => r == (if p >= tick_size { Some((p - tick_size) as u64) } else { None }),
                },
            },
    {
        if target_depth == 0 || tick_size == 0 {
            return None;
        }
        let l = self.depth_ladder(side);
        if l.len() == 0 {
            return None;
        }
        match depth_to_target(&l, target_depth) {
            None => Some(l[l.len() - 1].0),
            Some((p, _)) => match side {
                Side::Buy => p.checked_add(tick_size),
                Side::Sell => p.checked_sub(tick_size),
            },
        }
    }

    /// A market order of `quantity` on `side`, walked against the other
    /// side without touching the book.
    pub fn simulate_market_order(&self, quantity: u64, side: Side) -> (r: OrderSimulation)
        requires
            self.wf(),
        ensures
            r.fills@ == fills(self.ladder(side.opposite_spec()), quantity as int),
            r.total_filled == filled_sum(r.fills@),
            r.total_cost == cost_sum(r.fills@),
            r.total_filled + r.remaining_quantity == quantity,
    {
        let l = self.depth_ladder(side.opposite());
        simulate_fills(&l, quantity)
    }

    /// The total cost of filling `quantity` on `side` against the other
    /// side, when it can be filled in full; the volume-weighted average
    /// price is this cost divided by `quantity`.
    pub fn vwap(&self, quantity: u64, side: Side) -> (r: Option<u128>)
        requires
            self.wf(),
        ensures
            ({
                let f = fills(self.ladder(side.opposite_spec()), quantity as int);
                r == if quantity > 0 && filled_sum(f) == quantity {
                    Some(cost_sum(f) as u128)
                } else {
                    None
                }
            }),
    {
        if quantity == 0 {
            return None;
        }
        let l = self.depth_ladder(side.opposite());
        let sim = simulate_fills(&l, quantity);
        if sim.total_filled == quantity {
            Some(sim.total_cost)
        } else {
            None
        }
    }

    /// How far a market order of `quantity` on `side` would walk the other
    /// side: best and worst price reached, their distance, levels touched,
    /// and the quantity and cost filled. All zero for a zero quantity or an
    /// empty side.
    pub fn market_impact(&self, quantity: u64, side: Side) -> (r: MarketImpact)
        requires
            self.wf(),
        ensures
            ({
                let l = self.ladder(side.opposite_spec());
                let f = fills(l, quantity as int);
                if quantity == 0 || l.len() == 0 {
                    r == (MarketImpact { best_price: 0, worst_price: 0, slippage: 0, levels_consumed: 0, total_filled: 0, total_cost: 0 })
                } else {
                    &&& r.best_price == l[0].0
                    &&& r.worst_price == (if f.len() > 0 { f.last().0 } else { l[0].0 })
                    &&& r.slippage == (if side == Side::Buy { r.worst_price - r.best_price } else { r.best_price - r.worst_price })
                    &&& r.levels_consumed == f.len()
                    &&& r.total_filled == filled_sum(f)
                    &&& r.total_cost == cost_sum(f)
                }
            }),
    {
        let l = self.depth_ladder(side.opposite());
        if quantity == 0 || l.len() == 0 {
            return MarketImpact { best_price: 0, worst_price: 0, slippage: 0, levels_consumed: 0, total_filled: 0, total_cost: 0 };
        }
        let best = l[0].0;
        let sim = simulate_fills(&l, quantity);
        let worst = if sim.fills.len() > 0 { sim.fills[sim.fills.len() - 1].0 } else { best };
        proof {
            lemma_fills_prices_behind_best(l@, quantity as int, side.opposite_spec());
            if sim.fills@.len() > 0 {
                assert(worst == fills(l@, quantity as int)[sim.fills@.len() - 1].0);
            }
        }
        let slippage = match side {
            Side::Buy => worst - best,
            Side::Sell => best - worst,
        };
        MarketImpact {
            best_price: best,
            worst_price: worst,
            slippage,
            levels_consumed: sim.fills.len(),
            total_filled: sim.total_filled,
            total_cost: sim.total_cost,
        }
    }

    /// Statistics of the best `levels` levels of `side` (all levels when
    /// `levels` is 0).
    pub fn depth_statistics(&self, side: Side, levels: usize) -> (r: DepthStats)
        requires
            self.wf(),
        ensures
            ({
                let l = self.ladder(side);
                let m = if levels == 0 || levels >= l.len() { l.len() as int } else { levels as int };
                &&& r.levels_count == m
                &&& r.total_volume == cap(prefix_sum(l, m))
                &&& r.weighted_price_sum == weighted_sum(l, m)
                &&& m == 0 ==> r.min_level_size == 0 && r.max_level_size == 0
                &&& forall|i: int| 0 <= i < m ==> r.min_level_size <= #[trigger] l[i].1 <= r.max_level_size
                &&& m > 0 ==> (exists|i: int| 0 <= i < m && #[trigger] l[i].1 == r.min_level_size)
                &&& m > 0 ==> (exists|i: int| 0 <= i < m && #[trigger] l[i].1 == r.max_level_size)
            }),
    {
        let l = self.depth_ladder(side);
        let k = if levels == 0 { l.len() } else { levels };
        ladder_statistics(&l, k)
    }

    /// Whether either side holds less than `threshold` in its best `levels`
    /// levels (all levels when `levels` is 0).
    pub fn is_thin_book(&self, threshold: u64, levels: usize) -> (r: bool)
        requires
            self.wf(),
        ensures
            ({
                let lb = self.ladder(Side::Buy);
                let la = self.ladder(Side::Sell);
                let mb = if levels == 0 || levels >= lb.len() { lb.len() as int } else { levels as int };
                let ma = if levels == 0 || levels >= la.len() { la.len() as int } else { levels as int };
                r == (cap(prefix_sum(lb, mb)) < threshold || cap(prefix_sum(la, ma)) < threshold)
            }),
    {
        let b = self.depth_statistics(Side::Buy, levels);
        let a = self.depth_statistics(Side::Sell, levels);
        b.total_volume < threshold || a.total_volume < threshold
    }

    /// The total quantity at each price of each side, best price first:
    /// `(bids, asks)`.
    pub fn get_volume_by_price(&self) -> (r: (Vec<(u64, u64)>, Vec<(u64, u64)>))
        requires
            self.wf(),
        ensures
            r.0@ == self.ladder(Side::Buy),
            r.1@ == self.ladder(Side::Sell),
    {
        (self.depth_ladder(Side::Buy), self.depth_ladder(Side::Sell))
    }

    /// A histogram of the levels of `side` in `bins` equal price bins from
    /// the lowest to the highest price: see [`histogram`]. Empty for no
    /// bins or an empty side.
    pub fn depth_distribution(&self, side: Side, bins: usize) -> (r: Vec<DistributionBin>)
        requires
            self.wf(),
        ensures
            (bins == 0 || self.ladder(side).len() == 0) ==> r@.len() == 0,
            !(bins == 0 || self.ladder(side).len() == 0) ==> {
                let l = self.ladder(side);
                let (lo, hi) = if side == Side::Sell { (l[0].0, l.last().0) } else { (l.last().0, l[0].0) };
                is_histogram(l, lo, hi, bins, r@)
            },
    {
        if bins == 0 {
            return Vec::new();
        }
        let l = self.depth_ladder(side);
        if l.len() == 0 {
            return Vec::new();
        }
        let first = l[0].0;
        let last = l[l.len() - 1].0;
        let (lo, hi) = match side {
            Side::Sell => (first, last),
            Side::Buy => (last, first),
        };
        proof {
            if l@.len() > 1 {
                assert(side == Side::Sell ==> l@[0].0 < l@[l@.len() - 1].0);
                assert(side == Side::Buy ==> l@[0].0 > l@[l@.len() - 1].0);
            }
        }
        histogram(&l, lo, hi, bins)
    }

    /// The levels of `side`, best first, each with its quantity and the
    /// cumulative quantity up to and including it (capped at `u64::MAX`).
    pub fn levels_with_cumulative_depth(&self, side: Side) -> (r: Vec<LevelInfo>)
        requires
            self.wf(),
        ensures
            r@.len() == self.ladder(side).len(),
            forall|i: int| 0 <= i < r@.len() ==> {
                &&& (#[trigger] r@[i]).price == self.ladder(side)[i].0
                &&& r@[i].quantity == self.ladder(side)[i].1
                &&& r@[i].cumulative_depth == cap(prefix_sum(self.ladder(side), i + 1))
            },
    {
        let l = self.depth_ladder(side);
        cumulative_levels(&l, l.len())
    }

    /// The levels of `side`, best first, as long as the cumulative quantity
    /// before the level is below `target_depth`: the levels needed to reach
    /// it.
    pub fn levels_until_depth(&self, target_depth: u64, side: Side) -> (r: Vec<LevelInfo>)
        requires
            self.wf(),
        ensures
            r@.len() <= self.ladder(side).len(),
            forall|i: int| 0 <= i < r@.len() ==> {
                &&& (#[trigger] r@[i]).price == self.ladder(side)[i].0
                &&& r@[i].quantity == self.ladder(side)[i].1
                &&& r@[i].cumulative_depth == cap(prefix_sum(self.ladder(side), i + 1))
                &&& cap(prefix_sum(self.ladder(side), i)) < target_depth
            },
            r@.len() < self.ladder(side).len() ==> cap(prefix_sum(self.ladder(side), r@.len() as int)) >= target_depth,
    {
        let l = self.depth_ladder(side);
        let mut n: usize = 0;
        let mut cum: u64 = 0;
        while n < l.len() && cum < target_depth
            invariant
                n <= l@.len(),
                cum == cap(prefix_sum(l@, n as int)),
                forall|i: int| 0 <= i < n ==> cap(prefix_sum(l@, i)) < target_depth,
            decreases l@.len() - n,
        {
            proof {
                lemma_prefix_sum_nonneg(l@, n as int);
                assert(prefix_sum(l@, n + 1) == prefix_sum(l@, n as int) + l@[n as int].1);
            }
            cum = cum.saturating_add(l[n].1);
            n = n + 1;
        }
        cumulative_levels(&l, n)
    }
}

/// A level as the depth iterators report it.
#[derive(Clone, Copy, Debug, PartialEq, Eq, Structural)]
pub struct LevelInfo {
    pub price: u64,
    pub quantity: u64,
    pub cumulative_depth: u64,
}

/// The first `n` rungs with their cumulative quantities.
fn cumulative_levels(l: &Vec<(u64, u64)>, n: usize) -> (r: Vec<LevelInfo>)
    requires
        n <= l@.len(),
    ensures
        r@.len() == n,
        forall|i: int| 0 <= i < n ==> {
            &&& (#[trigger] r@[i]).price == l@[i].0
            &&& r@[i].quantity == l@[i].1
            &&& r@[i].cumulative_depth == cap(prefix_sum(l@, i + 1))
        },
{
    let mut out: Vec<LevelInfo> = Vec::new();
    let mut cum: u64 = 0;
    let mut i: usize = 0;
    while i < n
        invariant
            n <= l@.len(),
            i <= n,
            out@.len() == i,
            cum == cap(prefix_sum(l@, i as int)),
            forall|j: int| 0 <= j < i ==> {
                &&& (#[trigger] out@[j]).price == l@[j].0
                &&& out@[j].quantity == l@[j].1
                &&& out@[j].cumulative_depth == cap(prefix_sum(l@, j + 1))
            },
        decreases n - i,
    {
        proof {
            lemma_prefix_sum_nonneg(l@, i as int);
            assert(prefix_sum(l@, i + 1) == prefix_sum(l@, i as int) + l@[i as int].1);
        }
        cum = cum.saturating_add(l[i].1);
        out.push(LevelInfo { price: l[i].0, quantity: l[i].1, cumulative_depth: cum });
        i = i + 1;
    }
    out
}

} // verus!
