//! Depth ladders: the levels of one side, best price first, as
//! `(price, quantity)` pairs, and the analytics computed from them.
use vstd::prelude::*;
use crate::book::crosses;
use crate::types::Side;

verus! {

/// Sum of the quantities of the rungs whose price a taker on `side` with
/// `limit` accepts.
pub open spec fn crossing_sum(l: Seq<(u64, u64)>, side: Side, limit: Option<u64>) -> int
    decreases l.len(),
{
    if l.len() == 0 {
        0
    } else {
        crossing_sum(l.drop_last(), side, limit) + if crosses(side, l.last().0, limit) {
            l.last().1 as int
        } else {
            0
        }
    }
}

pub proof fn lemma_crossing_sum_nonneg(l: Seq<(u64, u64)>, side: Side, limit: Option<u64>)
    ensures
        crossing_sum(l, side, limit) >= 0,
    decreases l.len(),
{
    if l.len() > 0 {
        lemma_crossing_sum_nonneg(l.drop_last(), side, limit);
    }
}

/// Sum of the quantities of the first `n` rungs.
pub open spec fn prefix_sum(l: Seq<(u64, u64)>, n: int) -> int
    decreases n,
{
    if n <= 0 || l.len() == 0 {
        0
    } else if n > l.len() {
        prefix_sum(l, l.len() as int)
    } else {
        prefix_sum(l, n - 1) + l[n - 1].1
    }
}

pub proof fn lemma_prefix_sum_nonneg(l: Seq<(u64, u64)>, n: int)
    ensures
        prefix_sum(l, n) >= 0,
    decreases n,
{
    if n > 0 && l.len() > 0 {
        if n > l.len() {
            lemma_prefix_sum_nonneg(l, l.len() as int);
        } else {
            lemma_prefix_sum_nonneg(l, n - 1);
        }
    }
}

/// The saturating form of a sum: capped at `u64::MAX`.
pub open spec fn cap(x: int) -> u64 {
    if x > u64::MAX {
        u64::MAX
    } else {
        x as u64
    }
}

/// Sum, capped at `u64::MAX`, of the quantities of the rungs that a taker
/// on `side` with `limit` accepts.
pub fn crossing_liquidity(l: &Vec<(u64, u64)>, side: Side, limit: Option<u64>) -> (r: u64)
    ensures
        r == cap(crossing_sum(l@, side, limit)),
{
    let mut total: u64 = 0;
    let mut i: usize = 0;
    proof {
        assert(l@.subrange(0, 0) =~= Seq::<(u64, u64)>::empty());
    }
    while i < l.len()
        invariant
            i <= l@.len(),
            total == cap(crossing_sum(l@.subrange(0, i as int), side, limit)),
            crossing_sum(l@.subrange(0, i as int), side, limit) >= 0,
        decreases l@.len() - i,
    {
        let (price, qty) = l[i];
        proof {
            let a = l@.subrange(0, i as int);
            let b = l@.subrange(0, i + 1);
            assert(b.drop_last() =~= a);
            assert(b.last() == l@[i as int]);
        }
        if crate::book::crosses_limit(side, price, limit) {
            total = total.saturating_add(qty);
        }
        i = i + 1;
    }
    proof {
        assert(l@.subrange(0, l@.len() as int) =~= l@);
    }
    total
}


/// Walking the ladder from the best rung with `acc` already accumulated:
/// the first rung at which the cumulative quantity reaches `target`, with
/// that cumulative quantity.
pub open spec fn reach(l: Seq<(u64, u64)>, target: int, acc: int) -> Option<(u64, int)>
    decreases l.len(),
{
    if l.len() == 0 {
        None
    } else if acc + l[0].1 >= target {
        Some((l[0].0, acc + l[0].1))
    } else {
        reach(l.drop_first(), target, acc + l[0].1)
    }
}

/// The first rung at which the cumulative quantity reaches `target`: its
/// price and the cumulative quantity there (capped at `u64::MAX`).
pub fn depth_to_target(l: &Vec<(u64, u64)>, target: u64) -> (r: Option<(u64, u64)>)
    ensures
        match reach(l@, target as int, 0) {
            None => r is None,
            Some((p, c)) => r == Some((p, cap(c))),
        },
{
    let mut cum: u64 = 0;
    let mut i: usize = 0;
    let n = l.len();
    proof {
        assert(l@.subrange(0, n as int) =~= l@);
    }
    while i < n
        invariant
            n == l@.len(),
            i <= n,
            cum < target || i == 0,
            cum as int >= 0,
            reach(l@, target as int, 0) == reach(l@.subrange(i as int, n as int), target as int, cum as int),
        decreases n - i,
    {
        let (price, qty) = l[i];
        proof {
            let t = l@.subrange(i as int, n as int);
            assert(t[0] == l@[i as int]);
            assert(t.drop_first() =~= l@.subrange(i + 1, n as int));
        }
        if cum as u128 + qty as u128 >= target as u128 {
            return Some((price, cum.saturating_add(qty)));
        }
        cum = cum + qty;
        i = i + 1;
    }
    None
}

/// `n` rungs' quantities summed, capped at `u64::MAX`.
pub fn sum_first(l: &Vec<(u64, u64)>, n: usize) -> (r: u64)
    ensures
        r == cap(prefix_sum(l@, n as int)),
{
    let m = if n < l.len() { n } else { l.len() };
    let mut total: u64 = 0;
    let mut i: usize = 0;
    while i < m
        invariant
            m <= l@.len(),
            m == n || m == l@.len(),
            i <= m,
            total == cap(prefix_sum(l@, i as int)),
        decreases m - i,
    {
        proof {
            lemma_prefix_sum_nonneg(l@, i as int);
            assert(prefix_sum(l@, i + 1) == prefix_sum(l@, i as int) + l@[i as int].1);
        }
        total = total.saturating_add(l[i].1);
        i = i + 1;
    }
    proof {
        if m < n {
            assert(prefix_sum(l@, n as int) == prefix_sum(l@, l@.len() as int));
        }
    }
    total
}

/// Sum of the quantities of the rungs priced in `[lo, hi]`.
pub open spec fn range_sum(l: Seq<(u64, u64)>, lo: u64, hi: u64) -> int
    decreases l.len(),
{
    if l.len() == 0 {
        0
    } else {
        range_sum(l.drop_last(), lo, hi) + if lo <= l.last().0 && l.last().0 <= hi {
            l.last().1 as int
        } else {
            0
        }
    }
}

/// Sum, capped at `u64::MAX`, of the quantities of the rungs priced in
/// `[lo, hi]`.
pub fn sum_in_range(l: &Vec<(u64, u64)>, lo: u64, hi: u64) -> (r: u64)
    ensures
        r == cap(range_sum(l@, lo, hi)),
{
    let mut total: u64 = 0;
    let mut i: usize = 0;
    proof {
        assert(l@.subrange(0, 0) =~= Seq::<(u64, u64)>::empty());
    }
    while i < l.len()
        invariant
            i <= l@.len(),
            total == cap(range_sum(l@.subrange(0, i as int), lo, hi)),
            range_sum(l@.subrange(0, i as int), lo, hi) >= 0,
        decreases l@.len() - i,
    {
        let (price, qty) = l[i];
        proof {
            let a = l@.subrange(0, i as int);
            let b = l@.subrange(0, i + 1);
            assert(b.drop_last() =~= a);
            assert(b.last() == l@[i as int]);
        }
        if lo <= price && price <= hi {
            total = total.saturating_add(qty);
        }
        i = i + 1;
    }
    proof {
        assert(l@.subrange(0, l@.len() as int) =~= l@);
    }
    total
}

/// The fills of a market order of `q` walking the ladder best first:
/// `(price, quantity)` per rung it reaches.
pub open spec fn fills(l: Seq<(u64, u64)>, q: int) -> Seq<(u64, u64)>
    decreases l.len(),
{
    if q <= 0 || l.len() == 0 {
        Seq::empty()
    } else {
        let f = if q < l[0].1 { q } else { l[0].1 as int };
        if f == 0 {
            fills(l.drop_first(), q)
        } else {
            seq![(l[0].0, f as u64)] + fills(l.drop_first(), q - f)
        }
    }
}

/// Total quantity of a list of fills.
pub open spec fn filled_sum(f: Seq<(u64, u64)>) -> int
    decreases f.len(),
{
    if f.len() == 0 {
        0
    } else {
        filled_sum(f.drop_last()) + f.last().1
    }
}

/// Total cost (price times quantity) of a list of fills.
pub open spec fn cost_sum(f: Seq<(u64, u64)>) -> int
    decreases f.len(),
{
    if f.len() == 0 {
        0
    } else {
        cost_sum(f.drop_last()) + f.last().0 * f.last().1
    }
}

pub proof fn lemma_fill_sums_push(f: Seq<(u64, u64)>, x: (u64, u64))
    ensures
        filled_sum(f.push(x)) == filled_sum(f) + x.1,
        cost_sum(f.push(x)) == cost_sum(f) + x.0 * x.1,
{
    assert(f.push(x).drop_last() =~= f);
}

/// Prices strictly ascending (asks, best first) or strictly descending
/// (bids, best first).
pub open spec fn ladder_monotone(l: Seq<(u64, u64)>, side: Side) -> bool {
    &&& side == Side::Sell ==> forall|i: int, j: int| 0 <= i < j < l.len() ==> #[trigger] l[i].0 < #[trigger] l[j].0
    &&& side == Side::Buy ==> forall|i: int, j: int| 0 <= i < j < l.len() ==> #[trigger] l[i].0 > #[trigger] l[j].0
}

/// Every fill is at the price of some rung.
pub proof fn lemma_fills_at_rungs(l: Seq<(u64, u64)>, q: int)
    ensures
        forall|k: int| 0 <= k < fills(l, q).len() ==> exists|i: int| 0 <= i < l.len() && #[trigger] fills(l, q)[k].0 == l[i].0,
    decreases l.len(),
{
    if q <= 0 || l.len() == 0 {
    } else {
        let f = if q < l[0].1 { q } else { l[0].1 as int };
        let t = l.drop_first();
        if f == 0 {
            lemma_fills_at_rungs(t, q);
            assert forall|k: int| 0 <= k < fills(l, q).len() implies exists|i: int| 0 <= i < l.len() && #[trigger] fills(l, q)[k].0 == l[i].0 by {
                let i = choose|i: int| 0 <= i < t.len() && fills(t, q)[k].0 == t[i].0;
                assert(l[i + 1] == t[i]);
            }
        } else {
            lemma_fills_at_rungs(t, q - f);
            let rest = fills(t, q - f);
            assert(fills(l, q) == seq![(l[0].0, f as u64)] + rest);
            assert forall|k: int| 0 <= k < fills(l, q).len() implies exists|i: int| 0 <= i < l.len() && #[trigger] fills(l, q)[k].0 == l[i].0 by {
                if k == 0 {
                    assert(fills(l, q)[0].0 == l[0].0);
                } else {
                    assert(fills(l, q)[k] == rest[k - 1]);
                    let i = choose|i: int| 0 <= i < t.len() && rest[k - 1].0 == t[i].0;
                    assert(l[i + 1] == t[i]);
                }
            }
        }
    }
}

/// On a monotone ladder no fill is at a price better than the best rung.
pub proof fn lemma_fills_prices_behind_best(l: Seq<(u64, u64)>, q: int, side: Side)
    requires
        ladder_monotone(l, side),
        l.len() > 0,
    ensures
        forall|k: int|
            0 <= k < fills(l, q).len() ==> (side == Side::Sell ==> #[trigger] fills(l, q)[k].0 >= l[0].0) && (side
                == Side::Buy ==> fills(l, q)[k].0 <= l[0].0),
{
    lemma_fills_at_rungs(l, q);
    assert forall|k: int| 0 <= k < fills(l, q).len() implies (side == Side::Sell ==> #[trigger] fills(l, q)[k].0 >= l[0].0) && (side
        == Side::Buy ==> fills(l, q)[k].0 <= l[0].0) by {
        let i = choose|i: int| 0 <= i < l.len() && fills(l, q)[k].0 == l[i].0;
        if i > 0 {
            assert(side == Side::Sell ==> l[0].0 < l[i].0);
            assert(side == Side::Buy ==> l[0].0 > l[i].0);
        }
    }
}

/// A market order walk: the fills, their total quantity and cost, and what
/// is left unfilled.
#[derive(Clone, Debug)]
pub struct OrderSimulation {
    pub fills: Vec<(u64, u64)>,
    pub total_filled: u64,
    pub total_cost: u128,
    pub remaining_quantity: u64,
}

/// Walks the ladder best first with a market order of `q`.
pub fn simulate_fills(l: &Vec<(u64, u64)>, q: u64) -> (r: OrderSimulation)
    ensures
        r.fills@ == fills(l@, q as int),
        r.total_filled == filled_sum(r.fills@),
        r.total_cost == cost_sum(r.fills@),
        r.total_filled + r.remaining_quantity == q,
{
    let mut out: Vec<(u64, u64)> = Vec::new();
    let mut remaining = q;
    let mut filled: u64 = 0;
    let mut cost: u128 = 0;
    let mut i: usize = 0;
    let n = l.len();
    proof {
        assert(l@.subrange(0, n as int) =~= l@);
        assert(out@ + fills(l@, q as int) =~= fills(l@, q as int));
    }
    while i < n && remaining > 0
        invariant
            n == l@.len(),
            i <= n,
            filled + remaining == q,
            filled == filled_sum(out@),
            cost == cost_sum(out@),
            cost <= 0xffff_ffff_ffff_ffff * filled,
            out@ + fills(l@.subrange(i as int, n as int), remaining as int) == fills(l@, q as int),
        decreases n - i,
    {
        let (price, qty) = l[i];
        let f = if remaining < qty { remaining } else { qty };
        let ghost t = l@.subrange(i as int, n as int);
        proof {
            assert(t[0] == l@[i as int]);
            assert(t.drop_first() =~= l@.subrange(i + 1, n as int));
        }
        if f > 0 {
            proof {
                lemma_fill_sums_push(out@, (price, f));
                assert((price as int) * (f as int) <= 0xffff_ffff_ffff_ffff * (f as int)) by (nonlinear_arith)
                    requires price <= 0xffff_ffff_ffff_ffff, f >= 0;
                assert(0xffff_ffff_ffff_ffff * (filled as int) + 0xffff_ffff_ffff_ffff * (f as int) == 0xffff_ffff_ffff_ffff * (filled + f)) by (nonlinear_arith);
                assert(0xffff_ffff_ffff_ffff * ((filled + f) as int) <= 0xffff_ffff_ffff_ffff * 0xffff_ffff_ffff_ffffint) by (nonlinear_arith)
                    requires filled + f <= 0xffff_ffff_ffff_ffff;
                assert(out@.push((price, f)) + fills(t.drop_first(), remaining - f) =~= out@ + (seq![(price, f)] + fills(t.drop_first(), remaining - f)));
            }
            out.push((price, f));
            cost = cost + (price as u128) * (f as u128);
            filled = filled + f;
            remaining = remaining - f;
        }
        i = i + 1;
    }
    proof {
        if i < n {
            assert(remaining == 0);
        } else {
            assert(l@.subrange(i as int, n as int) =~= Seq::<(u64, u64)>::empty());
        }
        assert(out@ + Seq::<(u64, u64)>::empty() =~= out@);
    }
    OrderSimulation { fills: out, total_filled: filled, total_cost: cost, remaining_quantity: remaining }
}

/// What a market order of some quantity would do to prices: the best and
/// worst price it reaches, how far apart they are, how many levels it
/// touches, and the quantity and cost it fills. The average price is
/// `total_cost / total_filled`.
#[derive(Clone, Copy, Debug, PartialEq, Eq, Structural)]
pub struct MarketImpact {
    pub best_price: u64,
    pub worst_price: u64,
    pub slippage: u64,
    pub levels_consumed: usize,
    pub total_filled: u64,
    pub total_cost: u128,
}

/// Statistics of the first levels of one side.
#[derive(Clone, Copy, Debug, PartialEq, Eq, Structural)]
pub struct DepthStats {
    pub total_volume: u64,
    pub levels_count: usize,
    /// Sum of price times quantity, each product and the sum capped at
    /// `u64::MAX`.
    pub weighted_price_sum: u64,
    pub min_level_size: u64,
    pub max_level_size: u64,
}

/// Sum of price times quantity over the first `k` rungs, each product and
/// each partial sum capped at `u64::MAX`.
pub open spec fn weighted_sum(l: Seq<(u64, u64)>, k: int) -> u64
    decreases k,
{
    if k <= 0 || k > l.len() {
        0
    } else {
        cap(weighted_sum(l, k - 1) + cap(l[k - 1].0 * l[k - 1].1))
    }
}

/// Volume, count, capped weighted price sum, and smallest and largest level
/// of the first `k` rungs (`k` capped at the ladder's length).
pub fn ladder_statistics(l: &Vec<(u64, u64)>, k: usize) -> (r: DepthStats)
    ensures
        ({
            let m = if k < l@.len() { k as int } else { l@.len() as int };
            &&& r.levels_count == m
            &&& r.total_volume == cap(prefix_sum(l@, m))
            &&& r.weighted_price_sum == weighted_sum(l@, m)
            &&& forall|i: int| 0 <= i < m ==> r.min_level_size <= #[trigger] l@[i].1 <= r.max_level_size
            &&& m > 0 ==> (exists|i: int| 0 <= i < m && #[trigger] l@[i].1 == r.min_level_size)
            &&& m > 0 ==> (exists|i: int| 0 <= i < m && #[trigger] l@[i].1 == r.max_level_size)
            &&& m == 0 ==> r.min_level_size == 0 && r.max_level_size == 0
        }),
{
    let m = if k < l.len() { k } else { l.len() };
    let mut total: u64 = 0;
    let mut weighted: u64 = 0;
    let mut lo: u64 = u64::MAX;
    let mut hi: u64 = 0;
    let mut i: usize = 0;
    while i < m
        invariant
            m <= l@.len(),
            m == (if k < l@.len() { k as int } else { l@.len() as int }),
            i <= m,
            total == cap(prefix_sum(l@, i as int)),
            weighted == weighted_sum(l@, i as int),
            forall|j: int| 0 <= j < i ==> lo <= #[trigger] l@[j].1 <= hi,
            i > 0 ==> (exists|j: int| 0 <= j < i && #[trigger] l@[j].1 == lo),
            i > 0 ==> (exists|j: int| 0 <= j < i && #[trigger] l@[j].1 == hi),
        decreases m - i,
    {
        let (price, qty) = l[i];
        proof {
            lemma_prefix_sum_nonneg(l@, i as int);
            assert(prefix_sum(l@, i + 1) == prefix_sum(l@, i as int) + l@[i as int].1);
        }
        total = total.saturating_add(qty);
        proof {
            assert(0 <= (price as int) * (qty as int) <= 0xffff_ffff_ffff_ffff * 0xffff_ffff_ffff_ffffint) by (nonlinear_arith)
                requires price <= 0xffff_ffff_ffff_ffff, qty <= 0xffff_ffff_ffff_ffff;
        }
        let product = (price as u128) * (qty as u128);
        let capped: u64 = if product > u64::MAX as u128 { u64::MAX } else { product as u64 };
        weighted = weighted.saturating_add(capped);
        if qty < lo || i == 0 {
            lo = qty;
        }
        if qty > hi || i == 0 {
            hi = qty;
        }
        i = i + 1;
    }
    if m == 0 {
        lo = 0;
        hi = 0;
    }
    DepthStats { total_volume: total, levels_count: m, weighted_price_sum: weighted, min_level_size: lo, max_level_size: hi }
}


/// One bin of a depth histogram: the price range `[min_price, max_price)`,
/// and the quantity and number of levels in it.
#[derive(Clone, Copy, Debug, PartialEq, Eq, Structural)]
pub struct DistributionBin {
    pub min_price: u64,
    pub max_price: u64,
    pub volume: u64,
    pub level_count: usize,
}

/// The bin of a level at price `p`, for `bins` bins of `width` from `lo`,
/// the last bin taking everything from `hi` up.
pub open spec fn bin_of(p: u64, lo: u64, hi: u64, width: u64, bins: usize) -> int {
    if p >= hi {
        bins - 1
    } else {
        let k = (p - lo) / (width as int);
        if k < bins - 1 { k } else { bins - 1 }
    }
}

/// Quantity of the rungs that fall in bin `b`.
pub open spec fn bin_volume(l: Seq<(u64, u64)>, lo: u64, hi: u64, width: u64, bins: usize, b: int) -> int
    decreases l.len(),
{
    if l.len() == 0 {
        0
    } else {
        bin_volume(l.drop_last(), lo, hi, width, bins, b) + if bin_of(l.last().0, lo, hi, width, bins) == b {
            l.last().1 as int
        } else {
            0
        }
    }
}

/// Number of rungs that fall in bin `b`.
pub open spec fn bin_count(l: Seq<(u64, u64)>, lo: u64, hi: u64, width: u64, bins: usize, b: int) -> int
    decreases l.len(),
{
    if l.len() == 0 {
        0
    } else {
        bin_count(l.drop_last(), lo, hi, width, bins, b) + if bin_of(l.last().0, lo, hi, width, bins) == b {
            1int
        } else {
            0
        }
    }
}

proof fn lemma_bin_count_bounded(l: Seq<(u64, u64)>, lo: u64, hi: u64, width: u64, bins: usize, b: int)
    ensures
        0 <= bin_count(l, lo, hi, width, bins, b) <= l.len(),
        bin_volume(l, lo, hi, width, bins, b) >= 0,
    decreases l.len(),
{
    if l.len() > 0 {
        lemma_bin_count_bounded(l.drop_last(), lo, hi, width, bins, b);
    }
}

/// `r` is the histogram of `l` in `bins` bins over `lo..=hi`: see
/// [`histogram`].
pub open spec fn is_histogram(l: Seq<(u64, u64)>, lo: u64, hi: u64, bins: usize, r: Seq<DistributionBin>) -> bool {
    let range = hi - lo;
    let width: u64 = if range == 0 { 1 } else { ((range + bins - 1) / (bins as int)) as u64 };
    &&& r.len() == bins
    &&& forall|b: int|
        0 <= b < bins ==> {
            &&& (#[trigger] r[b]).min_price == cap(lo + b * width)
            &&& r[b].max_price == if b == bins - 1 { cap(hi + 1) } else { cap(cap(lo + b * width) + width) }
            &&& r[b].volume == cap(bin_volume(l, lo, hi, width, bins, b))
            &&& r[b].level_count == bin_count(l, lo, hi, width, bins, b)
        }
}

/// A histogram of `bins` bins over the prices `lo..=hi` of the ladder:
/// bins of `width = ceil((hi - lo) / bins)` (1 when `hi == lo`) starting at
/// `lo`, the last one closing at `hi + 1`; bounds are capped at `u64::MAX`.
pub fn histogram(l: &Vec<(u64, u64)>, lo: u64, hi: u64, bins: usize) -> (r: Vec<DistributionBin>)
    requires
        bins > 0,
        lo <= hi,
    ensures
        is_histogram(l@, lo, hi, bins, r@),
{
    let range = hi - lo;
    let width: u64 = if range == 0 {
        1
    } else {
        let b = bins as u64;
        proof {
            assert(range as int + bins - 1 >= 1);
        }
        let q = range / b;
        if range % b == 0 {
            proof {
                assert(q >= 1) by (nonlinear_arith)
                    requires range >= 1, b >= 1, range % b == 0, q == range / b;
            }
            q
        } else {
            proof {
                assert(q < range) by (nonlinear_arith)
                    requires range >= 1, b >= 1, range % b != 0, q == range / b;
            }
            q + 1
        }
    };
    proof {
        if range != 0 {
            let bb = bins as int;
            let rr = range as int;
            let ww = width as int;
            assert((rr + bb - 1) / bb == ww) by (nonlinear_arith)
                requires
                    bb >= 1,
                    rr >= 1,
                    ww == (if rr % bb == 0 { rr / bb } else { rr / bb + 1 }),
            ;
        }
        assert(width >= 1);
    }
    let mut out: Vec<DistributionBin> = Vec::new();
    let mut i: usize = 0;
    while i < bins
        invariant
            width >= 1,
            bins > 0,
            i <= bins,
            out@.len() == i,
            forall|b: int|
                0 <= b < i ==> {
                    &&& (#[trigger] out@[b]).min_price == cap(lo + b * width)
                    &&& out@[b].max_price == if b == bins - 1 { cap(hi + 1) } else { cap(cap(lo + b * width) + width) }
                    &&& out@[b].volume == 0
                    &&& out@[b].level_count == 0
                },
        decreases bins - i,
    {
        proof {
            assert((i as int) * (width as int) <= 0xffff_ffff_ffff_ffff * 0xffff_ffff_ffff_ffffint) by (nonlinear_arith)
                requires i <= 0xffff_ffff_ffff_ffff, width <= 0xffff_ffff_ffff_ffff;
        }
        let offset: u64 = if (i as u128) * (width as u128) > u64::MAX as u128 { u64::MAX } else { (i as u64) * width };
        let bin_min = lo.saturating_add(offset);
        proof {
            assert(i as int * width as int >= 0) by (nonlinear_arith)
                requires i >= 0, width >= 1;
            assert(cap(lo + i * width) == bin_min);
        }
        let bin_max = if i == bins - 1 { hi.saturating_add(1) } else { bin_min.saturating_add(width) };
        out.push(DistributionBin { min_price: bin_min, max_price: bin_max, volume: 0, level_count: 0 });
        i = i + 1;
    }
    let mut k: usize = 0;
    proof {
        assert(l@.subrange(0, 0) =~= Seq::<(u64, u64)>::empty());
    }
    while k < l.len()
        invariant
            width >= 1,
            bins > 0,
            lo <= hi,
            out@.len() == bins,
            k <= l@.len(),
            forall|b: int|
                0 <= b < bins ==> {
                    &&& (#[trigger] out@[b]).min_price == cap(lo + b * width)
                    &&& out@[b].max_price == if b == bins - 1 { cap(hi + 1) } else { cap(cap(lo + b * width) + width) }
                    &&& out@[b].volume == cap(bin_volume(l@.subrange(0, k as int), lo, hi, width, bins, b))
                    &&& out@[b].level_count == bin_count(l@.subrange(0, k as int), lo, hi, width, bins, b)
                },
        decreases l@.len() - k,
    {
        let (price, qty) = l[k];
        let idx: usize = if price >= hi {
            bins - 1
        } else if price < lo {
            0
        } else {
            let q = (price - lo) / width;
            if q < (bins - 1) as u64 { q as usize } else { bins - 1 }
        };
        let ghost prev = out@;
        let ghost a = l@.subrange(0, k as int);
        let ghost c = l@.subrange(0, k + 1);
        proof {
            assert(c.drop_last() =~= a);
            assert(c.last() == (price, qty));
            lemma_bin_count_bounded(a, lo, hi, width, bins, idx as int);
        }
        if price < lo && price < hi {
            // below the first bin: outside every bin
            k = k + 1;
            proof {
                assert((price - lo) / (width as int) < 0) by (nonlinear_arith)
                    requires price < lo, width >= 1;
            }
        } else {
            let mut bin = out[idx];
            bin.volume = bin.volume.saturating_add(qty);
            bin.level_count = bin.level_count + 1;
            out.set(idx, bin);
            k = k + 1;
        }
        proof {
            assert forall|b: int| 0 <= b < bins implies {
                &&& (#[trigger] out@[b]).min_price == cap(lo + b * width)
                &&& out@[b].max_price == if b == bins - 1 { cap(hi + 1) } else { cap(cap(lo + b * width) + width) }
                &&& out@[b].volume == cap(bin_volume(c, lo, hi, width, bins, b))
                &&& out@[b].level_count == bin_count(c, lo, hi, width, bins, b)
            } by {
                lemma_bin_count_bounded(a, lo, hi, width, bins, b);
                if price >= lo || price >= hi {
                    assert(bin_of(price, lo, hi, width, bins) == idx as int);
                }
            }
        }
    }
    proof {
        assert(l@.subrange(0, l@.len() as int) =~= l@);
    }
    out
}

} // verus!
