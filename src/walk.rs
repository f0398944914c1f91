//! How the other side's ladder changes while the matching engine walks it:
//! each step takes exactly the consumed quantity out of the liquidity that
//! the taker's limit accepts.
use vstd::prelude::*;
use crate::book::crosses;
use crate::consistency::{levels_wf, with_level};
use crate::depth::crossing_sum;
use crate::keys::{lemma_ascending_keys, lemma_ascending_keys_after};
use crate::level::{PriceLevel, live_sum, lemma_live_sum_bounds};
use crate::store::{ascending_keys, is_max_key, is_min_key};
use crate::types::{Order, Side, Transaction};

verus! {

/// The keys of a side's levels, best first: ascending for asks, descending
/// for bids.
pub open spec fn best_first_keys(m: Map<u64, PriceLevel>, side: Side) -> Seq<u64> {
    match side {
        Side::Sell => ascending_keys(m),
        Side::Buy => ascending_keys(m).reverse(),
    }
}

/// The quantity of a level: all of it, or at `Some((now, close))` only
/// that of its orders that have not expired.
pub open spec fn level_quantity(l: PriceLevel, at: Option<(u64, Option<u64>)>) -> int {
    match at {
        None => l.total_spec(),
        Some((now, close)) => live_sum(l.orders@, now, close),
    }
}

/// A side's levels as `(price, quantity)`, best first, quantities as
/// [`level_quantity`] counts them.
pub open spec fn ladder_at(m: Map<u64, PriceLevel>, side: Side, at: Option<(u64, Option<u64>)>) -> Seq<(u64, u64)> {
    best_first_keys(m, side).map_values(|k: u64| (k, level_quantity(m[k], at) as u64))
}

/// A side's levels as `(price, total quantity)`, best first.
pub open spec fn ladder_of(m: Map<u64, PriceLevel>, side: Side) -> Seq<(u64, u64)> {
    ladder_at(m, side, None)
}

pub proof fn lemma_crossing_sum_first(l: Seq<(u64, u64)>, side: Side, limit: Option<u64>)
    requires
        l.len() > 0,
    ensures
        crossing_sum(l, side, limit) == (if crosses(side, l[0].0, limit) { l[0].1 as int } else { 0 }) + crossing_sum(
            l.drop_first(),
            side,
            limit,
        ),
    decreases l.len(),
{
    if l.len() == 1 {
        assert(l.drop_first() =~= Seq::<(u64, u64)>::empty());
        assert(l.drop_last() =~= Seq::<(u64, u64)>::empty());
        assert(crossing_sum(Seq::<(u64, u64)>::empty(), side, limit) == 0);
    } else {
        lemma_crossing_sum_first(l.drop_last(), side, limit);
        assert(l.drop_last().drop_first() =~= l.drop_first().drop_last());
        assert(l.drop_first().last() == l.last());
        assert(l.drop_last()[0] == l[0]);
    }
}

pub proof fn lemma_crossing_sum_none(l: Seq<(u64, u64)>, side: Side, limit: Option<u64>)
    requires
        forall|i: int| 0 <= i < l.len() ==> !crosses(side, #[trigger] l[i].0, limit),
    ensures
        crossing_sum(l, side, limit) == 0,
    decreases l.len(),
{
    if l.len() > 0 {
        assert(!crosses(side, l[l.len() - 1].0, limit));
        lemma_crossing_sum_none(l.drop_last(), side, limit);
    }
}

/// Every price of a ladder is a key of the map.
pub proof fn lemma_ladder_prices(m: Map<u64, PriceLevel>, side: Side, at: Option<(u64, Option<u64>)>)
    requires
        m.dom().finite(),
    ensures
        forall|i: int| 0 <= i < ladder_at(m, side, at).len() ==> m.dom().contains(#[trigger] ladder_at(m, side, at)[i].0),
{
    lemma_ascending_keys(m);
    let k = ascending_keys(m);
    assert forall|i: int| 0 <= i < ladder_at(m, side, at).len() implies m.dom().contains(#[trigger] ladder_at(m, side, at)[i].0) by {
        if side == Side::Sell {
            assert(k.contains(k[i]));
        } else {
            assert(k.contains(k[k.len() - 1 - i]));
        }
    }
}

/// One step of the walk: the best level `p` of side `os` becomes `l2`,
/// which holds `consumed` less; the accepted liquidity drops by exactly
/// that much.
pub proof fn lemma_walk_step(
    m: Map<u64, PriceLevel>,
    os: Side,
    p: u64,
    l2: PriceLevel,
    side: Side,
    limit: Option<u64>,
    at: Option<(u64, Option<u64>)>,
)
    requires
        m.dom().finite(),
        levels_wf(m, os),
        side == os.opposite_spec(),
        os == Side::Sell ==> is_min_key(m, p),
        os == Side::Buy ==> is_max_key(m, p),
        crosses(side, p, limit),
        0 <= level_quantity(l2, at) <= level_quantity(m[p], at),
        l2.orders@.len() == 0 ==> level_quantity(l2, at) == 0,
    ensures
        crossing_sum(ladder_at(with_level(m, p, l2), os, at), side, limit) == crossing_sum(ladder_at(m, os, at), side, limit) - (
        level_quantity(m[p], at) - level_quantity(l2, at)),
{
    let k = ascending_keys(m);
    lemma_ascending_keys(m);
    let n = k.len() as int;
    assert(k.contains(p));
    assert(n > 0);
    let l = ladder_at(m, os, at);
    assert(m[p].wf());
    if let Some((now, close)) = at {
        lemma_live_sum_bounds(m[p].orders@, now, close);
    }
    if os == Side::Sell {
        if k[0] != p {
            let j = choose|j: int| 0 <= j < n && k[j] == p;
            assert(k[0] < k[j]);
            assert(m.dom().contains(k[0]));
        }
        assert(k[0] == p);
    } else {
        if k[n - 1] != p {
            let j = choose|j: int| 0 <= j < n && k[j] == p;
            assert(k[j] < k[n - 1]);
            assert(m.dom().contains(k[n - 1]));
        }
        assert(k[n - 1] == p);
        assert(k.reverse()[0] == k[n - 1]);
    }
    assert(l[0] == (p, level_quantity(m[p], at) as u64));
    lemma_crossing_sum_first(l, side, limit);
    let m2 = with_level(m, p, l2);
    let l2d = ladder_at(m2, os, at);
    if l2.orders@.len() == 0 {
        assert(m2.dom() =~= m.dom().remove(p));
        lemma_ascending_keys_after(m, m2);
        assert(l2d =~= l.drop_first()) by {
            if os == Side::Sell {
                assert(ascending_keys(m2) == k.drop_first());
                assert forall|i: int| 0 <= i < l2d.len() implies l2d[i] == l.drop_first()[i] by {
                    assert(k[i + 1] != p) by {
                        assert(k[0] < k[i + 1]);
                    }
                }
            } else {
                assert(ascending_keys(m2) == k.drop_last());
                assert(k.last() == p);
                let kd = k.drop_last();
                assert forall|i: int| 0 <= i < l2d.len() implies l2d[i] == l.drop_first()[i] by {
                    assert(kd.reverse()[i] == kd[kd.len() - 1 - i]);
                    assert(k.reverse()[i + 1] == k[n - 1 - (i + 1)]);
                    assert(k[n - 2 - i] != p) by {
                        assert(k[n - 2 - i] < k[n - 1]);
                    }
                }
            }
        }
    } else {
        assert(m2 == m.insert(p, l2));
        assert(m2.dom() =~= m.dom());
        lemma_ascending_keys_after(m, m2);
        assert(ascending_keys(m2) == k);
        let x = (p, level_quantity(l2, at) as u64);
        assert(l2d =~= l.update(0, x)) by {
            assert forall|i: int| 0 <= i < l2d.len() implies l2d[i] == l.update(0, x)[i] by {
                if i > 0 {
                    if os == Side::Sell {
                        assert(k[0] < k[i]);
                    } else {
                        assert(k.reverse()[i] == k[n - 1 - i]);
                        assert(k[n - 1 - i] < k[n - 1]);
                    }
                } else if os == Side::Buy {
                    assert(k.reverse()[0] == k[n - 1]);
                }
            }
        }
        lemma_crossing_sum_first(l2d, side, limit);
        assert(l2d.drop_first() =~= l.drop_first());
    }
}

/// The transactions of `ts` at price `p`, in order.
pub open spec fn at_price(ts: Seq<Transaction>, p: u64) -> Seq<Transaction>
    decreases ts.len(),
{
    if ts.len() == 0 {
        Seq::empty()
    } else if ts.last().price == p {
        at_price(ts.drop_last(), p).push(ts.last())
    } else {
        at_price(ts.drop_last(), p)
    }
}

pub proof fn lemma_at_price_concat(a: Seq<Transaction>, b: Seq<Transaction>, p: u64)
    ensures
        at_price(a + b, p) == at_price(a, p) + at_price(b, p),
    decreases b.len(),
{
    if b.len() == 0 {
        assert(a + b =~= a);
        assert(at_price(a, p) + Seq::<Transaction>::empty() =~= at_price(a, p));
    } else {
        lemma_at_price_concat(a, b.drop_last(), p);
        assert((a + b).drop_last() =~= a + b.drop_last());
        assert((a + b).last() == b.last());
        if b.last().price == p {
            assert(at_price(a, p) + at_price(b.drop_last(), p).push(b.last()) =~= (at_price(a, p) + at_price(b.drop_last(), p)).push(
                b.last()));
        }
    }
}

/// All transactions at `p`: the filter keeps them all; none: it keeps none.
pub proof fn lemma_at_price_all_or_none(ts: Seq<Transaction>, p: u64)
    ensures
        (forall|k: int| 0 <= k < ts.len() ==> (#[trigger] ts[k]).price == p) ==> at_price(ts, p) == ts,
        (forall|k: int| 0 <= k < ts.len() ==> (#[trigger] ts[k]).price != p) ==> at_price(ts, p).len() == 0,
    decreases ts.len(),
{
    if ts.len() > 0 {
        lemma_at_price_all_or_none(ts.drop_last(), p);
        if forall|k: int| 0 <= k < ts.len() ==> (#[trigger] ts[k]).price == p {
            assert forall|k: int| 0 <= k < ts.drop_last().len() implies (#[trigger] ts.drop_last()[k]).price == p by {
                assert(ts.drop_last()[k] == ts[k]);
            }
            assert(ts.last() == ts[ts.len() - 1]);
            assert(ts.drop_last().push(ts.last()) =~= ts);
        }
        if forall|k: int| 0 <= k < ts.len() ==> (#[trigger] ts[k]).price != p {
            assert forall|k: int| 0 <= k < ts.drop_last().len() implies (#[trigger] ts.drop_last()[k]).price != p by {
                assert(ts.drop_last()[k] == ts[k]);
            }
            assert(ts.last() == ts[ts.len() - 1]);
        }
    }
}

/// The orders left at `p` on a side: those of its level, or none.
pub open spec fn orders_at(m: Map<u64, PriceLevel>, p: u64) -> Seq<Order> {
    if m.dom().contains(p) {
        m[p].orders@
    } else {
        Seq::empty()
    }
}

} // verus!
