//! The invariant that ties the two sides of the book to the order-id
//! location index, and the lemmas that carry it across a change of one level.
use vstd::prelude::*;
use crate::level::{PriceLevel, id_set};
use crate::types::{Order, Side};

verus! {

/// The levels of side `s`.
pub open spec fn pick(bids: Map<u64, PriceLevel>, asks: Map<u64, PriceLevel>, s: Side) -> Map<u64, PriceLevel> {
    match s {
        Side::Buy => bids,
        Side::Sell => asks,
    }
}

/// Every level is well formed, stored under its own price and side, and
/// holds at least one order (empty levels do not linger).
pub open spec fn levels_wf(m: Map<u64, PriceLevel>, side: Side) -> bool {
    forall|p: u64|
        #[trigger] m.dom().contains(p) ==> {
            &&& m[p].wf()
            &&& m[p].price == p
            &&& m[p].side == side
            &&& m[p].orders@.len() > 0
        }
}

/// Every order resting on side `side` is in the index, at its level.
pub open spec fn indexed(m: Map<u64, PriceLevel>, locs: Map<u128, (u64, Side)>, side: Side) -> bool {
    forall|p: u64, i: int|
        m.dom().contains(p) && 0 <= i < m[p].orders@.len() ==> {
            &&& locs.dom().contains(#[trigger] m[p].orders@[i].id)
            &&& locs[m[p].orders@[i].id] == (p, side)
        }
}

/// Every id in the index resolves to a level that holds an order with it.
pub open spec fn resolves(bids: Map<u64, PriceLevel>, asks: Map<u64, PriceLevel>, locs: Map<u128, (u64, Side)>) -> bool {
    forall|id: u128|
        #[trigger] locs.dom().contains(id) ==> {
            &&& pick(bids, asks, locs[id].1).dom().contains(locs[id].0)
            &&& id_set(pick(bids, asks, locs[id].1)[locs[id].0].orders@).contains(id)
        }
}

/// Every bid price is below every ask price.
pub open spec fn uncrossed(bids: Map<u64, PriceLevel>, asks: Map<u64, PriceLevel>) -> bool {
    forall|b: u64, a: u64| #[trigger] bids.dom().contains(b) && #[trigger] asks.dom().contains(a) ==> b < a
}

/// The whole invariant of a book.
pub open spec fn book_inv(bids: Map<u64, PriceLevel>, asks: Map<u64, PriceLevel>, locs: Map<u128, (u64, Side)>) -> bool {
    &&& levels_wf(bids, Side::Buy)
    &&& levels_wf(asks, Side::Sell)
    &&& indexed(bids, locs, Side::Buy)
    &&& indexed(asks, locs, Side::Sell)
    &&& resolves(bids, asks, locs)
    &&& uncrossed(bids, asks)
    &&& bids.dom().finite()
    &&& asks.dom().finite()
}

/// The side map after level `p` became `l`: kept if it still holds orders,
/// dropped otherwise.
pub open spec fn with_level(m: Map<u64, PriceLevel>, p: u64, l: PriceLevel) -> Map<u64, PriceLevel> {
    if l.orders@.len() > 0 {
        m.insert(p, l)
    } else {
        m.remove(p)
    }
}

/// The index after the ids of `gone` left it.
pub open spec fn without_ids(locs: Map<u128, (u64, Side)>, gone: Seq<u128>) -> Map<u128, (u64, Side)> {
    locs.restrict(locs.dom().filter(|id: u128| !gone.contains(id)))
}

pub proof fn lemma_without_ids_concat(locs: Map<u128, (u64, Side)>, a: Seq<u128>, b: Seq<u128>)
    ensures
        without_ids(without_ids(locs, a), b) == without_ids(locs, a + b),
        forall|id: u128| #[trigger] (a + b).contains(id) <==> (a.contains(id) || b.contains(id)),
{
    assert forall|id: u128| #[trigger] (a + b).contains(id) <==> (a.contains(id) || b.contains(id)) by {
        if (a + b).contains(id) {
            let k = choose|k: int| 0 <= k < (a + b).len() && (a + b)[k] == id;
            if k < a.len() {
                assert(a[k] == id);
            } else {
                assert(b[k - a.len()] == id);
            }
        }
        if a.contains(id) {
            let k = choose|k: int| 0 <= k < a.len() && a[k] == id;
            assert((a + b)[k] == id);
        }
        if b.contains(id) {
            let k = choose|k: int| 0 <= k < b.len() && b[k] == id;
            assert((a + b)[k + a.len()] == id);
        }
    }
    assert(without_ids(without_ids(locs, a), b) =~= without_ids(locs, a + b));
}

pub proof fn lemma_order_in_id_set(s: Seq<Order>, i: int)
    requires
        0 <= i < s.len(),
    ensures
        id_set(s).contains(s[i].id),
{
}

/// Replacing one level of side `os` by a level that lost the orders whose
/// ids are in `gone` (and kept or changed the others), while those ids leave
/// the index, keeps the invariant.
pub proof fn lemma_replace_level(
    bids: Map<u64, PriceLevel>,
    asks: Map<u64, PriceLevel>,
    locs: Map<u128, (u64, Side)>,
    os: Side,
    p: u64,
    l: PriceLevel,
    gone: Seq<u128>,
)
    requires
        book_inv(bids, asks, locs),
        pick(bids, asks, os).dom().contains(p),
        l.wf(),
        l.price == p,
        l.side == os,
        forall|id: u128|
            #![trigger id_set(pick(bids, asks, os)[p].orders@).contains(id)]
            #![trigger id_set(l.orders@).contains(id)]
            id_set(pick(bids, asks, os)[p].orders@).contains(id) <==> (id_set(l.orders@).contains(id) || gone.contains(id)),
        forall|id: u128| #[trigger] gone.contains(id) ==> !id_set(l.orders@).contains(id),
    ensures
        ({
            let m2 = with_level(pick(bids, asks, os), p, l);
            let locs2 = without_ids(locs, gone);
            match os {
                Side::Buy => book_inv(m2, asks, locs2) && m2.dom().subset_of(bids.dom()),
                Side::Sell => book_inv(bids, m2, locs2) && m2.dom().subset_of(asks.dom()),
            }
        }),
{
    let m = pick(bids, asks, os);
    let o = pick(bids, asks, os.opposite_spec());
    let m2 = with_level(m, p, l);
    let locs2 = without_ids(locs, gone);
    let old_l = m[p];
    let (b2, a2) = match os {
        Side::Buy => (m2, asks),
        Side::Sell => (bids, m2),
    };
    assert(pick(b2, a2, os) == m2);
    assert(pick(b2, a2, os.opposite_spec()) == o);
    assert forall|id: u128| #[trigger] locs2.dom().contains(id) <==> (locs.dom().contains(id) && !gone.contains(id)) by {}
    assert forall|id: u128| #[trigger] locs2.dom().contains(id) implies locs2[id] == locs[id] by {}
    // an id that leaves sits at (p, os)
    assert forall|id: u128| #[trigger] gone.contains(id) && locs.dom().contains(id) implies locs[id] == (p, os) by {
        {
            assert(id_set(old_l.orders@).contains(id));
            let k = choose|k: int| 0 <= k < old_l.orders@.len() && old_l.orders@[k].id == id;
            assert(m[p].orders@[k].id == id);
        }
    }
    assert(m2.dom().subset_of(m.dom()));
    assert(levels_wf(m2, os)) by {
        assert forall|q: u64| #[trigger] m2.dom().contains(q) implies {
            &&& m2[q].wf()
            &&& m2[q].price == q
            &&& m2[q].side == os
            &&& m2[q].orders@.len() > 0
        } by {
            if q != p {
                assert(m2[q] == m[q]);
            }
        }
    }
    assert(indexed(m2, locs2, os)) by {
        assert forall|q: u64, i: int| m2.dom().contains(q) && 0 <= i < m2[q].orders@.len() implies {
            &&& locs2.dom().contains(#[trigger] m2[q].orders@[i].id)
            &&& locs2[m2[q].orders@[i].id] == (q, os)
        } by {
            let id = m2[q].orders@[i].id;
            if q == p {
                assert(l.orders@.len() > 0);
                assert(m2[q] == l);
                lemma_order_in_id_set(l.orders@, i);
                assert(id_set(old_l.orders@).contains(id));
                let k = choose|k: int| 0 <= k < old_l.orders@.len() && old_l.orders@[k].id == id;
                assert(m[p].orders@[k].id == id);
                assert(locs.dom().contains(m[p].orders@[k].id));
            } else {
                assert(m2[q] == m[q]);
                assert(locs.dom().contains(m[q].orders@[i].id));
                assert(locs[id] == (q, os));
                if gone.contains(id) {
                    assert(locs[id] == (p, os));
                }
            }
        }
    }
    assert(indexed(o, locs2, os.opposite_spec())) by {
        assert forall|q: u64, i: int| o.dom().contains(q) && 0 <= i < o[q].orders@.len() implies {
            &&& locs2.dom().contains(#[trigger] o[q].orders@[i].id)
            &&& locs2[o[q].orders@[i].id] == (q, os.opposite_spec())
        } by {
            let id = o[q].orders@[i].id;
            assert(locs.dom().contains(o[q].orders@[i].id));
            if gone.contains(id) {
                assert(locs[id] == (p, os));
            }
        }
    }
    assert(resolves(b2, a2, locs2)) by {
        assert forall|id: u128| #[trigger] locs2.dom().contains(id) implies {
            &&& pick(b2, a2, locs2[id].1).dom().contains(locs2[id].0)
            &&& id_set(pick(b2, a2, locs2[id].1)[locs2[id].0].orders@).contains(id)
        } by {
            assert(locs.dom().contains(id));
            let (q, s) = locs[id];
            if s == os {
                if q == p {
                    assert(id_set(old_l.orders@).contains(id));
                    assert(id_set(l.orders@).contains(id));
                    let k = choose|k: int| 0 <= k < l.orders@.len() && l.orders@[k].id == id;
                    assert(l.orders@.len() > 0);
                } else {
                    assert(m2[q] == m[q]);
                }
            } else {
                assert(s == os.opposite_spec());
            }
        }
    }
    assert(uncrossed(b2, a2)) by {
        assert forall|b: u64, a: u64| #[trigger] b2.dom().contains(b) && #[trigger] a2.dom().contains(a) implies b < a by {
            assert(bids.dom().contains(b) && asks.dom().contains(a));
        }
    }
}

/// Putting level `l` at price `p` on side `s`, where `l` holds the orders
/// that were there (if any) and one new order whose id was not indexed,
/// while the new id is indexed at `(p, s)`, keeps the invariant provided the
/// price does not cross the other side.
pub proof fn lemma_insert_order(
    bids: Map<u64, PriceLevel>,
    asks: Map<u64, PriceLevel>,
    locs: Map<u128, (u64, Side)>,
    s: Side,
    p: u64,
    l: PriceLevel,
    new_id: u128,
)
    requires
        book_inv(bids, asks, locs),
        !locs.dom().contains(new_id),
        l.wf(),
        l.price == p,
        l.side == s,
        l.orders@.len() > 0,
        forall|id: u128|
            #![trigger id_set(l.orders@).contains(id)]
            id_set(l.orders@).contains(id) <==> (id == new_id || (pick(bids, asks, s).dom().contains(p)
                && id_set(pick(bids, asks, s)[p].orders@).contains(id))),
        s == Side::Buy ==> forall|a: u64| #[trigger] asks.dom().contains(a) ==> p < a,
        s == Side::Sell ==> forall|b: u64| #[trigger] bids.dom().contains(b) ==> b < p,
    ensures
        ({
            let m2 = pick(bids, asks, s).insert(p, l);
            let locs2 = locs.insert(new_id, (p, s));
            match s {
                Side::Buy => book_inv(m2, asks, locs2),
                Side::Sell => book_inv(bids, m2, locs2),
            }
        }),
{
    let m = pick(bids, asks, s);
    let o = pick(bids, asks, s.opposite_spec());
    let m2 = m.insert(p, l);
    let locs2 = locs.insert(new_id, (p, s));
    let (b2, a2) = match s {
        Side::Buy => (m2, asks),
        Side::Sell => (bids, m2),
    };
    assert(pick(b2, a2, s) == m2);
    assert(pick(b2, a2, s.opposite_spec()) == o);
    assert(levels_wf(m2, s)) by {
        assert forall|q: u64| #[trigger] m2.dom().contains(q) implies {
            &&& m2[q].wf()
            &&& m2[q].price == q
            &&& m2[q].side == s
            &&& m2[q].orders@.len() > 0
        } by {
            if q != p {
                assert(m2[q] == m[q]);
            }
        }
    }
    assert(indexed(m2, locs2, s)) by {
        assert forall|q: u64, i: int| m2.dom().contains(q) && 0 <= i < m2[q].orders@.len() implies {
            &&& locs2.dom().contains(#[trigger] m2[q].orders@[i].id)
            &&& locs2[m2[q].orders@[i].id] == (q, s)
        } by {
            let id = m2[q].orders@[i].id;
            if q == p {
                assert(m2[q] == l);
                lemma_order_in_id_set(l.orders@, i);
                if id != new_id {
                    assert(id_set(m[p].orders@).contains(id));
                    let k = choose|k: int| 0 <= k < m[p].orders@.len() && m[p].orders@[k].id == id;
                    assert(locs.dom().contains(m[p].orders@[k].id));
                }
            } else {
                assert(m2[q] == m[q]);
                assert(locs.dom().contains(m[q].orders@[i].id));
            }
        }
    }
    assert(indexed(o, locs2, s.opposite_spec())) by {
        assert forall|q: u64, i: int| o.dom().contains(q) && 0 <= i < o[q].orders@.len() implies {
            &&& locs2.dom().contains(#[trigger] o[q].orders@[i].id)
            &&& locs2[o[q].orders@[i].id] == (q, s.opposite_spec())
        } by {
            assert(locs.dom().contains(o[q].orders@[i].id));
        }
    }
    assert(resolves(b2, a2, locs2)) by {
        assert forall|id: u128| #[trigger] locs2.dom().contains(id) implies {
            &&& pick(b2, a2, locs2[id].1).dom().contains(locs2[id].0)
            &&& id_set(pick(b2, a2, locs2[id].1)[locs2[id].0].orders@).contains(id)
        } by {
            if id == new_id {
                assert(id_set(l.orders@).contains(id));
            } else {
                assert(locs.dom().contains(id));
                let (q, t) = locs[id];
                if t == s {
                    if q == p {
                        assert(id_set(l.orders@).contains(id));
                    } else {
                        assert(m2[q] == m[q]);
                    }
                } else {
                    assert(t == s.opposite_spec());
                }
            }
        }
    }
    assert(uncrossed(b2, a2)) by {
        assert forall|b: u64, a: u64| #[trigger] b2.dom().contains(b) && #[trigger] a2.dom().contains(a) implies b < a by {
            if s == Side::Buy && b != p {
                assert(bids.dom().contains(b));
            }
            if s == Side::Sell && a != p {
                assert(asks.dom().contains(a));
            }
        }
    }
}

} // verus!
