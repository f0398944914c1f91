//! Properties that hold of every well-formed book and of the functions
//! that act on it.
use vstd::prelude::*;
use crate::book::{MatchResult, OrderBook, cancel_post, is_not_found};
use crate::depth::{fills, filled_sum};
use crate::keys::lemma_ascending_keys;
use crate::level::{hidden_sum, id_set, visible_sum};
use crate::snapshot::{OrderBookSnapshot, PriceLevelSnapshot, levels_fit, loaded_ids, map_loaded, restore_post, snapshot_fits};
use crate::store::{ascending_keys, is_max_key, is_min_key};
use crate::types::{Order, Side, TimeInForce};

verus! {

/// Every indexed id resolves to exactly one resting order, at the level the
/// index names, and no other level of either side holds that id; every
/// resting order is indexed at its own level.
pub proof fn law_location_index(book: OrderBook, id: u128)
    requires
        book.wf(),
    ensures
        book.locations().dom().contains(id) ==> {
            let (p, s) = book.locations()[id];
            &&& book.side_levels(s).dom().contains(p)
            &&& exists|i: int| 0 <= i < book.side_levels(s)[p].orders@.len() && #[trigger] book.side_levels(s)[p].orders@[i].id == id
            &&& forall|i: int, j: int|
                0 <= i < book.side_levels(s)[p].orders@.len() && 0 <= j < book.side_levels(s)[p].orders@.len()
                    && #[trigger] book.side_levels(s)[p].orders@[i].id == id && #[trigger] book.side_levels(s)[p].orders@[j].id == id ==> i == j
            &&& forall|s2: Side, q: u64, i: int|
                book.side_levels(s2).dom().contains(q) && 0 <= i < book.side_levels(s2)[q].orders@.len()
                    && #[trigger] book.side_levels(s2)[q].orders@[i].id == id ==> s2 == s && q == p
        },
        forall|s: Side, q: u64, i: int|
            book.side_levels(s).dom().contains(q) && 0 <= i < book.side_levels(s)[q].orders@.len() ==> {
                &&& book.locations().dom().contains(#[trigger] book.side_levels(s)[q].orders@[i].id)
                &&& book.locations()[book.side_levels(s)[q].orders@[i].id] == (q, s)
            },
{
    assert forall|s: Side, q: u64, i: int|
        book.side_levels(s).dom().contains(q) && 0 <= i < book.side_levels(s)[q].orders@.len() implies {
            &&& book.locations().dom().contains(#[trigger] book.side_levels(s)[q].orders@[i].id)
            &&& book.locations()[book.side_levels(s)[q].orders@[i].id] == (q, s)
        } by {
        match s {
            Side::Buy => {},
            Side::Sell => {},
        }
    }
    if book.locations().dom().contains(id) {
        let (p, s) = book.locations()[id];
        let l = book.side_levels(s)[p];
        assert(book.side_levels(s).dom().contains(p));
        assert(l.wf());
        assert(crate::level::id_set(l.orders@).contains(id));
    }
}

/// No crossed book: the best bid is below the best ask.
pub proof fn law_uncrossed(book: OrderBook, best_bid: u64, best_ask: u64)
    requires
        book.wf(),
        is_max_key(book.side_levels(Side::Buy), best_bid),
        is_min_key(book.side_levels(Side::Sell), best_ask),
    ensures
        best_bid < best_ask,
{
}

/// Every level's aggregates are the sums over its orders, and no level
/// lingers empty.
pub proof fn law_level_aggregates(book: OrderBook, side: Side, price: u64)
    requires
        book.wf(),
        book.side_levels(side).dom().contains(price),
    ensures
        book.side_levels(side)[price].visible_total == visible_sum(book.side_levels(side)[price].orders@),
        book.side_levels(side)[price].hidden_total == hidden_sum(book.side_levels(side)[price].orders@),
        book.side_levels(side)[price].orders@.len() > 0,
{
    match side {
        Side::Buy => {},
        Side::Sell => {},
    }
}

/// Cancelling an id a second time fails with `OrderNotFound` and leaves the
/// book as the first cancel left it.
pub proof fn law_cancel_twice(
    b0: OrderBook,
    b1: OrderBook,
    b2: OrderBook,
    order_id: u128,
    r1: Result<Order, crate::error::OrderBookError>,
    r2: Result<Order, crate::error::OrderBookError>,
)
    requires
        cancel_post(b0, order_id, b1, r1),
        cancel_post(b1, order_id, b2, r2),
    ensures
        is_not_found(r2, order_id),
        b2 == b1,
{
    if r1 is Ok {
        assert(!b1.locations().dom().contains(order_id));
    }
}

/// Total quantity of a ladder, best rung first.
pub open spec fn ladder_total(l: Seq<(u64, u64)>) -> int
    decreases l.len(),
{
    if l.len() == 0 {
        0
    } else {
        l[0].1 + ladder_total(l.drop_first())
    }
}

proof fn lemma_filled_sum_prepend(x: (u64, u64), f: Seq<(u64, u64)>)
    ensures
        filled_sum(seq![x] + f) == x.1 + filled_sum(f),
    decreases f.len(),
{
    if f.len() == 0 {
        assert(seq![x] + f =~= seq![x]);
        assert(seq![x].drop_last() =~= Seq::<(u64, u64)>::empty());
        assert(filled_sum(Seq::<(u64, u64)>::empty()) == 0);
    } else {
        lemma_filled_sum_prepend(x, f.drop_last());
        assert((seq![x] + f).drop_last() =~= seq![x] + f.drop_last());
    }
}

/// A market order walk fills the smaller of its quantity and the ladder's
/// total: it fills in full whenever the side holds enough.
pub proof fn law_fills_exact(l: Seq<(u64, u64)>, q: int)
    requires
        q >= 0,
    ensures
        filled_sum(fills(l, q)) == if q < ladder_total(l) { q } else { ladder_total(l) },
    decreases l.len(),
{
    if q <= 0 || l.len() == 0 {
        assert(filled_sum(Seq::<(u64, u64)>::empty()) == 0);
        if l.len() > 0 {
            lemma_ladder_total_nonneg(l.drop_first());
        }
    } else {
        let f = if q < l[0].1 { q } else { l[0].1 as int };
        let t = l.drop_first();
        law_fills_exact(t, q - f);
        lemma_ladder_total_nonneg(t);
        if f == 0 {
            law_fills_exact(t, q);
        } else {
            lemma_filled_sum_prepend((l[0].0, f as u64), fills(t, q - f));
        }
    }
}

proof fn lemma_ladder_total_nonneg(l: Seq<(u64, u64)>)
    ensures
        ladder_total(l) >= 0,
    decreases l.len(),
{
    if l.len() > 0 {
        lemma_ladder_total_nonneg(l.drop_first());
    }
}

/// A fill-or-kill order that the book accepts is filled in full at once.
pub proof fn law_fill_or_kill(
    old_book: OrderBook,
    new_book: OrderBook,
    m: MatchResult,
    order_id: u128,
    price: u64,
    quantity: u64,
    side: Side,
    now: u64,
)
    requires
        old_book.entry_check(order_id, price, quantity, 0, 0, side, TimeInForce::Fok, false, now) is None,
        OrderBook::entry_done(old_book, new_book, m, order_id, price, quantity as int, side, TimeInForce::Fok, now, quantity, 0),
    ensures
        m.executed_quantity == quantity,
        m.remaining_quantity == 0,
        !new_book.locations().dom().contains(order_id),
{
}

/// `levels` copy every level of `side` of `book`, best first.
pub open spec fn copies_side(book: OrderBook, levels: Seq<PriceLevelSnapshot>, side: Side) -> bool {
    &&& levels.len() == book.best_first(side).len()
    &&& forall|i: int| 0 <= i < levels.len() ==> (#[trigger] levels[i]).copies(book.side_levels(side)[book.best_first(side)[i]])
}

/// A full copy of one side lists each of its prices once, best first, and
/// its levels fit back into an empty side.
proof fn lemma_full_side(book: OrderBook, levels: Seq<PriceLevelSnapshot>, side: Side)
    requires
        book.wf(),
        copies_side(book, levels, side),
    ensures
        levels_fit(levels, side),
        forall|i: int| 0 <= i < levels.len() ==> #[trigger] levels[i].price == book.best_first(side)[i]
            && book.side_levels(side).dom().contains(levels[i].price),
        forall|p: u64| #[trigger] book.side_levels(side).dom().contains(p) ==> exists|i: int| 0 <= i < levels.len() && #[trigger] levels[i].price == p,
{
    let m = book.side_levels(side);
    assert(m.dom().finite()) by {
        match side {
            Side::Buy => {},
            Side::Sell => {},
        }
    }
    lemma_ascending_keys(m);
    let kk = ascending_keys(m);
    let n = kk.len() as int;
    let bf = book.best_first(side);
    assert(bf.len() == n);
    assert forall|i: int| 0 <= i < n implies m.dom().contains(#[trigger] bf[i]) by {
        if side == Side::Sell {
            assert(kk.contains(kk[i]));
        } else {
            assert(bf[i] == kk[n - 1 - i]);
            assert(kk.contains(kk[n - 1 - i]));
        }
    }
    assert forall|i: int| 0 <= i < levels.len() implies #[trigger] levels[i].price == bf[i] && m.dom().contains(levels[i].price) by {
        assert(levels[i].copies(m[bf[i]]));
        assert(m.dom().contains(bf[i]));
        assert(crate::consistency::levels_wf(m, side)) by {
            match side {
                Side::Buy => {},
                Side::Sell => {},
            }
        }
    }
    assert forall|i: int, j: int| 0 <= i < j < levels.len() implies #[trigger] levels[i].price != #[trigger] levels[j].price by {
        if side == Side::Sell {
            assert(kk[i] < kk[j]);
        } else {
            assert(bf[i] == kk[n - 1 - i] && bf[j] == kk[n - 1 - j]);
            assert(kk[n - 1 - j] < kk[n - 1 - i]);
        }
    }
    assert(crate::consistency::levels_wf(m, side) && crate::consistency::indexed(m, book.locations(), side)) by {
        match side {
            Side::Buy => {},
            Side::Sell => {},
        }
    }
    assert forall|i: int| 0 <= i < levels.len() implies (#[trigger] levels[i]).orders@.len() > 0 && crate::level::quantity_sum(levels[i].orders@) <= u64::MAX by {
        assert(m.dom().contains(bf[i]));
    }
    assert forall|i: int, k: int| 0 <= i < levels.len() && 0 <= k < levels[i].orders@.len() implies {
        let o = #[trigger] levels[i].orders@[k];
        &&& o.side == side
        &&& o.price == levels[i].price
        &&& o.can_rest()
    } by {
        assert(m.dom().contains(bf[i]));
        assert(m[bf[i]].orders@[k] == levels[i].orders@[k]);
    }
    assert forall|i: int, k: int, j: int, c: int|
        0 <= i < levels.len() && 0 <= k < levels[i].orders@.len() && 0 <= j < levels.len() && 0 <= c < levels[j].orders@.len()
            && (i != j || k != c) implies #[trigger] levels[i].orders@[k].id != #[trigger] levels[j].orders@[c].id by {
        if levels[i].orders@[k].id == levels[j].orders@[c].id {
            assert(m[bf[i]].orders@[k] == levels[i].orders@[k]);
            assert(m[bf[j]].orders@[c] == levels[j].orders@[c]);
            assert(book.locations().dom().contains(m[bf[i]].orders@[k].id));
            assert(book.locations().dom().contains(m[bf[j]].orders@[c].id));
            if i != j {
                assert(levels[i].price != levels[j].price);
            } else {
                assert(m[bf[i]].wf());
            }
        }
    }
    assert forall|p: u64| #[trigger] m.dom().contains(p) implies exists|i: int| 0 <= i < levels.len() && #[trigger] levels[i].price == p by {
        assert(kk.contains(p));
        let q = choose|q: int| 0 <= q < n && kk[q] == p;
        if side == Side::Sell {
            assert(levels[q].price == p);
        } else {
            assert(bf[n - 1 - q] == kk[q]);
            assert(levels[n - 1 - q].price == p);
        }
    }
}

/// Restoring a book from a full snapshot of a well-formed book succeeds and
/// reproduces that book's levels, their orders in time priority, and its
/// location index.
pub proof fn law_snapshot_round_trip(
    book: OrderBook,
    snap: OrderBookSnapshot,
    before: OrderBook,
    after: OrderBook,
    r: Result<(), crate::error::OrderBookError>,
)
    requires
        book.wf(),
        copies_side(book, snap.bids@, Side::Buy),
        copies_side(book, snap.asks@, Side::Sell),
        before.symbol_spec()@ == snap.symbol@,
        restore_post(before, snap, after, r),
    ensures
        r is Ok,
        after.side_levels(Side::Buy).dom() == book.side_levels(Side::Buy).dom(),
        after.side_levels(Side::Sell).dom() == book.side_levels(Side::Sell).dom(),
        forall|p: u64| #[trigger] book.side_levels(Side::Buy).dom().contains(p) ==> after.side_levels(Side::Buy)[p].orders@
            == book.side_levels(Side::Buy)[p].orders@,
        forall|p: u64| #[trigger] book.side_levels(Side::Sell).dom().contains(p) ==> after.side_levels(Side::Sell)[p].orders@
            == book.side_levels(Side::Sell)[p].orders@,
        after.locations() == book.locations(),
{
    let bids = snap.bids@;
    let asks = snap.asks@;
    lemma_full_side(book, bids, Side::Buy);
    lemma_full_side(book, asks, Side::Sell);
    let mb = book.side_levels(Side::Buy);
    let ma = book.side_levels(Side::Sell);
    // ids on both sides would be indexed at two places
    assert forall|i: int, k: int, j: int, c: int|
        0 <= i < bids.len() && 0 <= k < bids[i].orders@.len() && 0 <= j < asks.len() && 0 <= c < asks[j].orders@.len()
            implies #[trigger] bids[i].orders@[k].id != #[trigger] asks[j].orders@[c].id by {
        let pb = bids[i].price;
        let pa = asks[j].price;
        assert(bids[i].copies(mb[book.best_first(Side::Buy)[i]]));
        assert(asks[j].copies(ma[book.best_first(Side::Sell)[j]]));
        assert(mb[pb].orders@[k] == bids[i].orders@[k]);
        assert(ma[pa].orders@[c] == asks[j].orders@[c]);
        assert(book.locations().dom().contains(mb[pb].orders@[k].id));
        assert(book.locations().dom().contains(ma[pa].orders@[c].id));
    }
    assert forall|i: int, j: int| 0 <= i < bids.len() && 0 <= j < asks.len() implies #[trigger] bids[i].price < #[trigger] asks[j].price by {
        assert(mb.dom().contains(bids[i].price) && ma.dom().contains(asks[j].price));
    }
    assert(snapshot_fits(snap));
    assert(r is Ok);
    // levels
    let ab = after.side_levels(Side::Buy);
    let aa = after.side_levels(Side::Sell);
    assert(map_loaded(ab, bids, bids.len() as int, 0));
    assert(map_loaded(aa, asks, asks.len() as int, 0));
    assert forall|p: u64| #[trigger] mb.dom().contains(p) implies ab.dom().contains(p) && ab[p].orders@ == mb[p].orders@ by {
        let i = choose|i: int| 0 <= i < bids.len() && #[trigger] bids[i].price == p;
        assert(bids[i].copies(mb[book.best_first(Side::Buy)[i]]));
    }
    assert forall|p: u64| #[trigger] ma.dom().contains(p) implies aa.dom().contains(p) && aa[p].orders@ == ma[p].orders@ by {
        let i = choose|i: int| 0 <= i < asks.len() && #[trigger] asks[i].price == p;
        assert(asks[i].copies(ma[book.best_first(Side::Sell)[i]]));
    }
    assert forall|p: u64| #[trigger] ab.dom().contains(p) implies mb.dom().contains(p) by {
        let i = choose|i: int| 0 <= i < bids.len() && bids[i].orders@.len() > 0 && #[trigger] bids[i].price == p;
    }
    assert forall|p: u64| #[trigger] aa.dom().contains(p) implies ma.dom().contains(p) by {
        let i = choose|i: int| 0 <= i < asks.len() && asks[i].orders@.len() > 0 && #[trigger] asks[i].price == p;
    }
    assert(ab.dom() =~= mb.dom());
    assert(aa.dom() =~= ma.dom());
    // index
    let la = after.locations();
    let lb = book.locations();
    assert forall|id: u128| #[trigger] lb.dom().contains(id) implies la.dom().contains(id) && la[id] == lb[id] by {
        let (p, s) = lb[id];
        assert(crate::consistency::resolves(mb, ma, lb));
        let m = if s == Side::Buy { mb } else { ma };
        assert(m.dom().contains(p));
        assert(id_set(m[p].orders@).contains(id));
        let k = choose|k: int| 0 <= k < m[p].orders@.len() && m[p].orders@[k].id == id;
        if s == Side::Buy {
            let i = choose|i: int| 0 <= i < bids.len() && #[trigger] bids[i].price == p;
            assert(bids[i].copies(mb[book.best_first(Side::Buy)[i]]));
            assert(bids[i].orders@[k].id == id);
        } else {
            let i = choose|i: int| 0 <= i < asks.len() && #[trigger] asks[i].price == p;
            assert(asks[i].copies(ma[book.best_first(Side::Sell)[i]]));
            assert(asks[i].orders@[k].id == id);
        }
    }
    assert forall|id: u128| #[trigger] la.dom().contains(id) implies lb.dom().contains(id) by {
        if loaded_ids(bids, bids.len() as int, 0).contains(id) {
            let (j, c) = choose|j: int, c: int|
                0 <= j < bids.len() && 0 <= c < bids[j].orders@.len() && (j < bids.len() || (j == bids.len() && c < 0))
                    && #[trigger] bids[j].orders@[c].id == id;
            assert(bids[j].copies(mb[book.best_first(Side::Buy)[j]]));
            assert(mb[bids[j].price].orders@[c] == bids[j].orders@[c]);
            assert(lb.dom().contains(mb[bids[j].price].orders@[c].id));
        } else {
            let (j, c) = choose|j: int, c: int|
                0 <= j < asks.len() && 0 <= c < asks[j].orders@.len() && (j < asks.len() || (j == asks.len() && c < 0))
                    && #[trigger] asks[j].orders@[c].id == id;
            assert(asks[j].copies(ma[book.best_first(Side::Sell)[j]]));
            assert(ma[asks[j].price].orders@[c] == asks[j].orders@[c]);
            assert(lb.dom().contains(ma[asks[j].price].orders@[c].id));
        }
    }
    assert(la =~= lb);
}

} // verus!
