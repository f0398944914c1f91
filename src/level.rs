use vstd::prelude::*;
use crate::types::{Order, Side, Transaction, expired, has_expired, traded_sum, lemma_traded_sum_push, lemma_traded_sum_nonneg};

verus! {

/// Sum of the visible quantities of a sequence of orders.
pub open spec fn visible_sum(s: Seq<Order>) -> int
    decreases s.len(),
{
    if s.len() == 0 {
        0
    } else {
        visible_sum(s.drop_last()) + s.last().visible_quantity
    }
}

/// Sum of the hidden quantities of a sequence of orders.
pub open spec fn hidden_sum(s: Seq<Order>) -> int
    decreases s.len(),
{
    if s.len() == 0 {
        0
    } else {
        hidden_sum(s.drop_last()) + s.last().hidden_quantity
    }
}

/// Visible plus hidden quantity of a sequence of orders.
pub open spec fn quantity_sum(s: Seq<Order>) -> int {
    visible_sum(s) + hidden_sum(s)
}

/// The ids of the orders in a sequence.
pub open spec fn id_set(s: Seq<Order>) -> Set<u128> {
    Set::new(|id: u128| exists|i: int| 0 <= i < s.len() && s[i].id == id)
}

/// No two orders of the sequence share an id.
pub open spec fn ids_distinct(s: Seq<Order>) -> bool {
    forall|i: int, j: int| 0 <= i < j < s.len() ==> s[i].id != s[j].id
}

pub proof fn lemma_sums_concat(a: Seq<Order>, b: Seq<Order>)
    ensures
        visible_sum(a + b) == visible_sum(a) + visible_sum(b),
        hidden_sum(a + b) == hidden_sum(a) + hidden_sum(b),
    decreases b.len(),
{
    if b.len() == 0 {
        assert(a + b =~= a);
    } else {
        lemma_sums_concat(a, b.drop_last());
        assert((a + b).drop_last() =~= a + b.drop_last());
    }
}

pub proof fn lemma_sums_nonneg(s: Seq<Order>)
    ensures
        visible_sum(s) >= 0,
        hidden_sum(s) >= 0,
    decreases s.len(),
{
    if s.len() > 0 {
        lemma_sums_nonneg(s.drop_last());
    }
}

/// Splitting a sequence at `i` into the part before, the order at `i`, and
/// the part after.
pub proof fn lemma_sums_split(s: Seq<Order>, i: int)
    requires
        0 <= i < s.len(),
    ensures
        visible_sum(s) == visible_sum(s.subrange(0, i)) + s[i].visible_quantity + visible_sum(
            s.subrange(i + 1, s.len() as int),
        ),
        hidden_sum(s) == hidden_sum(s.subrange(0, i)) + s[i].hidden_quantity + hidden_sum(
            s.subrange(i + 1, s.len() as int),
        ),
        visible_sum(s.remove(i)) == visible_sum(s) - s[i].visible_quantity,
        hidden_sum(s.remove(i)) == hidden_sum(s) - s[i].hidden_quantity,
{
    let a = s.subrange(0, i);
    let b = s.subrange(i + 1, s.len() as int);
    let one = seq![s[i]];
    assert(s =~= a + one + b);
    assert(s.remove(i) =~= a + b);
    lemma_sums_concat(a + one, b);
    lemma_sums_concat(a, one);
    lemma_sums_concat(a, b);
    assert(one.drop_last() =~= Seq::<Order>::empty());
    assert(visible_sum(Seq::<Order>::empty()) == 0);
    assert(hidden_sum(Seq::<Order>::empty()) == 0);
    assert(one.last() == s[i]);
    assert(visible_sum(one) == s[i].visible_quantity);
    assert(hidden_sum(one) == s[i].hidden_quantity);
}

pub proof fn lemma_sums_push(s: Seq<Order>, o: Order)
    ensures
        visible_sum(s.push(o)) == visible_sum(s) + o.visible_quantity,
        hidden_sum(s.push(o)) == hidden_sum(s) + o.hidden_quantity,
{
    assert(s.push(o).drop_last() =~= s);
}

pub proof fn lemma_sums_update(s: Seq<Order>, i: int, o: Order)
    requires
        0 <= i < s.len(),
    ensures
        visible_sum(s.update(i, o)) == visible_sum(s) - s[i].visible_quantity + o.visible_quantity,
        hidden_sum(s.update(i, o)) == hidden_sum(s) - s[i].hidden_quantity + o.hidden_quantity,
{
    let t = s.update(i, o);
    lemma_sums_split(s, i);
    lemma_sums_split(t, i);
    assert(t.len() == s.len());
    assert forall|k: int| 0 <= k < i implies #[trigger] t.subrange(0, i)[k] == s.subrange(0, i)[k] by {
        assert(t[k] == s[k]);
    }
    assert forall|k: int| 0 <= k < s.len() - i - 1 implies #[trigger] t.subrange(i + 1, t.len() as int)[k]
        == s.subrange(i + 1, s.len() as int)[k] by {
        assert(t[k + i + 1] == s[k + i + 1]);
    }
    assert(t.subrange(0, i) =~= s.subrange(0, i));
    assert(t.subrange(i + 1, t.len() as int) =~= s.subrange(i + 1, s.len() as int));
}

/// Quantity of the orders of a sequence that have not expired at `now`.
pub open spec fn live_sum(s: Seq<Order>, now: u64, close: Option<u64>) -> int
    decreases s.len(),
{
    if s.len() == 0 {
        0
    } else {
        live_sum(s.drop_last(), now, close) + if expired(s.last().time_in_force, now, close) {
            0
        } else {
            s.last().total_spec()
        }
    }
}

/// No order of the sequence has expired at `now`.
pub open spec fn all_live(s: Seq<Order>, now: u64, close: Option<u64>) -> bool {
    forall|i: int| 0 <= i < s.len() ==> !expired(#[trigger] s[i].time_in_force, now, close)
}

pub proof fn lemma_live_sum_concat(a: Seq<Order>, b: Seq<Order>, now: u64, close: Option<u64>)
    ensures
        live_sum(a + b, now, close) == live_sum(a, now, close) + live_sum(b, now, close),
    decreases b.len(),
{
    if b.len() == 0 {
        assert(a + b =~= a);
    } else {
        lemma_live_sum_concat(a, b.drop_last(), now, close);
        assert((a + b).drop_last() =~= a + b.drop_last());
    }
}

/// The live quantity lies between 0 and the whole quantity, and equals it
/// when nothing has expired.
pub proof fn lemma_live_sum_bounds(s: Seq<Order>, now: u64, close: Option<u64>)
    ensures
        0 <= live_sum(s, now, close) <= quantity_sum(s),
        all_live(s, now, close) ==> live_sum(s, now, close) == quantity_sum(s),
    decreases s.len(),
{
    if s.len() > 0 {
        lemma_live_sum_bounds(s.drop_last(), now, close);
        lemma_sums_push(s.drop_last(), s.last());
        assert(s.drop_last().push(s.last()) =~= s);
        if all_live(s, now, close) {
            assert(!expired(s[s.len() - 1].time_in_force, now, close));
            assert forall|i: int| 0 <= i < s.drop_last().len() implies !expired(#[trigger] s.drop_last()[i].time_in_force, now, close) by {
                assert(s.drop_last()[i] == s[i]);
            }
        }
    } else {
        assert(visible_sum(s) == 0 && hidden_sum(s) == 0);
    }
}

proof fn lemma_live_sum_remove_expired(s: Seq<Order>, i: int, now: u64, close: Option<u64>)
    requires
        0 <= i < s.len(),
        expired(s[i].time_in_force, now, close),
    ensures
        live_sum(s.remove(i), now, close) == live_sum(s, now, close),
{
    let a = s.subrange(0, i);
    let b = s.subrange(i + 1, s.len() as int);
    let one = seq![s[i]];
    assert(s =~= a + one + b);
    assert(s.remove(i) =~= a + b);
    lemma_live_sum_concat(a + one, b, now, close);
    lemma_live_sum_concat(a, one, now, close);
    lemma_live_sum_concat(a, b, now, close);
    assert(one.drop_last() =~= Seq::<Order>::empty());
    assert(live_sum(Seq::<Order>::empty(), now, close) == 0);
    assert(one.last() == s[i]);
}

/// The orders resting at one price, in time priority (head first), with
/// their visible and hidden totals.
#[derive(Clone, Debug)]
pub struct PriceLevel {
    pub price: u64,
    pub side: Side,
    pub visible_total: u64,
    pub hidden_total: u64,
    pub orders: Vec<Order>,
}

impl PriceLevel {
    /// The level's aggregates agree with its orders, every order can rest,
    /// belongs at this price and side, and ids are unique.
    pub open spec fn wf(&self) -> bool {
        &&& self.visible_total == visible_sum(self.orders@)
        &&& self.hidden_total == hidden_sum(self.orders@)
        &&& quantity_sum(self.orders@) <= u64::MAX
        &&& ids_distinct(self.orders@)
        &&& forall|i: int|
            0 <= i < self.orders@.len() ==> {
                &&& (#[trigger] self.orders@[i]).can_rest()
                &&& self.orders@[i].price == self.price
                &&& self.orders@[i].side == self.side
            }
    }

    /// Visible plus hidden quantity of the level.
    pub open spec fn total_spec(&self) -> int {
        quantity_sum(self.orders@)
    }

    /// An empty level at `price` on `side`.
    pub fn new(price: u64, side: Side) -> (r: PriceLevel)
        ensures
            r.wf(),
            r.price == price,
            r.side == side,
            r.orders@.len() == 0,
    {
        PriceLevel { price, side, visible_total: 0, hidden_total: 0, orders: Vec::new() }
    }

    /// Visible plus hidden quantity resting at this level.
    pub fn total_quantity(&self) -> (r: u64)
        requires
            self.wf(),
        ensures
            r == self.total_spec(),
    {
        self.visible_total + self.hidden_total
    }

    /// Number of orders resting at this level.
    pub fn order_count(&self) -> (r: usize)
        ensures
            r == self.orders@.len(),
    {
        self.orders.len()
    }

    /// Whether an order with `id` rests here.
    pub fn contains(&self, id: u128) -> (r: bool)
        ensures
            r == id_set(self.orders@).contains(id),
    {
        self.find(id).is_some()
    }

    /// The position of the order with `id`, if it rests here.
    pub fn find(&self, id: u128) -> (r: Option<usize>)
        ensures
            match r {
                Some(i) => i < self.orders@.len() && self.orders@[i as int].id == id,
                None => !id_set(self.orders@).contains(id),
            },
    {
        let mut i: usize = 0;
        while i < self.orders.len()
            invariant
                i <= self.orders@.len(),
                forall|j: int| 0 <= j < i ==> self.orders@[j].id != id,
            decreases self.orders@.len() - i,
        {
            if self.orders[i].id == id {
                return Some(i);
            }
            i = i + 1;
        }
        None
    }

    /// Appends `order` at the tail of the queue.
    pub fn add_order(&mut self, order: Order)
        requires
            old(self).wf(),
            order.can_rest(),
            order.price == old(self).price,
            order.side == old(self).side,
            !id_set(old(self).orders@).contains(order.id),
            old(self).total_spec() + order.total_spec() <= u64::MAX,
        ensures
            final(self).wf(),
            final(self).price == old(self).price,
            final(self).side == old(self).side,
            final(self).orders@ == old(self).orders@.push(order),
            final(self).total_spec() == old(self).total_spec() + order.total_spec(),
    {
        proof {
            lemma_sums_push(self.orders@, order);
            lemma_sums_nonneg(self.orders@);
            assert forall|i: int| 0 <= i < self.orders@.len() implies self.orders@[i].id != order.id by {
                if self.orders@[i].id == order.id {
                    assert(id_set(self.orders@).contains(order.id));
                }
            }
        }
        self.visible_total = self.visible_total + order.visible_quantity;
        self.hidden_total = self.hidden_total + order.hidden_quantity;
        self.orders.push(order);
    }

    /// Removes the order with `id`, if it rests here.
    pub fn remove_order(&mut self, id: u128) -> (r: Option<Order>)
        requires
            old(self).wf(),
        ensures
            final(self).wf(),
            final(self).price == old(self).price,
            final(self).side == old(self).side,
            match r {
                Some(o) => exists|i: int|
                    0 <= i < old(self).orders@.len() && #[trigger] old(self).orders@[i] == o && o.id == id
                        && final(self).orders@ == old(self).orders@.remove(i),
                None => !id_set(old(self).orders@).contains(id) && final(self).orders@
                    == old(self).orders@,
            },
            id_set(final(self).orders@) == id_set(old(self).orders@).remove(id),
            r is Some ==> final(self).total_spec() == old(self).total_spec() - r->0.total_spec(),
    {
        match self.find(id) {
            None => {
                proof {
                    assert(id_set(self.orders@).remove(id) =~= id_set(self.orders@));
                }
                None
            },
            Some(i) => {
                let ghost s = self.orders@;
                proof {
                    lemma_sums_split(s, i as int);
                    lemma_sums_nonneg(s.remove(i as int));
                }
                let o = self.orders.remove(i);
                self.visible_total = self.visible_total - o.visible_quantity;
                self.hidden_total = self.hidden_total - o.hidden_quantity;
                proof {
                    let t = self.orders@;
                    assert(t =~= s.remove(i as int));
                    assert forall|a: int, b: int| 0 <= a < b < t.len() implies t[a].id != t[b].id by {
                        let a2 = if a < i { a } else { a + 1 };
                        let b2 = if b < i { b } else { b + 1 };
                        assert(t[a] == s[a2]);
                        assert(t[b] == s[b2]);
                    }
                    assert forall|k: int| 0 <= k < t.len() implies (#[trigger] t[k]).can_rest()
                        && t[k].price == self.price && t[k].side == self.side by {
                        let k2 = if k < i { k } else { k + 1 };
                        assert(t[k] == s[k2]);
                    }
                    assert forall|x: u128| #[trigger] id_set(t).contains(x) <==> id_set(s).remove(id).contains(x) by {
                        if id_set(t).contains(x) {
                            let k = choose|k: int| 0 <= k < t.len() && t[k].id == x;
                            let k2 = if k < i { k } else { k + 1 };
                            assert(t[k] == s[k2]);
                            assert(k2 != i);
                        }
                        if id_set(s).remove(id).contains(x) {
                            let k2 = choose|k: int| 0 <= k < s.len() && s[k].id == x;
                            assert(k2 != i);
                            let k = if k2 < i { k2 } else { k2 - 1 };
                            assert(t[k] == s[k2]);
                        }
                    }
                    assert(id_set(t) =~= id_set(s).remove(id));
                    assert(s[i as int] == o);
                }
                Some(o)
            },
        }
    }

    /// The quantity of the orders that have not expired at `now`.
    pub fn live_quantity(&self, now: u64, close: Option<u64>) -> (r: u64)
        requires
            self.wf(),
        ensures
            r == live_sum(self.orders@, now, close),
    {
        let mut total: u64 = 0;
        let mut i: usize = 0;
        proof {
            assert(self.orders@.subrange(0, 0) =~= Seq::<Order>::empty());
        }
        while i < self.orders.len()
            invariant
                self.wf(),
                i <= self.orders@.len(),
                total == live_sum(self.orders@.subrange(0, i as int), now, close),
            decreases self.orders@.len() - i,
        {
            proof {
                let a = self.orders@.subrange(0, i as int);
                let b = self.orders@.subrange(0, i + 1);
                assert(b.drop_last() =~= a);
                lemma_live_sum_bounds(b, now, close);
                assert(self.orders@ =~= b + self.orders@.subrange(i + 1, self.orders@.len() as int));
                lemma_sums_concat(b, self.orders@.subrange(i + 1, self.orders@.len() as int));
                lemma_sums_nonneg(self.orders@.subrange(i + 1, self.orders@.len() as int));
            }
            let o = self.orders[i];
            if !has_expired(o.time_in_force, now, close) {
                total = total + o.visible_quantity + o.hidden_quantity;
            }
            i = i + 1;
        }
        proof {
            assert(self.orders@.subrange(0, self.orders@.len() as int) =~= self.orders@);
        }
        total
    }

    /// Removes the orders that have expired at `now`, appending their ids
    /// to `dropped`; the others keep their order.
    pub fn drop_expired(&mut self, now: u64, close: Option<u64>, dropped: &mut Vec<u128>)
        requires
            old(self).wf(),
        ensures
            final(self).wf(),
            final(self).price == old(self).price,
            final(self).side == old(self).side,
            all_live(final(self).orders@, now, close),
            final(self).total_spec() == live_sum(old(self).orders@, now, close),
            final(dropped)@.len() >= old(dropped)@.len(),
            final(dropped)@.subrange(0, old(dropped)@.len() as int) == old(dropped)@,
            forall|id: u128|
                id_set(old(self).orders@).contains(id) <==> (id_set(final(self).orders@).contains(id)
                    || final(dropped)@.subrange(old(dropped)@.len() as int, final(dropped)@.len() as int).contains(id)),
            forall|k: int|
                old(dropped)@.len() <= k < final(dropped)@.len() ==> !id_set(final(self).orders@).contains(
                    #[trigger] final(dropped)@[k],
                ),
            all_live(old(self).orders@, now, close) ==> final(self).orders@ == old(self).orders@,
    {
        let ghost s0 = self.orders@;
        let ghost d0 = dropped@.len();
        let mut i: usize = 0;
        proof {
            assert(dropped@.subrange(0, d0 as int) =~= dropped@);
            assert forall|id: u128| id_set(s0).contains(id) <==> (id_set(self.orders@).contains(id)
                || dropped@.subrange(d0 as int, dropped@.len() as int).contains(id)) by {
                assert(dropped@.subrange(d0 as int, dropped@.len() as int).len() == 0);
            }
        }
        while i < self.orders.len()
            invariant
                self.wf(),
                self.price == old(self).price,
                self.side == old(self).side,
                i <= self.orders@.len(),
                forall|j: int| 0 <= j < i ==> !expired(#[trigger] self.orders@[j].time_in_force, now, close),
                live_sum(self.orders@, now, close) == live_sum(s0, now, close),
                dropped@.len() >= d0,
                dropped@.subrange(0, d0 as int) == old(dropped)@,
                forall|id: u128|
                    id_set(s0).contains(id) <==> (id_set(self.orders@).contains(id)
                        || dropped@.subrange(d0 as int, dropped@.len() as int).contains(id)),
                forall|k: int| d0 <= k < dropped@.len() ==> !id_set(self.orders@).contains(#[trigger] dropped@[k]),
                all_live(s0, now, close) ==> self.orders@ == s0,
            decreases self.orders@.len() - i,
        {
            if has_expired(self.orders[i].time_in_force, now, close) {
                let id = self.orders[i].id;
                let ghost s = self.orders@;
                let ghost dl = dropped@;
                let removed = self.remove_order(id);
                dropped.push(id);
                proof {
                    assert(id_set(s).contains(id)) by {
                        assert(s[i as int].id == id);
                    }
                    let k = choose|k: int| 0 <= k < s.len() && #[trigger] s[k] == removed->0 && removed->0.id == id
                        && self.orders@ == s.remove(k);
                    assert(k == i) by {
                        if k != i as int {
                            assert(s[k].id == s[i as int].id);
                        }
                    }
                    lemma_live_sum_remove_expired(s, i as int, now, close);
                    assert forall|j: int| 0 <= j < i implies !expired(#[trigger] self.orders@[j].time_in_force, now, close) by {
                        assert(self.orders@[j] == s[j]);
                    }
                    assert(dropped@.subrange(0, d0 as int) =~= dl.subrange(0, d0 as int));
                    let nd = dropped@.subrange(d0 as int, dropped@.len() as int);
                    let od = dl.subrange(d0 as int, dl.len() as int);
                    assert(nd =~= od.push(id));
                    assert forall|x: u128| id_set(s0).contains(x) <==> (id_set(self.orders@).contains(x) || nd.contains(x)) by {
                        if od.contains(x) {
                            let q = choose|q: int| 0 <= q < od.len() && od[q] == x;
                            assert(nd[q] == x);
                        }
                        if x == id {
                            assert(nd[nd.len() - 1] == x);
                        }
                        if nd.contains(x) {
                            let q = choose|q: int| 0 <= q < nd.len() && nd[q] == x;
                            if q < nd.len() - 1 {
                                assert(od[q] == x);
                            }
                        }
                    }
                    assert forall|q: int| d0 <= q < dropped@.len() implies !id_set(self.orders@).contains(#[trigger] dropped@[q]) by {
                        if q < dropped@.len() - 1 {
                            assert(dropped@[q] == dl[q]);
                        }
                    }
                }
            } else {
                i = i + 1;
            }
        }
        proof {
            lemma_live_sum_bounds(self.orders@, now, close);
            lemma_live_sum_bounds(s0, now, close);
        }
    }

    /// Matches an incoming quantity against the queue, head first.
    ///
    /// Each step fills the head order up to its visible quantity and appends
    /// one transaction to `trades`. A head whose visible quantity runs out is
    /// refilled from its hidden quantity (by at most `replenish_amount`) and
    /// moved to the tail; without hidden quantity it leaves the level and its
    /// id is appended to `filled`. Returns the quantity consumed.
    pub fn match_against(
        &mut self,
        incoming: u64,
        taker_id: u128,
        timestamp: u64,
        next_transaction_id: &mut u64,
        trades: &mut Vec<Transaction>,
        filled: &mut Vec<u128>,
    ) -> (consumed: u64)
        requires
            old(self).wf(),
        ensures
            final(self).wf(),
            final(self).price == old(self).price,
            final(self).side == old(self).side,
            consumed <= incoming,
            consumed < incoming ==> final(self).orders@.len() == 0,
            final(self).total_spec() + consumed == old(self).total_spec(),
            final(trades)@.len() >= old(trades)@.len(),
            final(trades)@.subrange(0, old(trades)@.len() as int) == old(trades)@,
            traded_sum(final(trades)@) == traded_sum(old(trades)@) + consumed,
            forall|k: int|
                old(trades)@.len() <= k < final(trades)@.len() ==> {
                    &&& (#[trigger] final(trades)@[k]).taker_id == taker_id
                    &&& final(trades)@[k].price == old(self).price
                    &&& final(trades)@[k].quantity > 0
                    &&& final(trades)@[k].timestamp == timestamp
                    &&& id_set(old(self).orders@).contains(final(trades)@[k].maker_id)
                },
            final(filled)@.len() >= old(filled)@.len(),
            final(filled)@.subrange(0, old(filled)@.len() as int) == old(filled)@,
            forall|id: u128|
                id_set(old(self).orders@).contains(id) <==> (id_set(final(self).orders@).contains(id)
                    || final(filled)@.subrange(old(filled)@.len() as int, final(filled)@.len() as int).contains(id)),
            forall|k: int|
                old(filled)@.len() <= k < final(filled)@.len() ==> !id_set(final(self).orders@).contains(
                    #[trigger] final(filled)@[k],
                ),
            no_hidden(old(self).orders@) ==> forall|k: int|
                0 <= k < final(trades)@.len() - old(trades)@.len() ==> (#[trigger] final(trades)@[old(trades)@.len() + k]).maker_id
                    == old(self).orders@[k].id,
            forall|n: u64, c: Option<u64>| #[trigger] all_live(old(self).orders@, n, c) ==> all_live(final(self).orders@, n, c),
            no_hidden(old(self).orders@) ==> fifo_outcome(
                old(self).orders@,
                final(self).orders@,
                final(trades)@.subrange(old(trades)@.len() as int, final(trades)@.len() as int),
                final(filled)@.subrange(old(filled)@.len() as int, final(filled)@.len() as int),
            ),
    {
        let ghost s0 = self.orders@;
        let ghost t0 = trades@.len();
        let ghost f0 = filled@.len();
        let mut remaining = incoming;
        proof {
            lemma_traded_sum_nonneg(trades@);
            assert(trades@.subrange(0, t0 as int) =~= trades@);
            assert(filled@.subrange(0, f0 as int) =~= filled@);
            assert forall|id: u128| id_set(s0).contains(id) <==> (id_set(self.orders@).contains(id)
                || filled@.subrange(f0 as int, filled@.len() as int).contains(id)) by {
                assert(filled@.subrange(f0 as int, filled@.len() as int).len() == 0);
            }
            if no_hidden(s0) {
                assert forall|j: int| 0 <= j < self.orders@.len() implies self.orders@[j].id == s0[j + 0].id by {}
                assert(trades@.subrange(t0 as int, trades@.len() as int).len() == 0);
                assert(filled@.subrange(f0 as int, filled@.len() as int).len() == 0);
            }
        }
        while remaining > 0 && self.orders.len() > 0
            invariant
                self.wf(),
                self.price == old(self).price,
                self.side == old(self).side,
                remaining <= incoming,
                self.total_spec() + (incoming - remaining) == quantity_sum(s0),
                trades@.len() >= t0,
                trades@.subrange(0, t0 as int) == old(trades)@,
                traded_sum(trades@) == traded_sum(old(trades)@) + (incoming - remaining),
                forall|k: int|
                    t0 <= k < trades@.len() ==> {
                        &&& (#[trigger] trades@[k]).taker_id == taker_id
                        &&& trades@[k].price == old(self).price
                        &&& trades@[k].quantity > 0
                        &&& trades@[k].timestamp == timestamp
                        &&& id_set(s0).contains(trades@[k].maker_id)
                    },
                filled@.len() >= f0,
                filled@.subrange(0, f0 as int) == old(filled)@,
                forall|id: u128|
                    id_set(s0).contains(id) <==> (id_set(self.orders@).contains(id)
                        || filled@.subrange(f0 as int, filled@.len() as int).contains(id)),
                forall|k: int| f0 <= k < filled@.len() ==> !id_set(self.orders@).contains(#[trigger] filled@[k]),
                no_hidden(s0) ==> {
                    &&& no_hidden(self.orders@)
                    &&& self.orders@.len() + (filled@.len() - f0) == s0.len()
                    &&& forall|j: int| 0 <= j < self.orders@.len() ==> #[trigger] self.orders@[j].id == s0[j + (filled@.len() - f0)].id
                    &&& (trades@.len() - t0 == filled@.len() - f0 || (trades@.len() - t0 == filled@.len() - f0 + 1 && remaining == 0))
                    &&& forall|k: int| 0 <= k < trades@.len() - t0 ==> (#[trigger] trades@[t0 + k]).maker_id == s0[k].id
                },
                forall|n: u64, c: Option<u64>| #[trigger] all_live(s0, n, c) ==> all_live(self.orders@, n, c),
                no_hidden(s0) ==> fifo_outcome(
                    s0,
                    self.orders@,
                    trades@.subrange(t0 as int, trades@.len() as int),
                    filled@.subrange(f0 as int, filled@.len() as int),
                ),
            decreases remaining,
        {
            let ghost s = self.orders@;
            let ghost tr = trades@;
            let ghost fl = filled@;
            let head = self.orders[0];
            assert(s[0].can_rest());
            let fill = if remaining < head.visible_quantity { remaining } else { head.visible_quantity };
            let t = Transaction {
                transaction_id: *next_transaction_id,
                maker_id: head.id,
                taker_id,
                price: self.price,
                quantity: fill,
                timestamp,
            };
            trades.push(t);
            *next_transaction_id = next_transaction_id.wrapping_add(1);
            remaining = remaining - fill;
            proof {
                lemma_traded_sum_push(tr, t);
                assert(trades@.subrange(0, t0 as int) =~= tr.subrange(0, t0 as int));
                assert(id_set(s).contains(head.id));
                lemma_sums_split(s, 0);
                lemma_sums_nonneg(s.remove(0));
            }
            if fill < head.visible_quantity {
                let new_head = Order { visible_quantity: (head.visible_quantity - fill) as u64, ..head };
                self.orders.set(0, new_head);
                self.visible_total = self.visible_total - fill;
                proof {
                    if no_hidden(s0) {
                        let ts0 = tr.subrange(t0 as int, tr.len() as int);
                        let ts1 = trades@.subrange(t0 as int, trades@.len() as int);
                        let fs = filled@.subrange(f0 as int, filled@.len() as int);
                        let f = fs.len() as int;
                        assert(ts1 =~= ts0.push(t));
                        assert(ts0.len() == f);
                        let u = self.orders@;
                        assert(u =~= s.update(0, new_head));
                        assert forall|k: int| 0 <= k < ts1.len() implies (#[trigger] ts1[k]).maker_id == s0[k].id by {
                            if k < ts0.len() {
                                assert(ts1[k] == ts0[k]);
                            }
                        }
                        assert forall|k: int| 0 <= k < f implies #[trigger] fs[k] == s0[k].id && ts1[k].quantity == s0[k].visible_quantity by {
                            assert(ts1[k] == ts0[k]);
                        }
                        assert forall|j: int| 1 <= j < u.len() implies #[trigger] u[j] == s0[j + f] by {
                            assert(u[j] == s[j]);
                        }
                        assert(ts1[f] == t);
                    }
                }
                proof {
                    let u = self.orders@;
                    lemma_sums_update(s, 0, new_head);
                    assert(u =~= s.update(0, new_head));
                    assert forall|a: int, b: int| 0 <= a < b < u.len() implies u[a].id != u[b].id by {
                        assert(u[a].id == s[a].id);
                        assert(u[b].id == s[b].id);
                    }
                    assert forall|k: int| 0 <= k < u.len() implies (#[trigger] u[k]).can_rest()
                        && u[k].price == self.price && u[k].side == self.side by {
                        if k > 0 { assert(u[k] == s[k]); }
                    }
                    assert forall|x: u128| #[trigger] id_set(u).contains(x) == id_set(s).contains(x) by {
                        if id_set(u).contains(x) {
                            let k = choose|k: int| 0 <= k < u.len() && u[k].id == x;
                            assert(s[k].id == x);
                        }
                        if id_set(s).contains(x) {
                            let k = choose|k: int| 0 <= k < s.len() && s[k].id == x;
                            assert(u[k].id == x);
                        }
                    }
                    assert(id_set(u) =~= id_set(s));
                    assert forall|n: u64, c: Option<u64>| #[trigger] all_live(s0, n, c) implies all_live(u, n, c) by {
                        assert(all_live(s, n, c));
                        assert forall|j: int| 0 <= j < u.len() implies !expired(#[trigger] u[j].time_in_force, n, c) by {
                            assert(u[j].time_in_force == s[j].time_in_force);
                        }
                    }
                    if no_hidden(s0) {
                        assert forall|j: int| 0 <= j < u.len() implies #[trigger] u[j].id == s0[j + (filled@.len() - f0)].id by {
                            assert(u[j].id == s[j].id);
                        }
                        assert forall|j: int| 0 <= j < u.len() implies #[trigger] u[j].hidden_quantity == 0 by {
                            assert(u[j].hidden_quantity == s[j].hidden_quantity);
                        }
                        assert forall|k: int| 0 <= k < trades@.len() - t0 implies (#[trigger] trades@[t0 + k]).maker_id == s0[k].id by {
                            if k < tr.len() - t0 {
                                assert(trades@[t0 + k] == tr[t0 + k]);
                            } else {
                                assert(s[0].id == s0[0 + (filled@.len() - f0)].id);
                            }
                        }
                    }
                }
            } else if head.hidden_quantity > 0 {
                let refill = if head.hidden_quantity < head.replenish_amount {
                    head.hidden_quantity
                } else {
                    head.replenish_amount
                };
                let new_head = Order {
                    visible_quantity: refill,
                    hidden_quantity: (head.hidden_quantity - refill) as u64,
                    ..head
                };
                self.orders.remove(0);
                self.orders.push(new_head);
                self.visible_total = self.visible_total - fill + refill;
                self.hidden_total = self.hidden_total - refill;
                proof {
                    let u = self.orders@;
                    let r = s.remove(0);
                    assert(u =~= r.push(new_head));
                    lemma_sums_push(r, new_head);
                    assert forall|k: int| 0 <= k < r.len() implies r[k] == s[k + 1] by {}
                    assert forall|a: int, b: int| 0 <= a < b < u.len() implies u[a].id != u[b].id by {
                        if b == u.len() - 1 {
                            assert(u[a] == s[a + 1]);
                        } else {
                            assert(u[a] == s[a + 1]);
                            assert(u[b] == s[b + 1]);
                        }
                    }
                    assert forall|k: int| 0 <= k < u.len() implies (#[trigger] u[k]).can_rest()
                        && u[k].price == self.price && u[k].side == self.side by {
                        if k < u.len() - 1 { assert(u[k] == s[k + 1]); }
                    }
                    assert forall|x: u128| #[trigger] id_set(u).contains(x) == id_set(s).contains(x) by {
                        if id_set(u).contains(x) {
                            let k = choose|k: int| 0 <= k < u.len() && u[k].id == x;
                            if k < u.len() - 1 { assert(u[k] == s[k + 1]); } else { assert(s[0].id == x); }
                        }
                        if id_set(s).contains(x) {
                            let k = choose|k: int| 0 <= k < s.len() && s[k].id == x;
                            if k > 0 { assert(u[k - 1] == s[k]); } else { assert(u[u.len() - 1].id == x); }
                        }
                    }
                    assert(id_set(u) =~= id_set(s));
                    assert(!no_hidden(s) );
                    assert forall|n: u64, c: Option<u64>| #[trigger] all_live(s0, n, c) implies all_live(u, n, c) by {
                        assert(all_live(s, n, c));
                        assert forall|j: int| 0 <= j < u.len() implies !expired(#[trigger] u[j].time_in_force, n, c) by {
                            if j < u.len() - 1 {
                                assert(u[j] == s[j + 1]);
                            } else {
                                assert(u[j].time_in_force == s[0].time_in_force);
                            }
                        }
                    }
                    if no_hidden(s0) {
                        assert(s[0].hidden_quantity == 0);
                    }
                }
            } else {
                self.orders.remove(0);
                filled.push(head.id);
                self.visible_total = self.visible_total - fill;
                proof {
                    if no_hidden(s0) {
                        let ts0 = tr.subrange(t0 as int, tr.len() as int);
                        let ts1 = trades@.subrange(t0 as int, trades@.len() as int);
                        let fs0 = fl.subrange(f0 as int, fl.len() as int);
                        let fs1 = filled@.subrange(f0 as int, filled@.len() as int);
                        let f = fs0.len() as int;
                        assert(ts1 =~= ts0.push(t));
                        assert(fs1 =~= fs0.push(head.id));
                        assert(ts0.len() == f);
                        let u = self.orders@;
                        assert(u =~= s.remove(0));
                        assert(head == s[0]);
                        assert(same_but_visible(s[0], s0[f]));
                        assert(s[0].visible_quantity == s0[f].visible_quantity);
                        assert forall|k: int| 0 <= k < ts1.len() implies (#[trigger] ts1[k]).maker_id == s0[k].id by {
                            if k < ts0.len() {
                                assert(ts1[k] == ts0[k]);
                            }
                        }
                        assert forall|k: int| 0 <= k < f + 1 implies #[trigger] fs1[k] == s0[k].id && ts1[k].quantity == s0[k].visible_quantity by {
                            if k < f {
                                assert(ts1[k] == ts0[k]);
                                assert(fs1[k] == fs0[k]);
                            } else {
                                assert(s[0].id == s0[f].id);
                            }
                        }
                        assert forall|j: int| 1 <= j < u.len() implies #[trigger] u[j] == s0[j + f + 1] by {
                            assert(u[j] == s[j + 1]);
                        }
                        if u.len() > 0 {
                            assert(u[0] == s[1]);
                            assert(s[1] == s0[1 + f]);
                        }
                    }
                }
                proof {
                    let u = self.orders@;
                    assert(u =~= s.remove(0));
                    assert forall|k: int| 0 <= k < u.len() implies u[k] == s[k + 1] by {}
                    assert forall|a: int, b: int| 0 <= a < b < u.len() implies u[a].id != u[b].id by {
                        assert(u[a] == s[a + 1]);
                        assert(u[b] == s[b + 1]);
                    }
                    assert forall|k: int| 0 <= k < u.len() implies (#[trigger] u[k]).can_rest()
                        && u[k].price == self.price && u[k].side == self.side by {
                        assert(u[k] == s[k + 1]);
                    }
                    assert(filled@.subrange(0, f0 as int) =~= fl.subrange(0, f0 as int));
                    assert forall|n: u64, c: Option<u64>| #[trigger] all_live(s0, n, c) implies all_live(u, n, c) by {
                        assert(all_live(s, n, c));
                        assert forall|j: int| 0 <= j < u.len() implies !expired(#[trigger] u[j].time_in_force, n, c) by {
                            assert(u[j] == s[j + 1]);
                        }
                    }
                    let nf = filled@.subrange(f0 as int, filled@.len() as int);
                    assert(nf =~= fl.subrange(f0 as int, fl.len() as int).push(head.id));
                    assert forall|x: u128| #[trigger] id_set(s).contains(x) <==> (id_set(u).contains(x) || x == head.id) by {
                        if id_set(s).contains(x) {
                            let k = choose|k: int| 0 <= k < s.len() && s[k].id == x;
                            if k > 0 { assert(u[k - 1] == s[k]); }
                        }
                        if id_set(u).contains(x) {
                            let k = choose|k: int| 0 <= k < u.len() && u[k].id == x;
                            assert(u[k] == s[k + 1]);
                        }
                        if x == head.id {
                            assert(s[0].id == x);
                        }
                    }
                    assert forall|x: u128| #[trigger] id_set(s0).contains(x) <==> (id_set(u).contains(x) || nf.contains(x)) by {
                        let of = fl.subrange(f0 as int, fl.len() as int);
                        if of.contains(x) {
                            let k = choose|k: int| 0 <= k < of.len() && of[k] == x;
                            assert(nf[k] == x);
                        }
                        if x == head.id {
                            assert(nf[nf.len() - 1] == x);
                        }
                        if nf.contains(x) {
                            let k = choose|k: int| 0 <= k < nf.len() && nf[k] == x;
                            if k < nf.len() - 1 {
                                assert(of[k] == x);
                            }
                        }
                    }
                    assert forall|k: int| f0 <= k < filled@.len() implies !id_set(u).contains(#[trigger] filled@[k]) by {
                        if k < filled@.len() - 1 {
                            assert(filled@[k] == fl[k]);
                            if id_set(u).contains(filled@[k]) {
                                let j = choose|j: int| 0 <= j < u.len() && u[j].id == filled@[k];
                                assert(u[j] == s[j + 1]);
                                assert(id_set(s).contains(filled@[k]));
                            }
                        } else {
                            if id_set(u).contains(head.id) {
                                let j = choose|j: int| 0 <= j < u.len() && u[j].id == head.id;
                                assert(u[j] == s[j + 1]);
                            }
                        }
                    }
                    if no_hidden(s0) {
                        assert forall|j: int| 0 <= j < u.len() implies #[trigger] u[j].id == s0[j + (filled@.len() - f0)].id by {
                            assert(u[j] == s[j + 1]);
                        }
                        assert forall|j: int| 0 <= j < u.len() implies #[trigger] u[j].hidden_quantity == 0 by {
                            assert(u[j] == s[j + 1]);
                        }
                        assert forall|k: int| 0 <= k < trades@.len() - t0 implies (#[trigger] trades@[t0 + k]).maker_id == s0[k].id by {
                            if k < tr.len() - t0 {
                                assert(trades@[t0 + k] == tr[t0 + k]);
                            } else {
                                assert(s[0].id == s0[0 + (fl.len() - f0)].id);
                            }
                        }
                    }
                }
            }
            proof {
                assert forall|k: int| t0 <= k < trades@.len() implies {
                    &&& (#[trigger] trades@[k]).taker_id == taker_id
                    &&& trades@[k].price == old(self).price
                    &&& trades@[k].quantity > 0
                    &&& trades@[k].timestamp == timestamp
                    &&& id_set(s0).contains(trades@[k].maker_id)
                } by {
                    if k < tr.len() {
                        assert(trades@[k] == tr[k]);
                    }
                }
            }
        }
        incoming - remaining
    }
}

/// `a` is `b` but for its visible quantity.
pub open spec fn same_but_visible(a: Order, b: Order) -> bool {
    &&& a.id == b.id
    &&& a.price == b.price
    &&& a.hidden_quantity == b.hidden_quantity
    &&& a.replenish_amount == b.replenish_amount
    &&& a.side == b.side
    &&& a.timestamp == b.timestamp
    &&& a.time_in_force == b.time_in_force
}

/// Matching a queue `s` without hidden quantity, head first: the trades
/// `ts` take the makers in queue order; the first `fs.len()` makers, whose
/// ids are `fs`, are filled in full by one trade each and leave; at most one
/// more maker, now the head of `after`, is filled in part and keeps the
/// rest; the orders behind it are untouched.
pub open spec fn fifo_outcome(s: Seq<Order>, after: Seq<Order>, ts: Seq<Transaction>, fs: Seq<u128>) -> bool {
    let f = fs.len() as int;
    &&& ts.len() == f || ts.len() == f + 1
    &&& ts.len() == f + 1 ==> after.len() > 0
    &&& after.len() + f == s.len()
    &&& forall|k: int| 0 <= k < f ==> #[trigger] fs[k] == s[k].id && ts[k].quantity == s[k].visible_quantity
    &&& forall|k: int| 0 <= k < ts.len() ==> (#[trigger] ts[k]).maker_id == s[k].id
    &&& forall|j: int| 1 <= j < after.len() ==> #[trigger] after[j] == s[j + f]
    &&& after.len() > 0 ==> same_but_visible(after[0], s[f]) && after[0].visible_quantity + (if ts.len() == f + 1 {
        ts[f].quantity as int
    } else {
        0
    }) == s[f].visible_quantity
}

/// No order of the sequence holds hidden quantity.
pub open spec fn no_hidden(s: Seq<Order>) -> bool {
    forall|j: int| 0 <= j < s.len() ==> #[trigger] s[j].hidden_quantity == 0
}

} // verus!
