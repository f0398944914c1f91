//! Reading resting orders back out of the book.
use vstd::prelude::*;
use crate::book::OrderBook;
use crate::level::PriceLevel;
use crate::store::{ascending_keys, level_map_get, level_map_keys, levels_of, location_get};
use crate::types::{Order, Side};

verus! {

/// The orders of the levels at `keys`, level after level, each level in
/// time priority.
pub open spec fn orders_along(m: Map<u64, PriceLevel>, keys: Seq<u64>) -> Seq<Order>
    decreases keys.len(),
{
    if keys.len() == 0 {
        Seq::empty()
    } else {
        orders_along(m, keys.drop_last()) + m[keys.last()].orders@
    }
}

impl OrderBook {
    /// The resting order with `order_id`, if any.
    pub fn get_order(&self, order_id: u128) -> (r: Option<Order>)
        requires
            self.wf(),
        ensures
            r is Some <==> self.locations().dom().contains(order_id),
            r is Some ==> {
                let (p, s) = self.locations()[order_id];
                &&& r->0.id == order_id
                &&& exists|i: int| 0 <= i < self.side_levels(s)[p].orders@.len() && #[trigger] self.side_levels(s)[p].orders@[i] == r->0
            },
    {
        let (price, side) = match location_get(&self.order_locations, order_id) {
            None => return None,
            Some(loc) => loc,
        };
        let got = match side {
            Side::Buy => level_map_get(&self.bids, price),
            Side::Sell => level_map_get(&self.asks, price),
        };
        assert(self.side_levels(side).dom().contains(price));
        let level = match got {
            None => return None,
            Some(l) => l,
        };
        match level.find(order_id) {
            None => None,
            Some(i) => {
                let o = level.orders[i];
                assert(self.side_levels(side)[price].orders@[i as int] == o);
                Some(o)
            },
        }
    }

    /// The orders resting at `price` on `side`, in time priority.
    pub fn get_orders_at_price(&self, price: u64, side: Side) -> (r: Vec<Order>)
        requires
            self.wf(),
        ensures
            self.side_levels(side).dom().contains(price) ==> r@ == self.side_levels(side)[price].orders@,
            !self.side_levels(side).dom().contains(price) ==> r@.len() == 0,
    {
        let got = match side {
            Side::Buy => level_map_get(&self.bids, price),
            Side::Sell => level_map_get(&self.asks, price),
        };
        match got {
            None => Vec::new(),
            Some(l) => l.orders,
        }
    }

    /// Every resting order: the bids, then the asks, each side by ascending
    /// price and each level in time priority.
    pub fn get_all_orders(&self) -> (r: Vec<Order>)
        requires
            self.wf(),
        ensures
            r@ == orders_along(self.side_levels(Side::Buy), ascending_keys(self.side_levels(Side::Buy))) + orders_along(
                self.side_levels(Side::Sell),
                ascending_keys(self.side_levels(Side::Sell)),
            ),
    {
        let mut bids = self.orders_of_side(Side::Buy);
        let mut asks = self.orders_of_side(Side::Sell);
        bids.append(&mut asks);
        bids
    }

    fn orders_of_side(&self, side: Side) -> (r: Vec<Order>)
        requires
            self.wf(),
        ensures
            r@ == orders_along(self.side_levels(side), ascending_keys(self.side_levels(side))),
    {
        let keys = match side {
            Side::Buy => level_map_keys(&self.bids),
            Side::Sell => level_map_keys(&self.asks),
        };
        let mut out: Vec<Order> = Vec::new();
        let mut i: usize = 0;
        proof {
            assert(keys@.subrange(0, 0) =~= Seq::<u64>::empty());
        }
        while i < keys.len()
            invariant
                self.wf(),
                i <= keys@.len(),
                keys@ == ascending_keys(self.side_levels(side)),
                forall|k: u64| self.side_levels(side).dom().contains(k) <==> keys@.contains(k),
                out@ == orders_along(self.side_levels(side), keys@.subrange(0, i as int)),
            decreases keys@.len() - i,
        {
            let k = keys[i];
            proof {
                assert(keys@.contains(k));
                if side == Side::Buy {
                    assert(levels_of(self.bids).dom().contains(k));
                } else {
                    assert(levels_of(self.asks).dom().contains(k));
                }
                assert(keys@.subrange(0, i + 1).drop_last() =~= keys@.subrange(0, i as int));
                assert(keys@.subrange(0, i + 1).last() == k);
            }
            let got = match side {
                Side::Buy => level_map_get(&self.bids, k),
                Side::Sell => level_map_get(&self.asks, k),
            };
            let mut level_orders = match got {
                None => Vec::new(),
                Some(l) => l.orders,
            };
            out.append(&mut level_orders);
            i = i + 1;
        }
        proof {
            assert(keys@.subrange(0, keys@.len() as int) =~= keys@);
        }
        out
    }
}

} // verus!
