use vstd::prelude::*;

verus! {

/// The side of the book an order rests on.
#[derive(Clone, Copy, Debug, PartialEq, Eq, Structural)]
pub enum Side {
    Buy,
    Sell,
}

impl Side {
    /// The side an incoming order of this side trades against.
    pub fn opposite(self) -> (r: Side)
        ensures
            r == self.opposite_spec(),
    {
        match self {
            Side::Buy => Side::Sell,
            Side::Sell => Side::Buy,
        }
    }

    pub open spec fn opposite_spec(self) -> Side {
        match self {
            Side::Buy => Side::Sell,
            Side::Sell => Side::Buy,
        }
    }
}

/// How long an order may rest on the book.
#[derive(Clone, Copy, Debug, PartialEq, Eq, Structural)]
pub enum TimeInForce {
    /// Good till cancelled.
    Gtc,
    /// Immediate or cancel: nothing rests.
    Ioc,
    /// Fill or kill: fully filled at once, or nothing happens.
    Fok,
    /// Good till the given millisecond timestamp.
    Gtd(u64),
    /// Good till the book's market close.
    Day,
}

/// Whether an order with this time in force has expired at `now`, given
/// the market close (if one is set).
pub open spec fn expired(tif: TimeInForce, now: u64, market_close: Option<u64>) -> bool {
    match tif {
        TimeInForce::Gtd(expiry) => expiry <= now,
        TimeInForce::Day => market_close is Some && market_close->0 <= now,
        _ => false,
    }
}

/// Executable form of [`expired`].
pub fn has_expired(tif: TimeInForce, now: u64, market_close: Option<u64>) -> (r: bool)
    ensures
        r == expired(tif, now, market_close),
{
    match tif {
        TimeInForce::Gtd(expiry) => expiry <= now,
        TimeInForce::Day => match market_close {
            Some(close) => close <= now,
            None => false,
        },
        _ => false,
    }
}

/// A resting order. Plain orders have no hidden quantity; iceberg and
/// reserve orders show `visible_quantity` and refill it from
/// `hidden_quantity` by `replenish_amount` at a time.
#[derive(Clone, Copy, Debug, PartialEq, Eq, Structural)]
pub struct Order {
    pub id: u128,
    pub price: u64,
    pub visible_quantity: u64,
    pub hidden_quantity: u64,
    pub replenish_amount: u64,
    pub side: Side,
    pub timestamp: u64,
    pub time_in_force: TimeInForce,
}

impl Order {
    /// Visible plus hidden quantity, as a mathematical integer.
    pub open spec fn total_spec(self) -> int {
        self.visible_quantity + self.hidden_quantity
    }

    /// An order that can rest on a level: something is visible, and hidden
    /// quantity can always be brought forward.
    pub open spec fn can_rest(self) -> bool {
        &&& self.visible_quantity > 0
        &&& (self.hidden_quantity > 0 ==> self.replenish_amount > 0)
    }
}

/// One execution between a resting maker and an incoming taker.
#[derive(Clone, Copy, Debug, PartialEq, Eq, Structural)]
pub struct Transaction {
    pub transaction_id: u64,
    pub maker_id: u128,
    pub taker_id: u128,
    pub price: u64,
    pub quantity: u64,
    pub timestamp: u64,
}

/// Sum of the quantities of a sequence of transactions.
pub open spec fn traded_sum(t: Seq<Transaction>) -> int
    decreases t.len(),
{
    if t.len() == 0 {
        0
    } else {
        traded_sum(t.drop_last()) + t.last().quantity
    }
}

pub proof fn lemma_traded_sum_push(t: Seq<Transaction>, x: Transaction)
    ensures
        traded_sum(t.push(x)) == traded_sum(t) + x.quantity,
{
    assert(t.push(x).drop_last() =~= t);
}

pub proof fn lemma_traded_sum_nonneg(t: Seq<Transaction>)
    ensures
        traded_sum(t) >= 0,
    decreases t.len(),
{
    if t.len() > 0 {
        lemma_traded_sum_nonneg(t.drop_last());
    }
}

} // verus!
