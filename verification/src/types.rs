use vstd::prelude::*;

verus! {

/// A price in integer ticks (fixed point; no floating point anywhere).
#[derive(Debug, Clone, Copy, PartialEq, Eq, Structural, PartialOrd, Ord, Hash)]
pub struct Price(pub i64);

/// A quantity of units.
#[derive(Debug, Clone, Copy, PartialEq, Eq, Structural, PartialOrd, Ord)]
pub struct Qty(pub u64);

impl Default for Qty {
    fn default() -> (q: Qty)
        ensures
            q.0 == 0,
    {
        Qty(0)
    }
}

impl Qty {
    /// Subtraction that fails instead of going below zero.
    pub fn checked_sub(self, rhs: Qty) -> (r: Option<Qty>)
        ensures
            self.0 >= rhs.0 ==> r == Some(Qty((self.0 - rhs.0) as u64)),
            self.0 < rhs.0 ==> r is None,
    {
        match self.0.checked_sub(rhs.0) {
            Some(v) => Some(Qty(v)),
            None => None,
        }
    }
}

impl TryFrom<i64> for Qty {
    type Error = ();

    fn try_from(v: i64) -> (r: Result<Qty, ()>) {
        if v >= 0 {
            Ok(Qty(v as u64))
        } else {
            Err(())
        }
    }
}

impl vstd::std_specs::convert::TryFromSpecImpl<i64> for Qty {
    open spec fn obeys_try_from_spec() -> bool {
        true
    }

    open spec fn try_from_spec(v: i64) -> Result<Qty, ()> {
        if v >= 0 {
            Ok(Qty(v as u64))
        } else {
            Err(())
        }
    }
}

/// The client-assigned identity of an order.
#[derive(Debug, Clone, Copy, PartialEq, Eq, Structural, PartialOrd, Ord, Hash)]
pub struct OrderId(pub u64);

#[derive(Debug, Clone, Copy, PartialEq, Eq, Structural)]
pub enum Side {
    Buy,
    Sell,
}

#[derive(Debug, Clone, Copy, PartialEq, Eq, Structural)]
pub enum OrderType {
    Limit,
    Market,
}

#[derive(Debug, Clone, Copy, PartialEq, Eq, Structural, Hash)]
pub enum TimeInForce {
    Gtc,
    Ioc,
    Fok,
}

/// A limit order.
#[derive(Debug, Clone, Copy, PartialEq, Eq, Structural)]
pub struct Order {
    pub id: OrderId,
    pub side: Side,
    pub price: Price,
    pub qty: Qty,
}

/// One execution between an incoming (taker) and a resting (maker) order.
#[derive(Debug, Clone, Copy, PartialEq, Eq, Structural)]
pub struct Trade {
    pub taker: OrderId,
    pub maker: OrderId,
    pub taker_side: Side,
    pub price: Price,
    pub qty: Qty,
}

/// A request handed to the engine.
#[derive(Debug, Clone, Copy, PartialEq, Eq, Structural)]
pub enum Command {
    NewOrder(Order),
    CancelOrder(OrderId),
    ShutDown,
    Noop,
}

impl Default for Command {
    fn default() -> (c: Command)
        ensures
            c == Command::Noop,
    {
        Command::Noop
    }
}

/// What the engine reports back.
#[derive(Debug, Clone, Copy, PartialEq, Eq, Structural)]
pub enum Event {
    Accepted(OrderId),
    Fill(Trade),
    Rejected(OrderId, RejectReason),
    Canceled(OrderId),
    Empty,
}

impl Default for Event {
    fn default() -> (e: Event)
        ensures
            e == Event::Empty,
    {
        Event::Empty
    }
}

#[derive(Debug, Clone, Copy, PartialEq, Eq, Structural)]
pub enum RejectReason {
    OrderTooLarge,
    PositionLimit,
    SelfTrade,
    OrderNotFound,
}

} // verus!
