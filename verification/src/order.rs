//! Per-order state for the matching engine: identity, side, limit price,
//! initial and remaining quantity, and time-in-force.

use vstd::prelude::*;

verus! {

/// Integer price in ticks. Positive for live orders; zero is reserved for
/// "unset".
pub type Price = i64;

/// Order or level quantity in units.
pub type Quantity = u64;

/// Identifier of an order, unique within one matching book.
pub type OrderId = u64;

#[derive(Debug, PartialEq, Eq, Clone, Copy, Structural)]
pub enum OrderType {
    /// Rests until filled or explicitly cancelled.
    GoodToCancel,
    /// Fills what it can immediately; any residue is cancelled before the
    /// submit call returns.
    FillAndKill,
}

#[derive(Debug, PartialEq, Eq, Clone, Copy, Structural)]
pub enum Side {
    Buy,
    Sell,
}

#[derive(Debug, PartialEq, Eq, Clone, Copy, Structural)]
pub struct Order {
    pub order_id: OrderId,
    pub price: Price,
    pub remaining_quantity: Quantity,
    pub initial_quantity: Quantity,
    pub order_type: OrderType,
    pub side: Side,
}

/// An order the book will admit: a positive limit price, a positive initial
/// quantity, and a remaining quantity no larger than the initial one.
pub open spec fn order_wf(o: Order) -> bool {
    0 < o.price && 0 < o.initial_quantity && o.remaining_quantity <= o.initial_quantity
}

impl Order {
    /// A fresh order: remaining quantity starts equal to the initial quantity.
    pub fn new(
        order_id: OrderId,
        price: Price,
        quantity: Quantity,
        order_type: OrderType,
        side: Side,
    ) -> (o: Order)
        ensures
            o == (Order {
                order_id,
                price,
                remaining_quantity: quantity,
                initial_quantity: quantity,
                order_type,
                side,
            }),
    {
        Order {
            order_id,
            price,
            remaining_quantity: quantity,
            initial_quantity: quantity,
            order_type,
            side,
        }
    }

    /// How much of the order has been filled so far.
    pub fn get_fill_quantity(&self) -> (q: Quantity)
        requires
            self.remaining_quantity <= self.initial_quantity,
        ensures
            q == self.initial_quantity - self.remaining_quantity,
    {
        self.initial_quantity - self.remaining_quantity
    }

    /// Consume `quantity` units of the order. A fill larger than the
    /// remaining quantity is a programmer error and is ruled out here.
    pub fn fill(&mut self, quantity: Quantity)
        requires
            quantity <= old(self).remaining_quantity,
        ensures
            *final(self) == (Order {
                remaining_quantity: (old(self).remaining_quantity - quantity) as Quantity,
                ..*old(self)
            }),
    {
        self.remaining_quantity = self.remaining_quantity - quantity;
    }

    pub fn is_filled(&self) -> (b: bool)
        ensures
            b == (self.remaining_quantity == 0),
    {
        self.remaining_quantity == 0
    }
}

/// A request to replace a resting order: the order keeps its identifier and
/// time-in-force but takes the new side, price and quantity, and loses its
/// place in the queue.
#[derive(Debug, PartialEq, Eq, Clone, Copy, Structural)]
pub struct OrderModify {
    pub order_id: OrderId,
    pub side: Side,
    pub price: Price,
    pub quantity: Quantity,
}

impl OrderModify {
    pub fn new(order_id: OrderId, side: Side, price: Price, quantity: Quantity) -> (m: OrderModify)
        ensures
            m == (OrderModify { order_id, side, price, quantity }),
    {
        OrderModify { order_id, side, price, quantity }
    }
}

/// One leg of a trade: the order it filled, the price of that leg, and the
/// quantity exchanged.
#[derive(Debug, PartialEq, Eq, Clone, Copy, Structural)]
pub struct TradeInfo {
    pub order_id: OrderId,
    pub price: Price,
    pub quantity: Quantity,
}

/// A single match between a buy order and a sell order. Each leg reports its
/// own order's limit price; both legs exchange the same quantity.
#[derive(Debug, PartialEq, Eq, Clone, Copy, Structural)]
pub struct Trade {
    pub bid_trade: TradeInfo,
    pub ask_trade: TradeInfo,
}

} // verus!
