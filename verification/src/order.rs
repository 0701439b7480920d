//! The order record and the structured events that drive the book.

use vstd::prelude::*;

verus! {

/// The side of an order: buy interest (bids) or sell interest (asks).
/// Fixed at creation and never changed afterwards.
#[derive(Debug, Clone, Copy, PartialEq, Eq, Structural)]
pub enum OrderType {
    Buy,
    Sell,
}

/// A single order: a unique, externally assigned identifier, the side, the
/// price, and the quantity. Only the price ever changes, and only through
/// the index's update operation, which re-inserts the record.
#[derive(Debug, Clone, Copy, PartialEq, Eq, Structural)]
pub struct Order {
    pub order_id: i32,
    pub order_type: OrderType,
    pub price: i32,
    pub quantity: i32,
}

impl Order {
    /// Build an order from its four fields.
    pub fn new(order_id: i32, order_type: OrderType, price: i32, quantity: i32) -> (o: Self)
        ensures
            o == (Order { order_id, order_type, price, quantity }),
    {
        Self { order_id, order_type, price, quantity }
    }

    /// The same order with the price replaced; identifier, side and
    /// quantity are kept.
    pub fn update(&self, new_price: i32) -> (o: Order)
        ensures
            o == self.spec_update(new_price),
    {
        Order {
            order_id: self.order_id,
            order_type: self.order_type,
            price: new_price,
            quantity: self.quantity,
        }
    }

    /// What [`Order::update`] returns.
    pub open spec fn spec_update(self, new_price: i32) -> Order {
        Order { price: new_price, ..self }
    }
}

/// A structured mutation or query event, as handed over by the external
/// event source once a line has been parsed.
#[derive(Debug, Clone, Copy, PartialEq, Eq, Structural)]
pub enum Event {
    /// Create a new order; the identifier is assigned by the dispatcher.
    Create { order_type: OrderType, price: i32, quantity: i32 },
    /// Change the price of the order with this identifier, wherever it is.
    Update { id: i32, new_price: i32 },
    /// Cancel the order with this identifier, wherever it is.
    Remove { id: i32 },
    /// Dump the buy side in priority order.
    Bids,
    /// Dump the sell side in priority order.
    Asks,
}

} // verus!
