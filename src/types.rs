use vstd::prelude::*;

verus! {

/// Which side of the book an order is on.
#[derive(Clone, Copy, Debug, PartialEq, Eq, Structural)]
pub enum Side {
    SideBuy,
    SideSell,
}

#[derive(Clone, Copy, Debug, PartialEq, Eq, Structural)]
pub enum OrderType {
    OrderTypeLimit,
    OrderTypeMarket,
}

/// Carried through the logs; the engine does not interpret it.
#[derive(Clone, Copy, Debug, PartialEq, Eq, Structural)]
pub enum TimeInForceType {
    GoodTillCanceled,
    ImmediateOrCancel,
    GoodTillCrossing,
    FillOrKill,
}

#[derive(Clone, Copy, Debug, PartialEq, Eq, Structural)]
pub enum DoneReason {
    Filled,
    Cancelled,
}

/// An order event as the dispatcher hands it to the engine.
#[derive(Clone, Copy, Debug, PartialEq, Eq, Structural)]
pub struct Order {
    pub id: u64,
    pub user_id: u64,
    pub side: Side,
    pub order_type: OrderType,
    pub time_in_force: TimeInForceType,
    /// In lots of `10^-base_scale` base units.
    pub size: u64,
    /// In units of one lot times one price tick.
    pub funds: u128,
    /// In quote ticks per whole base unit; meaningful for limit orders.
    pub price: u64,
}

/// The traded product.
#[derive(Clone, Debug)]
pub struct Product {
    pub id: String,
    /// Decimal places of a base-asset size: one lot is `10^-base_scale`.
    pub base_scale: u32,
}

impl Product {
    pub fn copy(&self) -> (r: Product)
        ensures
            r == *self,
    {
        Product { id: self.id.clone(), base_scale: self.base_scale }
    }
}

} // verus!
