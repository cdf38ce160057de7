//! Matching core of a central-limit order book for one product.
//!
//! Amounts are fixed-point integers: a size counts lots of `10^-base_scale`
//! base units, a price counts ticks of the quote asset per whole base unit,
//! and funds count the product of one lot and one tick, so that the cost of a
//! trade is exactly `size * price`.
pub mod types;
pub mod ordering;
pub mod window;
pub mod depth;
pub mod log;
pub mod order_book;
