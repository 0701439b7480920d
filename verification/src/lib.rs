//! A two-sided limit order book built on a chunked, sorted order index.
//!
//! The core container, [`index::SortedOrders`], keeps an unbounded set of
//! orders as a sequence of bounded-size sorted chunks together with an
//! identifier-to-order map, so that the best-priced order is always first in
//! the ordered traversal and lookups by identifier are done through the map.
//! [`book::Book`] holds one index per side (bids and asks) and routes events
//! to them.

pub mod book;
pub mod cmp;
pub mod idmap;
pub mod index;
pub mod order;

pub use book::Book;
pub use cmp::BuyCmp;
pub use cmp::OrderComparator;
pub use cmp::SellCmp;
pub use index::SortedOrders;
pub use order::Event;
pub use order::Order;
pub use order::OrderType;
