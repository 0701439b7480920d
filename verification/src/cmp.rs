//! The pluggable total order over orders: one strategy per side.

use core::cmp::Ordering;
use vstd::prelude::*;

use crate::order::Order;

verus! {

/// Strict lexicographic order on integer key triples: the first component
/// decides, then the second, then the third.
pub open spec fn lex_lt(a: (int, int, int), b: (int, int, int)) -> bool {
    ||| a.0 < b.0
    ||| (a.0 == b.0 && a.1 < b.1)
    ||| (a.0 == b.0 && a.1 == b.1 && a.2 < b.2)
}

/// A stateless total-order policy over orders. The policy is given by a
/// sort key: an order ranks before another exactly when its key is
/// lexicographically smaller. The last key component must be the order's
/// identifier, so that no two records with distinct identifiers ever
/// compare equal and removal by value stays unambiguous.
pub trait OrderComparator {
    /// The sort key of an order under this policy.
    spec fn key(o: Order) -> (int, int, int);

    /// The identifier is the mandatory final tie-break: the last key
    /// component is the identifier itself.
    proof fn key_id(o: Order)
        ensures
            Self::key(o).2 == o.order_id as int,
    ;

    /// Compare two orders under this policy.
    fn cmp(a: &Order, b: &Order) -> (r: Ordering)
        ensures
            r == Ordering::Less <==> lex_lt(Self::key(*a), Self::key(*b)),
            r == Ordering::Greater <==> lex_lt(Self::key(*b), Self::key(*a)),
            r == Ordering::Equal <==> Self::key(*a) == Self::key(*b),
    ;
}

/// The buy-side (bid) order: highest price first, then highest quantity,
/// then lowest identifier.
#[derive(Clone, Copy)]
pub struct BuyCmp;

impl OrderComparator for BuyCmp {
    open spec fn key(o: Order) -> (int, int, int) {
        (-(o.price as int), -(o.quantity as int), o.order_id as int)
    }

    proof fn key_id(o: Order) {
    }

    fn cmp(a: &Order, b: &Order) -> (r: Ordering) {
        if b.price < a.price {
            Ordering::Less
        } else if a.price < b.price {
            Ordering::Greater
        } else if b.quantity < a.quantity {
            Ordering::Less
        } else if a.quantity < b.quantity {
            Ordering::Greater
        } else if a.order_id < b.order_id {
            Ordering::Less
        } else if b.order_id < a.order_id {
            Ordering::Greater
        } else {
            Ordering::Equal
        }
    }
}

/// The sell-side (ask) order: lowest price first, then lowest quantity,
/// then lowest identifier.
#[derive(Clone, Copy)]
pub struct SellCmp;

impl OrderComparator for SellCmp {
    open spec fn key(o: Order) -> (int, int, int) {
        (o.price as int, o.quantity as int, o.order_id as int)
    }

    proof fn key_id(o: Order) {
    }

    fn cmp(a: &Order, b: &Order) -> (r: Ordering) {
        if a.price < b.price {
            Ordering::Less
        } else if b.price < a.price {
            Ordering::Greater
        } else if a.quantity < b.quantity {
            Ordering::Less
        } else if b.quantity < a.quantity {
            Ordering::Greater
        } else if a.order_id < b.order_id {
            Ordering::Less
        } else if b.order_id < a.order_id {
            Ordering::Greater
        } else {
            Ordering::Equal
        }
    }
}

} // verus!
