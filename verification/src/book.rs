//! The book pair: one chunked sorted index per side, driven by the
//! structured event stream.

use vstd::prelude::*;

use crate::cmp::BuyCmp;
use crate::cmp::SellCmp;
use crate::index::SortedOrders;
use crate::order::Event;
use crate::order::Order;
use crate::order::OrderType;

verus! {

/// The record a creation event gives rise to, once the dispatcher has
/// assigned it the next identifier.
pub open spec fn created_order(
    order_id: i32,
    order_type: OrderType,
    price: i32,
    quantity: i32,
) -> Order {
    Order { order_id, order_type, price, quantity }
}

/// What an update does to one side's identifier map: reprice the record
/// if the identifier is present, otherwise change nothing.
pub open spec fn updated_side(m: Map<i32, Order>, id: i32, new_price: i32) -> Map<i32, Order> {
    if m.dom().contains(id) {
        m.insert(id, m[id].spec_update(new_price))
    } else {
        m
    }
}

/// What a removal does to one side's identifier map: drop the record if
/// the identifier is present, otherwise change nothing.
pub open spec fn removed_side(m: Map<i32, Order>, id: i32) -> Map<i32, Order> {
    if m.dom().contains(id) {
        m.remove(id)
    } else {
        m
    }
}

/// Both sides of the order book plus the identifier counter for
/// creations. Update and removal events carry only an identifier, not a
/// side, so they are tried on the bid side first and fall through to the
/// ask side; the two sides never share an identifier, so at most one
/// side is touched.
pub struct Book {
    bids: SortedOrders<BuyCmp>,
    asks: SortedOrders<SellCmp>,
    next_id: i32,
}

impl Book {
    /// The bid side's identifier map.
    pub closed spec fn bids_view(self) -> Map<i32, Order> {
        self.bids@
    }

    /// The ask side's identifier map.
    pub closed spec fn asks_view(self) -> Map<i32, Order> {
        self.asks@
    }

    /// The bid side's ordered traversal.
    pub closed spec fn bids_seq(self) -> Seq<Order> {
        self.bids.seq_view()
    }

    /// The ask side's ordered traversal.
    pub closed spec fn asks_seq(self) -> Seq<Order> {
        self.asks.seq_view()
    }

    /// The identifier the next creation will be assigned.
    pub closed spec fn next_id_spec(self) -> i32 {
        self.next_id
    }

    /// Well-formed: both sides are well-formed, every identifier on
    /// either side was assigned before the counter's current value, the
    /// sides are disjoint, and each side holds only its own kind of
    /// order.
    pub closed spec fn wf(self) -> bool {
        &&& self.bids.wf()
        &&& self.asks.wf()
        &&& 0 <= self.next_id
        &&& forall|id: i32| #[trigger] self.bids@.dom().contains(id) ==> id < self.next_id
        &&& forall|id: i32| #[trigger] self.asks@.dom().contains(id) ==> id < self.next_id
        &&& forall|id: i32|
            !(#[trigger] self.bids@.dom().contains(id) && #[trigger] self.asks@.dom().contains(id))
        &&& forall|id: i32|
            #[trigger] self.bids@.dom().contains(id) ==> self.bids@[id].order_type
                == OrderType::Buy
        &&& forall|id: i32|
            #[trigger] self.asks@.dom().contains(id) ==> self.asks@[id].order_type
                == OrderType::Sell
    }

    /// What applying a creation event promises of the new state.
    pub open spec fn create_post(self, post: Book, order_type: OrderType, price: i32, quantity: i32) -> bool {
        let o = created_order(self.next_id_spec(), order_type, price, quantity);
        &&& post.next_id_spec() == self.next_id_spec() + 1
        &&& (order_type == OrderType::Buy ==> post.bids_view() == self.bids_view().insert(
            self.next_id_spec(),
            o,
        ) && post.asks_view() == self.asks_view())
        &&& (order_type == OrderType::Sell ==> post.asks_view() == self.asks_view().insert(
            self.next_id_spec(),
            o,
        ) && post.bids_view() == self.bids_view())
    }

    /// What applying an update event promises of the new state: the side
    /// holding the identifier has the record repriced, the other side is
    /// untouched, and an unknown identifier changes nothing.
    pub open spec fn update_post(self, post: Book, id: i32, new_price: i32) -> bool {
        &&& post.next_id_spec() == self.next_id_spec()
        &&& post.bids_view() == updated_side(self.bids_view(), id, new_price)
        &&& post.asks_view() == updated_side(self.asks_view(), id, new_price)
    }

    /// What applying a removal event promises of the new state: the side
    /// holding the identifier loses the record, the other side is
    /// untouched, and an unknown identifier changes nothing.
    pub open spec fn remove_post(self, post: Book, id: i32) -> bool {
        &&& post.next_id_spec() == self.next_id_spec()
        &&& post.bids_view() == removed_side(self.bids_view(), id)
        &&& post.asks_view() == removed_side(self.asks_view(), id)
    }

    /// An empty book: both sides empty, identifiers starting at zero.
    pub fn new() -> (b: Book)
        ensures
            b.wf(),
            b.bids_view() == crate::idmap::id_map_empty(),
            b.asks_view() == crate::idmap::id_map_empty(),
            b.bids_seq() == Seq::<Order>::empty(),
            b.asks_seq() == Seq::<Order>::empty(),
            b.next_id_spec() == 0,
    {
        Book { bids: SortedOrders::new(), asks: SortedOrders::new(), next_id: 0 }
    }

    /// Apply one event to the book. Mutation events produce no output; a
    /// dump event for a non-empty side hands back that side's ordered
    /// traversal, and a dump of an empty side produces nothing at all.
    pub fn apply(&mut self, event: &Event) -> (out: Option<Vec<Order>>)
        requires
            old(self).wf(),
            (*event) is Create ==> old(self).next_id_spec() < i32::MAX,
        ensures
            final(self).wf(),
            (match *event {
                Event::Create { order_type, price, quantity } => out == None::<Vec<Order>>
                    && old(self).create_post(*final(self), order_type, price, quantity),
                Event::Update { id, new_price } => out == None::<Vec<Order>>
                    && old(self).update_post(*final(self), id, new_price),
                Event::Remove { id } => out == None::<Vec<Order>>
                    && old(self).remove_post(*final(self), id),
                Event::Bids => *final(self) == *old(self)
                    && (old(self).bids_seq().len() > 0 ==> (out matches Some(v)
                        && v@ == old(self).bids_seq()))
                    && (old(self).bids_seq().len() == 0 ==> out == None::<Vec<Order>>),
                Event::Asks => *final(self) == *old(self)
                    && (old(self).asks_seq().len() > 0 ==> (out matches Some(v)
                        && v@ == old(self).asks_seq()))
                    && (old(self).asks_seq().len() == 0 ==> out == None::<Vec<Order>>),
            }),
    {
        match *event {
            Event::Create { order_type, price, quantity } => {
                let id = self.next_id;
                self.next_id = self.next_id + 1;
                let o = Order::new(id, order_type, price, quantity);
                if order_type == OrderType::Buy {
                    proof {
                        assert(!self.bids@.dom().contains(id));
                    }
                    self.bids.insert(&o);
                } else {
                    proof {
                        assert(!self.asks@.dom().contains(id));
                        assert(o.order_type == OrderType::Sell);
                    }
                    self.asks.insert(&o);
                }
                None
            },
            Event::Update { id, new_price } => {
                let r = self.bids.update(id, new_price);
                if r.is_none() {
                    self.asks.update(id, new_price);
                }
                None
            },
            Event::Remove { id } => {
                let r = self.bids.remove_by_id(id);
                if r.is_none() {
                    self.asks.remove_by_id(id);
                }
                None
            },
            Event::Bids => {
                if self.bids.is_empty() {
                    None
                } else {
                    Some(self.bids.ordered_traversal())
                }
            },
            Event::Asks => {
                if self.asks.is_empty() {
                    None
                } else {
                    Some(self.asks.ordered_traversal())
                }
            },
        }
    }
}

} // verus!
