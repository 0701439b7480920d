use order_book::BuyCmp;
use order_book::Order;
use order_book::OrderComparator;
use order_book::OrderType;
use order_book::SellCmp;
use order_book::SortedOrders;
use std::cmp::Ordering;

fn buy(id: i32, price: i32, quantity: i32) -> Order {
    Order::new(id, OrderType::Buy, price, quantity)
}

fn sell(id: i32, price: i32, quantity: i32) -> Order {
    Order::new(id, OrderType::Sell, price, quantity)
}

/// Bid priority: price descending, then quantity descending, then
/// identifier ascending.
fn bid_ranks_before(a: &Order, b: &Order) -> bool {
    if a.price != b.price {
        a.price > b.price
    } else if a.quantity != b.quantity {
        a.quantity > b.quantity
    } else {
        a.order_id < b.order_id
    }
}

#[test]
fn scenario_a_bid_priority() {
    let mut bids: SortedOrders<BuyCmp> = SortedOrders::new();
    bids.insert(&buy(0, 100, 5));
    bids.insert(&buy(1, 110, 3));
    let t = bids.ordered_traversal();
    assert_eq!(t.len(), 2);
    assert_eq!(t[0], buy(1, 110, 3));
    assert_eq!(t[1], buy(0, 100, 5));
}

#[test]
fn scenario_b_update_reprices() {
    let mut asks: SortedOrders<SellCmp> = SortedOrders::new();
    asks.insert(&sell(0, 50, 2));
    let r = asks.update(0, 40);
    assert_eq!(r, Some(()));
    let t = asks.ordered_traversal();
    assert_eq!(t.len(), 1);
    assert_eq!(t[0], sell(0, 40, 2));
}

#[test]
fn scenario_c_split_keeps_everything() {
    let mut bids: SortedOrders<BuyCmp> = SortedOrders::with_max_chunk_size(4);
    let n: i32 = 25;
    for i in 0..n {
        // A mix of rising and falling prices so both chunk ends see traffic.
        let price = if i % 2 == 0 { 100 + i } else { 100 - i };
        bids.insert(&buy(i, price, 1 + (i % 3)));
    }
    assert!(bids.chunk_count() > 1);
    let t = bids.ordered_traversal();
    assert_eq!(t.len(), n as usize);
    assert_eq!(bids.len(), t.len());
    for w in t.windows(2) {
        assert!(bid_ranks_before(&w[0], &w[1]));
    }
    let mut seen = vec![false; n as usize];
    for o in &t {
        assert!(!seen[o.order_id as usize]);
        seen[o.order_id as usize] = true;
    }
    assert!(seen.iter().all(|s| *s));
}

#[test]
fn scenario_d_remove_unknown_is_noop() {
    let mut bids: SortedOrders<BuyCmp> = SortedOrders::new();
    bids.insert(&buy(0, 100, 5));
    let before = bids.ordered_traversal();
    let r = bids.remove_by_id(999);
    assert_eq!(r, None);
    let after = bids.ordered_traversal();
    assert_eq!(before, after);
    assert_eq!(bids.len(), 1);
    assert!(!bids.is_empty());
}

#[test]
fn removal_is_idempotent() {
    let mut bids: SortedOrders<BuyCmp> = SortedOrders::new();
    bids.insert(&buy(0, 100, 5));
    bids.insert(&buy(1, 90, 2));
    assert_eq!(bids.remove_by_id(1), Some(buy(1, 90, 2)));
    let once = bids.ordered_traversal();
    assert_eq!(bids.remove_by_id(1), None);
    let twice = bids.ordered_traversal();
    assert_eq!(once, twice);
    assert_eq!(bids.len(), 1);
}

#[test]
fn removed_identifier_leaves_traversal() {
    let mut bids: SortedOrders<BuyCmp> = SortedOrders::new();
    for i in 0..10 {
        bids.insert(&buy(i, 100 + i, 1));
    }
    bids.remove_by_id(4);
    let t = bids.ordered_traversal();
    assert_eq!(t.len(), 9);
    assert!(t.iter().all(|o| o.order_id != 4));
    for i in 0..10 {
        bids.remove_by_id(i);
    }
    assert!(bids.is_empty());
    assert_eq!(bids.ordered_traversal().len(), 0);
}

#[test]
fn update_matches_remove_then_insert() {
    let inserts = [
        (0, 100, 5),
        (1, 110, 3),
        (2, 100, 5),
        (3, 90, 7),
        (4, 110, 3),
    ];
    let mut with_update: SortedOrders<BuyCmp> = SortedOrders::new();
    let mut with_reinsert: SortedOrders<BuyCmp> = SortedOrders::new();
    for (id, price, qty) in inserts {
        with_update.insert(&buy(id, price, qty));
        with_reinsert.insert(&buy(id, price, qty));
    }
    assert_eq!(with_update.update(2, 120), Some(()));
    let removed = with_reinsert.remove_by_id(2).unwrap();
    with_reinsert.insert(&removed.update(120));
    assert_eq!(with_update.ordered_traversal(), with_reinsert.ordered_traversal());
}

#[test]
fn update_unknown_is_noop() {
    let mut asks: SortedOrders<SellCmp> = SortedOrders::new();
    asks.insert(&sell(0, 50, 2));
    let before = asks.ordered_traversal();
    assert_eq!(asks.update(7, 10), None);
    assert_eq!(before, asks.ordered_traversal());
}

#[test]
fn traversal_sorted_through_mixed_mutations() {
    let mut bids: SortedOrders<BuyCmp> = SortedOrders::with_max_chunk_size(3);
    let mut next_id: i32 = 0;
    for round in 0..6 {
        for p in [105, 95, 100, 110, 90] {
            bids.insert(&buy(next_id, p + round, round % 4));
            next_id += 1;
        }
        bids.remove_by_id(round * 3);
        bids.update(round * 5 + 1, 97);
    }
    let t = bids.ordered_traversal();
    assert_eq!(t.len(), bids.len());
    for w in t.windows(2) {
        assert!(bid_ranks_before(&w[0], &w[1]));
    }
}

#[test]
fn equal_price_and_quantity_ties_break_by_identifier() {
    let mut bids: SortedOrders<BuyCmp> = SortedOrders::new();
    bids.insert(&buy(5, 100, 1));
    bids.insert(&buy(2, 100, 1));
    bids.insert(&buy(9, 100, 1));
    let t = bids.ordered_traversal();
    let ids: Vec<i32> = t.iter().map(|o| o.order_id).collect();
    assert_eq!(ids, vec![2, 5, 9]);
}

#[test]
fn empty_index_reports_empty() {
    let bids: SortedOrders<BuyCmp> = SortedOrders::new();
    assert!(bids.is_empty());
    assert_eq!(bids.len(), 0);
    assert_eq!(bids.chunk_count(), 0);
    assert_eq!(bids.ordered_traversal().len(), 0);
}

#[test]
fn buy_comparator_orders_by_price_descending() {
    let high = buy(0, 110, 1);
    let low = buy(1, 100, 1);
    assert_eq!(<BuyCmp as OrderComparator>::cmp(&high, &low), Ordering::Less);
    assert_eq!(<BuyCmp as OrderComparator>::cmp(&low, &high), Ordering::Greater);
    assert_eq!(<BuyCmp as OrderComparator>::cmp(&high, &high), Ordering::Equal);
    let big = buy(2, 110, 9);
    assert_eq!(<BuyCmp as OrderComparator>::cmp(&big, &high), Ordering::Less);
}

#[test]
fn sell_comparator_orders_by_price_ascending() {
    let cheap = sell(0, 40, 1);
    let dear = sell(1, 50, 1);
    assert_eq!(<SellCmp as OrderComparator>::cmp(&cheap, &dear), Ordering::Less);
    assert_eq!(<SellCmp as OrderComparator>::cmp(&dear, &cheap), Ordering::Greater);
    let small = sell(2, 40, 0);
    assert_eq!(<SellCmp as OrderComparator>::cmp(&small, &cheap), Ordering::Less);
}

#[test]
fn order_new_and_update_keep_fields() {
    let o = Order::new(7, OrderType::Sell, 55, 3);
    assert_eq!(o.order_id, 7);
    assert_eq!(o.order_type, OrderType::Sell);
    assert_eq!(o.price, 55);
    assert_eq!(o.quantity, 3);
    let u = o.update(60);
    assert_eq!(u.order_id, 7);
    assert_eq!(u.order_type, OrderType::Sell);
    assert_eq!(u.price, 60);
    assert_eq!(u.quantity, 3);
    assert_eq!(o.price, 55);
}

#[test]
fn negative_prices_sort_correctly() {
    let mut asks: SortedOrders<SellCmp> = SortedOrders::new();
    asks.insert(&sell(0, 5, 1));
    asks.insert(&sell(1, -10, 1));
    asks.insert(&sell(2, 0, 1));
    let ids: Vec<i32> = asks.ordered_traversal().iter().map(|o| o.order_id).collect();
    assert_eq!(ids, vec![1, 2, 0]);
}
