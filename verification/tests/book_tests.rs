use order_book::Book;
use order_book::Event;
use order_book::Order;
use order_book::OrderType;

#[test]
fn book_scenario_a_bid_dump_in_priority_order() {
    let mut book = Book::new();
    assert_eq!(
        book.apply(&Event::Create { order_type: OrderType::Buy, price: 100, quantity: 5 }),
        None
    );
    assert_eq!(
        book.apply(&Event::Create { order_type: OrderType::Buy, price: 110, quantity: 3 }),
        None
    );
    let out = book.apply(&Event::Bids).expect("two bids should be dumped");
    assert_eq!(
        out,
        vec![
            Order::new(1, OrderType::Buy, 110, 3),
            Order::new(0, OrderType::Buy, 100, 5),
        ]
    );
}

#[test]
fn book_scenario_b_update_moves_ask() {
    let mut book = Book::new();
    book.apply(&Event::Create { order_type: OrderType::Sell, price: 50, quantity: 2 });
    book.apply(&Event::Update { id: 0, new_price: 40 });
    let out = book.apply(&Event::Asks).expect("one ask should be dumped");
    assert_eq!(out, vec![Order::new(0, OrderType::Sell, 40, 2)]);
}

#[test]
fn book_scenario_d_remove_unknown_changes_nothing() {
    let mut book = Book::new();
    book.apply(&Event::Create { order_type: OrderType::Buy, price: 100, quantity: 1 });
    let before = book.apply(&Event::Bids);
    assert_eq!(book.apply(&Event::Remove { id: 999 }), None);
    let after = book.apply(&Event::Bids);
    assert_eq!(before, after);
}

#[test]
fn book_scenario_e_empty_side_dumps_nothing() {
    let mut book = Book::new();
    assert_eq!(book.apply(&Event::Bids), None);
    assert_eq!(book.apply(&Event::Asks), None);
    book.apply(&Event::Create { order_type: OrderType::Buy, price: 10, quantity: 1 });
    assert_eq!(book.apply(&Event::Asks), None);
}

#[test]
fn book_routes_creations_by_side() {
    let mut book = Book::new();
    book.apply(&Event::Create { order_type: OrderType::Buy, price: 100, quantity: 1 });
    book.apply(&Event::Create { order_type: OrderType::Sell, price: 105, quantity: 2 });
    let bids = book.apply(&Event::Bids).expect("bid side holds one order");
    let asks = book.apply(&Event::Asks).expect("ask side holds one order");
    assert_eq!(bids, vec![Order::new(0, OrderType::Buy, 100, 1)]);
    assert_eq!(asks, vec![Order::new(1, OrderType::Sell, 105, 2)]);
}

#[test]
fn book_update_reaches_the_ask_side() {
    let mut book = Book::new();
    book.apply(&Event::Create { order_type: OrderType::Buy, price: 100, quantity: 1 });
    book.apply(&Event::Create { order_type: OrderType::Sell, price: 200, quantity: 4 });
    book.apply(&Event::Update { id: 1, new_price: 150 });
    let bids = book.apply(&Event::Bids).expect("bid side untouched");
    let asks = book.apply(&Event::Asks).expect("ask side repriced");
    assert_eq!(bids, vec![Order::new(0, OrderType::Buy, 100, 1)]);
    assert_eq!(asks, vec![Order::new(1, OrderType::Sell, 150, 4)]);
}

#[test]
fn book_remove_reaches_either_side() {
    let mut book = Book::new();
    book.apply(&Event::Create { order_type: OrderType::Buy, price: 100, quantity: 1 });
    book.apply(&Event::Create { order_type: OrderType::Sell, price: 200, quantity: 4 });
    book.apply(&Event::Remove { id: 0 });
    assert_eq!(book.apply(&Event::Bids), None);
    book.apply(&Event::Remove { id: 1 });
    assert_eq!(book.apply(&Event::Asks), None);
}

#[test]
fn book_assigns_identifiers_in_creation_order() {
    let mut book = Book::new();
    for i in 0..5 {
        book.apply(&Event::Create { order_type: OrderType::Buy, price: 100 + i, quantity: 1 });
    }
    let out = book.apply(&Event::Bids).expect("five bids");
    let ids: Vec<i32> = out.iter().map(|o| o.order_id).collect();
    assert_eq!(ids, vec![4, 3, 2, 1, 0]);
}
