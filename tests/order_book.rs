use exchange::order::{BuySell, DecodeError, Order, OrderBook, Price};

fn price(negative: bool, units: u128, scale: u32) -> Price {
    Price { negative, units, scale }
}

fn ids(book: &OrderBook) -> Vec<u32> {
    book.orders().iter().map(|o| o.id).collect()
}

#[test]
fn serialize_order() {
    let order = Order { id: 1, buy_sell: BuySell::Buy, quantity: 10, price: price(false, 32, 1) };
    println!("Order: {order:?}");
    let buff: String = order.serialize();
    println!("Serialized order: {buff}");
    let order_2 = Order::deserialize(&buff).expect("Failed to deserialize order");
    println!("Deserialized order {order_2:?}");
    assert_eq!(order, order_2);
}

#[test]
fn serialize_orderbook() {
    let mut orderbook1 = OrderBook::new();
    _ = orderbook1.create_order(BuySell::Sell, 2030, price(false, 324, 1));
    _ = orderbook1.create_order(BuySell::Buy, 1111, price(false, 30402, 1));
    let buffer: String = orderbook1.serialize();
    let orderbook2 = OrderBook::deserialize(&buffer).expect("Unable to deserialize orderbook");
    assert_eq!(orderbook1.orders(), orderbook2.orders());
}

#[test]
fn deserialize_empty_orderbook() {
    let orderbook1 = OrderBook::new();
    let buffer: String = orderbook1.serialize();
    let orderbook2 = OrderBook::deserialize(&buffer).expect("Unable to deserialize orderbook");
    assert_eq!(orderbook1.orders(), orderbook2.orders());
}

#[test]
fn orderbook_delete() {
    let mut orderbook1 = OrderBook::new();
    let order_id1 = orderbook1.create_order(BuySell::Buy, 10, price(false, 32, 1));
    let order_id2 = orderbook1.create_order(BuySell::Sell, 12, price(false, 36, 1));
    orderbook1.delete_order(order_id1);
    assert_eq!(orderbook1.orders().len(), 1);
    orderbook1.delete_order(order_id2);
    assert!(orderbook1.orders().is_empty(), "Expected empty orderbook after deleting all orders");
}

#[test]
fn order_line_text() {
    let order = Order { id: 1, buy_sell: BuySell::Buy, quantity: 10, price: price(false, 32, 1) };
    assert_eq!(order.serialize(), "1,B,10,3.2");
    let order = Order { id: 7, buy_sell: BuySell::Sell, quantity: 0, price: price(true, 5, 3) };
    assert_eq!(order.serialize(), "7,S,0,-0.005");
    let order = Order { id: 4294967295, buy_sell: BuySell::Sell, quantity: 65535, price: price(false, 30, 0) };
    assert_eq!(order.serialize(), "4294967295,S,65535,30");
}

#[test]
fn order_round_trip_edges() {
    let orders = vec![
        Order { id: 0, buy_sell: BuySell::Buy, quantity: 0, price: price(false, 0, 0) },
        Order { id: 4294967295, buy_sell: BuySell::Sell, quantity: 65535, price: price(true, u128::MAX, 0) },
        Order { id: 12, buy_sell: BuySell::Buy, quantity: 3, price: price(true, 0, 4) },
        Order { id: 9, buy_sell: BuySell::Sell, quantity: 8, price: price(false, 1, 45) },
    ];
    for o in orders {
        assert_eq!(Order::deserialize(&o.serialize()), Ok(o));
    }
}

#[test]
fn price_text_from_float_display() {
    let text = format!("{}", 32.4f32);
    assert_eq!(Price::parse(&text), Some(price(false, 324, 1)));
    let text = format!("{}", 3040.2f32);
    assert_eq!(Price::parse(&text), Some(price(false, 30402, 1)));
    let text = format!("{}", -0.5f32);
    assert_eq!(Price::parse(&text), Some(price(true, 5, 1)));
    assert_eq!(price(false, 324, 1).to_text(), "32.4");
    assert_eq!(price(false, 5, 2).to_text(), "0.05");
    assert_eq!(price(false, 1200, 0).to_text(), "1200");
}

#[test]
fn price_parse_rejects() {
    assert_eq!(Price::parse(""), None);
    assert_eq!(Price::parse("-"), None);
    assert_eq!(Price::parse("1."), None);
    assert_eq!(Price::parse(".5"), None);
    assert_eq!(Price::parse("1.2.3"), None);
    assert_eq!(Price::parse("abc"), None);
    assert_eq!(Price::parse("340282366920938463463374607431768211456"), None);
    assert_eq!(Price::parse("007.50"), Some(price(false, 750, 2)));
}

#[test]
fn malformed_lines() {
    assert_eq!(Order::deserialize("1,X,10,3.2"), Err(DecodeError::Side));
    assert_eq!(Order::deserialize("1,B,10"), Err(DecodeError::FieldCount));
    assert_eq!(Order::deserialize("1,B,10,3.2,5"), Err(DecodeError::FieldCount));
    assert_eq!(Order::deserialize("x,B,10,3.2"), Err(DecodeError::Id));
    assert_eq!(Order::deserialize("4294967296,B,10,3.2"), Err(DecodeError::Id));
    assert_eq!(Order::deserialize("1,B,65536,3.2"), Err(DecodeError::Quantity));
    assert_eq!(Order::deserialize("1,B,10,three"), Err(DecodeError::Price));
    assert_eq!(Order::deserialize(" 1,B,10,3.2"), Err(DecodeError::Id));
}

#[test]
fn side_codes() {
    assert_eq!(BuySell::from_str("B"), Ok(BuySell::Buy));
    assert_eq!(BuySell::from_str("S"), Ok(BuySell::Sell));
    assert_eq!(BuySell::from_str("b"), Err(DecodeError::Side));
    assert_eq!(BuySell::from_str("BS"), Err(DecodeError::Side));
    assert_eq!(BuySell::to_str(&BuySell::Buy), "B");
    assert_eq!(BuySell::to_str(&BuySell::Sell), "S");
}

#[test]
fn first_id_is_one() {
    let mut book = OrderBook::new();
    assert_eq!(book.next_id(), Some(1));
    assert_eq!(book.create_order(BuySell::Buy, 1, price(false, 1, 0)), 1);
}

#[test]
fn id_after_deleting_middle_is_max_plus_one() {
    let mut book = OrderBook::new();
    for _ in 0..3 {
        book.create_order(BuySell::Buy, 1, price(false, 1, 0));
    }
    assert_eq!(ids(&book), vec![1, 2, 3]);
    book.delete_order(2);
    assert_eq!(book.create_order(BuySell::Sell, 2, price(false, 2, 0)), 4);
    assert_eq!(ids(&book), vec![1, 3, 4]);
}

#[test]
fn id_reused_after_deleting_highest() {
    let mut book = OrderBook::new();
    for _ in 0..3 {
        book.create_order(BuySell::Buy, 1, price(false, 1, 0));
    }
    book.delete_order(3);
    assert_eq!(book.create_order(BuySell::Buy, 1, price(false, 1, 0)), 3);
}

#[test]
fn no_id_left_after_largest() {
    let book = OrderBook::deserialize("4294967295,B,1,1").unwrap();
    assert_eq!(book.next_id(), None);
    let book = OrderBook::deserialize("4294967294,B,1,1").unwrap();
    assert_eq!(book.next_id(), Some(4294967295));
}

#[test]
fn delete_present_keeps_others_in_order() {
    let mut book = OrderBook::new();
    book.create_order(BuySell::Buy, 10, price(false, 1, 0));
    book.create_order(BuySell::Sell, 20, price(false, 2, 0));
    book.create_order(BuySell::Buy, 30, price(false, 3, 0));
    let before: Vec<Order> = book.orders().clone();
    book.delete_order(2);
    assert_eq!(book.orders().len(), 2);
    assert_eq!(book.orders()[0], before[0]);
    assert_eq!(book.orders()[1], before[2]);
}

#[test]
fn delete_absent_is_no_op() {
    let mut book = OrderBook::new();
    book.create_order(BuySell::Buy, 10, price(false, 1, 0));
    let before: Vec<Order> = book.orders().clone();
    book.delete_order(42);
    assert_eq!(book.orders(), &before);
}

#[test]
fn empty_book_text() {
    assert_eq!(OrderBook::new().serialize(), "");
    let book = OrderBook::deserialize("").unwrap();
    assert!(book.orders().is_empty());
}

#[test]
fn book_text_layout() {
    let mut book = OrderBook::new();
    book.create_order(BuySell::Sell, 2030, price(false, 324, 1));
    book.create_order(BuySell::Buy, 1111, price(false, 30402, 1));
    assert_eq!(book.serialize(), "1,S,2030,32.4\n2,B,1111,3040.2");
}

#[test]
fn book_skips_empty_lines() {
    let book = OrderBook::deserialize("1,B,10,3.2\n\n2,S,5,1\n").unwrap();
    assert_eq!(ids(&book), vec![1, 2]);
    assert_eq!(book.orders()[1].quantity, 5);
}

#[test]
fn book_fails_on_any_bad_line() {
    assert_eq!(OrderBook::deserialize("1,B,10,3.2\n2,Q,5,1").unwrap_err(), DecodeError::Side);
    assert_eq!(OrderBook::deserialize("1,B\n2,Q,5,1").unwrap_err(), DecodeError::FieldCount);
}

#[test]
fn leading_plus_signs() {
    let expected = Order { id: 1, buy_sell: BuySell::Buy, quantity: 10, price: price(false, 3, 0) };
    assert_eq!(Order::deserialize("+1,B,10,3"), Ok(expected));
    assert_eq!(Order::deserialize("1,B,+10,+3"), Ok(expected));
    assert_eq!(Order::deserialize("+,B,10,3"), Err(DecodeError::Id));
    assert_eq!(Order::deserialize("++1,B,10,3"), Err(DecodeError::Id));
    assert_eq!(Order::deserialize("-1,B,10,3"), Err(DecodeError::Id));
    assert_eq!(Order::deserialize("1,B,+,3"), Err(DecodeError::Quantity));
    assert_eq!(Order::deserialize("1,B,10,+"), Err(DecodeError::Price));
    assert_eq!(Price::parse("+3.2"), Some(price(false, 32, 1)));
    assert_eq!(Price::parse("+-3"), None);
}
