use lockfree_orderbook::{Order, OrderId, Price, Quantity, Side};

#[test]
fn side_opposite_and_label() {
    assert_eq!(Side::Bid.opposite(), Side::Ask);
    assert_eq!(Side::Ask.opposite(), Side::Bid);
    assert_eq!(Side::Bid.label(), "BID");
    assert_eq!(Side::Ask.label(), "ASK");
}

#[test]
fn order_remaining_saturates() {
    let mut o = Order::new(OrderId(3), Side::Bid, Price(7), Quantity(10), 3, 42);
    assert!(o.is_live());
    assert!(!o.is_filled());
    assert_eq!(o.remaining.0, 10);
    assert_eq!(o.timestamp_ns, 42);
    o.reduce_remaining(Quantity(4));
    assert_eq!(o.remaining.0, 6);
    assert_eq!(o.quantity.0, 10);
    o.reduce_remaining(Quantity(100));
    assert_eq!(o.remaining.0, 0);
    assert!(o.is_filled());
    assert!(!o.is_live());
}
