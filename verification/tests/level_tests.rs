use lockfree_orderbook::level::Level;
use lockfree_orderbook::{Order, OrderId, Price, Quantity, Side};

#[test]
fn test_level_add_remove() {
    let mut level = Level::new();
    assert!(level.is_empty());

    let order = Order::new(OrderId(1), Side::Bid, Price(10000000000), Quantity(100), 1, 0);
    level.add_order(order);
    assert_eq!(level.len(), 1);
    assert!(!level.is_empty());

    let removed = level.remove_order(OrderId(1));
    assert!(removed.is_some());
    assert!(level.is_empty());
}

#[test]
fn test_level_fifo_order() {
    let mut level = Level::new();

    for i in 1..=3 {
        let order = Order::new(OrderId(i), Side::Bid, Price(10000000000), Quantity(100), i, 0);
        level.add_order(order);
    }

    assert_eq!(level.front().map(|o| o.id), Some(OrderId(1)));

    let popped = level.pop_front();
    assert_eq!(popped.map(|o| o.id), Some(OrderId(1)));
    assert_eq!(level.front().map(|o| o.id), Some(OrderId(2)));
}

#[test]
fn test_level_total_quantity() {
    let mut level = Level::new();

    for i in 1..=3 {
        let order = Order::new(OrderId(i), Side::Bid, Price(10000000000), Quantity(100 * i), i, 0);
        level.add_order(order);
    }

    assert_eq!(level.total_quantity().0, 600);
}

fn order(id: u64, qty: u64) -> Order {
    Order::new(OrderId(id), Side::Ask, Price(500), Quantity(qty), id, 0)
}

#[test]
fn level_remove_takes_first_of_duplicates() {
    let mut level = Level::default();
    level.add_order(order(1, 10));
    level.add_order(order(2, 20));
    level.add_order(order(2, 30));
    let removed = level.remove_order(OrderId(2)).unwrap();
    assert_eq!(removed.quantity.0, 20);
    let ids: Vec<(u64, u64)> = level.iter().map(|o| (o.id.0, o.quantity.0)).collect();
    assert_eq!(ids, vec![(1, 10), (2, 30)]);
    assert!(level.remove_order(OrderId(9)).is_none());
    assert_eq!(level.len(), 2);
}

#[test]
fn level_mutable_access() {
    let mut level = Level::new();
    assert!(level.front_mut().is_none());
    assert!(level.get_order_mut(OrderId(1)).is_none());
    level.add_order(order(1, 10));
    level.add_order(order(2, 20));
    level.front_mut().unwrap().reduce_remaining(Quantity(4));
    level.get_order_mut(OrderId(2)).unwrap().reduce_remaining(Quantity(25));
    assert_eq!(level.get_order(OrderId(1)).unwrap().remaining.0, 6);
    assert_eq!(level.get_order(OrderId(2)).unwrap().remaining.0, 0);
    assert_eq!(level.total_quantity().0, 6);
    assert!(level.get_order(OrderId(3)).is_none());
}

#[test]
fn level_pop_empty() {
    let mut level = Level::new();
    assert!(level.pop_front().is_none());
    assert!(level.front().is_none());
    assert_eq!(level.total_quantity().0, 0);
}

#[test]
fn level_get_mut_by_position() {
    let mut level = Level::new();
    level.add_order(order(1, 10));
    level.add_order(order(2, 20));
    assert!(level.get_mut(2).is_none());
    for i in 0..level.len() {
        level.get_mut(i).unwrap().reduce_remaining(Quantity(5));
    }
    assert_eq!(level.front().unwrap().remaining.0, 5);
    assert_eq!(level.get_order(OrderId(2)).unwrap().remaining.0, 15);
    assert_eq!(level.total_quantity().0, 20);
}
