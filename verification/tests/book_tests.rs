use lockfree_orderbook::order::Fill;
use lockfree_orderbook::{Order, OrderBook, OrderId, Price, Quantity, Side};

fn create_order(id: u64, side: Side, price: u64, qty: u64, seq: u64) -> Order {
    Order::new(OrderId(id), side, Price(price), Quantity(qty), seq, 0)
}

#[test]
fn test_simple_limit_match() {
    let mut book = OrderBook::new();

    let bid = create_order(1, Side::Bid, 10000000000, 100, 1);
    let (remaining, fills) = book.add_limit_order(bid);
    assert!(remaining.is_some());
    assert_eq!(fills.len(), 0);

    let ask = create_order(2, Side::Ask, 10000000000, 100, 2);
    let (remaining, fills) = book.add_limit_order(ask);
    assert!(remaining.is_none());
    assert_eq!(fills.len(), 1);
    assert_eq!(fills[0].quantity.0, 100);
}

#[test]
fn book_test_partial_fill() {
    let mut book = OrderBook::new();

    let bid = create_order(1, Side::Bid, 10000000000, 100, 1);
    book.add_limit_order(bid);

    let ask = create_order(2, Side::Ask, 10000000000, 50, 2);
    let (remaining, fills) = book.add_limit_order(ask);
    assert!(remaining.is_none());
    assert_eq!(fills.len(), 1);

    let remaining_bid = book.get_order(OrderId(1)).unwrap();
    assert_eq!(remaining_bid.remaining.0, 50);
}

#[test]
fn book_test_price_time_priority() {
    let mut book = OrderBook::new();

    let bid1 = create_order(1, Side::Bid, 10000000000, 100, 1);
    let bid2 = create_order(2, Side::Bid, 10000000000, 100, 2);
    book.add_limit_order(bid1);
    book.add_limit_order(bid2);

    let ask = create_order(3, Side::Ask, 10000000000, 150, 3);
    let (_remaining, fills) = book.add_limit_order(ask);

    assert_eq!(fills[0].maker_id, OrderId(1));
    assert_eq!(fills[0].quantity.0, 100);
    assert_eq!(fills[1].maker_id, OrderId(2));
    assert_eq!(fills[1].quantity.0, 50);
}

#[test]
fn book_test_cancel_order() {
    let mut book = OrderBook::new();

    let bid = create_order(1, Side::Bid, 10000000000, 100, 1);
    book.add_limit_order(bid);

    let cancelled = book.cancel_order(OrderId(1));
    assert!(cancelled.is_some());

    let cancelled_again = book.cancel_order(OrderId(1));
    assert!(cancelled_again.is_none());
}

#[test]
fn book_test_modify_order() {
    let mut book = OrderBook::new();

    let bid = create_order(1, Side::Bid, 10000000000, 100, 1);
    book.add_limit_order(bid);

    assert!(book.modify_order(OrderId(1), Some(Price(11000000000)), Some(Quantity(150))));

    let modified = book.get_order(OrderId(1)).unwrap();
    assert_eq!(modified.price.0, 11000000000);
    assert_eq!(modified.quantity.0, 150);
}

#[test]
fn book_test_empty_book() {
    let book = OrderBook::new();
    assert_eq!(book.best_bid(), None);
    assert_eq!(book.best_ask(), None);
    assert_eq!(book.spread(), None);
}

fn total(fills: &[Fill]) -> u64 {
    fills.iter().map(|f| f.quantity.0).sum()
}

#[test]
fn book_bid_walks_asks_best_price_first() {
    let mut book = OrderBook::new();
    book.add_limit_order(create_order(1, Side::Ask, 103, 10, 1));
    book.add_limit_order(create_order(2, Side::Ask, 101, 10, 2));
    book.add_limit_order(create_order(3, Side::Ask, 102, 10, 3));
    book.add_limit_order(create_order(4, Side::Ask, 101, 10, 4));

    let (remaining, fills) = book.add_limit_order(create_order(5, Side::Bid, 102, 35, 5));
    let makers: Vec<u64> = fills.iter().map(|f| f.maker_id.0).collect();
    let prices: Vec<u64> = fills.iter().map(|f| f.price.0).collect();
    assert_eq!(makers, vec![2, 4, 3]);
    assert_eq!(prices, vec![101, 101, 102]);
    assert!(fills.iter().all(|f| f.taker_id == OrderId(5)));
    // 30 filled, 5 rest at 102; the ask at 103 was beyond the limit.
    assert_eq!(total(&fills) + remaining.unwrap().remaining.0, 35);
    assert_eq!(remaining.unwrap().remaining.0, 5);
    assert_eq!(book.best_bid(), Some(Price(102)));
    assert_eq!(book.best_ask(), Some(Price(103)));
    assert_eq!(book.spread(), Some(1));
    assert_eq!(book.total_bid_quantity().0, 5);
    assert_eq!(book.total_ask_quantity().0, 10);
    assert_eq!(book.bid_levels(), 1);
    assert_eq!(book.ask_levels(), 1);
}

#[test]
fn book_ask_walks_bids_highest_first() {
    let mut book = OrderBook::new();
    book.add_limit_order(create_order(1, Side::Bid, 98, 10, 1));
    book.add_limit_order(create_order(2, Side::Bid, 100, 10, 2));
    book.add_limit_order(create_order(3, Side::Bid, 99, 10, 3));

    let (remaining, fills) = book.add_limit_order(create_order(4, Side::Ask, 99, 25, 4));
    let prices: Vec<u64> = fills.iter().map(|f| f.price.0).collect();
    assert_eq!(prices, vec![100, 99]);
    assert!(prices.iter().all(|p| *p >= 99));
    let rest = remaining.unwrap();
    assert_eq!(rest.remaining.0, 5);
    assert_eq!(rest.quantity.0, 25);
    assert_eq!(book.best_ask(), Some(Price(99)));
    assert_eq!(book.best_bid(), Some(Price(98)));
}

#[test]
fn book_partially_filled_maker_keeps_its_place() {
    let mut book = OrderBook::new();
    book.add_limit_order(create_order(1, Side::Ask, 100, 50, 1));
    book.add_limit_order(create_order(2, Side::Ask, 100, 50, 2));
    let (_r, fills) = book.add_limit_order(create_order(3, Side::Bid, 100, 20, 3));
    assert_eq!(fills.len(), 1);
    assert_eq!(fills[0].maker_id, OrderId(1));
    let (_r, fills) = book.add_limit_order(create_order(4, Side::Bid, 100, 40, 4));
    let makers: Vec<(u64, u64)> = fills.iter().map(|f| (f.maker_id.0, f.quantity.0)).collect();
    assert_eq!(makers, vec![(1, 30), (2, 10)]);
    assert_eq!(book.ask_quantity_at_best().0, 40);
}

#[test]
fn book_cancel_drops_emptied_level() {
    let mut book = OrderBook::new();
    book.add_limit_order(create_order(1, Side::Bid, 100, 10, 1));
    book.add_limit_order(create_order(2, Side::Bid, 90, 10, 2));
    assert!(book.cancel_order(OrderId(1)).is_some());
    // The emptied level leaves the book: the best bid is the next price.
    assert_eq!(book.bid_levels(), 1);
    assert_eq!(book.best_bid(), Some(Price(90)));
    assert_eq!(book.bid_quantity_at_best().0, 10);
    assert!(book.get_order(OrderId(1)).is_none());
    let (_r, fills) = book.add_limit_order(create_order(3, Side::Ask, 90, 5, 3));
    assert_eq!(fills.len(), 1);
    assert_eq!(fills[0].maker_id, OrderId(2));
    assert_eq!(book.bid_levels(), 1);
    // Cancelling the last bid leaves no bid level and no spread.
    book.add_limit_order(create_order(4, Side::Ask, 120, 5, 4));
    assert!(book.cancel_order(OrderId(2)).is_some());
    assert_eq!(book.bid_levels(), 0);
    assert_eq!(book.best_bid(), None);
    assert_eq!(book.spread(), None);
    assert_eq!(book.bid_quantity_at_best().0, 0);
    assert!(book.cancel_order(OrderId(4)).is_some());
    assert_eq!(book.ask_levels(), 0);
    assert_eq!(book.best_ask(), None);
}

#[test]
fn book_modify_moves_order_to_new_level() {
    let mut book = OrderBook::new();
    book.add_limit_order(create_order(1, Side::Bid, 10000000000, 100, 1));
    assert!(book.modify_order(OrderId(1), Some(Price(9000000000)), None));
    assert_eq!(book.best_bid(), Some(Price(9000000000)));
    assert_eq!(book.bid_levels(), 1);
    let o = book.get_order(OrderId(1)).unwrap();
    assert_eq!((o.price, o.remaining), (Price(9000000000), Quantity(100)));
}

#[test]
fn book_cancel_searches_bids_first_and_matches_get_order() {
    let mut book = OrderBook::new();
    book.add_limit_order(create_order(7, Side::Ask, 200, 10, 1));
    book.add_limit_order(create_order(7, Side::Bid, 100, 20, 2));
    let found = book.get_order(OrderId(7)).unwrap();
    let cancelled = book.cancel_order(OrderId(7)).unwrap();
    assert_eq!(found.side, Side::Bid);
    assert_eq!(cancelled.side, Side::Bid);
    assert_eq!(cancelled.quantity.0, 20);
    let cancelled = book.cancel_order(OrderId(7)).unwrap();
    assert_eq!(cancelled.side, Side::Ask);
    assert!(book.cancel_order(OrderId(7)).is_none());
}

#[test]
fn book_modify_loses_time_priority_and_may_match() {
    let mut book = OrderBook::new();
    book.add_limit_order(create_order(1, Side::Bid, 100, 10, 1));
    book.add_limit_order(create_order(2, Side::Bid, 100, 10, 2));
    assert!(book.modify_order(OrderId(1), None, None));
    let (_r, fills) = book.add_limit_order(create_order(3, Side::Ask, 100, 10, 3));
    assert_eq!(fills[0].maker_id, OrderId(2));
    // Modifying the bid to cross the ask side trades immediately.
    book.add_limit_order(create_order(4, Side::Ask, 105, 10, 4));
    assert!(book.modify_order(OrderId(1), Some(Price(105)), None));
    assert!(book.get_order(OrderId(1)).is_none());
    assert_eq!(book.best_ask(), None);
    assert!(!book.modify_order(OrderId(99), None, None));
}

#[test]
fn book_zero_quantity_order_never_rests() {
    let mut book = OrderBook::new();
    let (remaining, fills) = book.add_limit_order(create_order(1, Side::Bid, 100, 0, 1));
    assert!(remaining.is_none());
    assert!(fills.is_empty());
    assert_eq!(book.bid_levels(), 0);
}

#[test]
fn book_spread_exact_value() {
    let mut book = OrderBook::new();
    book.add_limit_order(create_order(1, Side::Bid, 9900000000, 100, 1));
    book.add_limit_order(create_order(2, Side::Ask, 10100000000, 100, 2));
    assert_eq!(book.spread(), Some(200000000));
    assert_eq!(book.bid_quantity_at_best().0, 100);
    assert_eq!(book.ask_quantity_at_best().0, 100);
}
