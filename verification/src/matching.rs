//! The mathematical model of the order book and of matching.
//!
//! A side of the book is a map from a key to the queue of orders resting at
//! that key. Asks are keyed by their price; bids by `u64::MAX - price`, so on
//! both sides the best level is the one with the smallest key. Matching walks
//! the opposite side from its smallest key while the key is within the
//! taker's limit, filling the orders of each level front to back.

use crate::level::{first_pos, has_id, seq_total};
use crate::order::{with_remaining, Fill, Order, OrderId, Price, Quantity, Side};
use vstd::prelude::*;

verus! {

/// The contents of an order book: the queues resting on each side, by key.
#[verifier::ext_equal]
pub struct BookView {
    /// Bid levels, keyed by `bid_key(price)`
    pub bids: Map<u64, Seq<Order>>,
    /// Ask levels, keyed by price
    pub asks: Map<u64, Seq<Order>>,
}

/// The key under which bids at `price` rest: higher prices get smaller keys.
pub open spec fn bid_key(price: u64) -> u64 {
    (u64::MAX - price) as u64
}

/// `k` is the smallest element of `s`.
pub open spec fn is_min_key(s: Set<u64>, k: u64) -> bool {
    &&& s.contains(k)
    &&& forall|j: u64| s.contains(j) ==> k <= j
}

/// The smallest element of `s` (meaningful when `s` is finite and not empty).
pub open spec fn min_key(s: Set<u64>) -> u64 {
    choose|k: u64| is_min_key(s, k)
}

/// The smallest element is unique.
pub proof fn lemma_min_key(s: Set<u64>, k: u64)
    requires
        is_min_key(s, k),
    ensures
        min_key(s) == k,
{
    let c = min_key(s);
    assert(is_min_key(s, c));
}

/// The quantity that a maker and a taker trade: the smaller of what remains.
pub open spec fn trade_qty(taker: Order, maker: Order) -> u64 {
    if taker.remaining.0 < maker.remaining.0 {
        taker.remaining.0
    } else {
        maker.remaining.0
    }
}

/// The fill of a trade of `q` between `maker` and `taker`, at the maker's price.
pub open spec fn fill_of(maker: Order, taker: Order, q: u64) -> Fill {
    Fill { maker_id: maker.id, taker_id: taker.id, price: maker.price, quantity: Quantity(q) }
}

/// Match `taker` against the queue `makers`, front to back, until the taker is
/// filled or the queue is empty. Gives the taker afterwards, the queue
/// afterwards and the fills in the order they happened. A maker that is
/// filled leaves the queue; one that is not stays at the front, reduced.
pub open spec fn match_level(taker: Order, makers: Seq<Order>) -> (Order, Seq<Order>, Seq<Fill>)
    decreases makers.len(),
{
    if taker.remaining.0 == 0 || makers.len() == 0 {
        (taker, makers, Seq::empty())
    } else {
        let maker = makers[0];
        let q = trade_qty(taker, maker);
        let f = fill_of(maker, taker, q);
        let t2 = with_remaining(taker, (taker.remaining.0 - q) as u64);
        let m2 = with_remaining(maker, (maker.remaining.0 - q) as u64);
        if m2.remaining.0 == 0 {
            let r = match_level(t2, makers.drop_first());
            (r.0, r.1, seq![f] + r.2)
        } else {
            (t2, makers.update(0, m2), seq![f])
        }
    }
}

/// Match `taker` against one side of the book: level by level from the
/// smallest key while the key is at most `limit`. A level that empties is
/// removed; matching stops when the taker is filled, the side is empty or the
/// best key is beyond the limit.
pub open spec fn match_side(taker: Order, side: Map<u64, Seq<Order>>, limit: u64) -> (
    Order,
    Map<u64, Seq<Order>>,
    Seq<Fill>,
)
    decreases side.dom().len(),
{
    let k = min_key(side.dom());
    if taker.remaining.0 == 0 || !side.dom().finite() || side.dom().len() == 0
        || !side.dom().contains(k) || limit < k {
        (taker, side, Seq::empty())
    } else {
        let r = match_level(taker, side[k]);
        if r.1.len() == 0 {
            let s = match_side(r.0, side.remove(k), limit);
            (s.0, s.1, r.2 + s.2)
        } else {
            (r.0, side.insert(k, r.1), r.2)
        }
    }
}

/// `side` with `order` added at the back of the level under `key` (created if absent).
pub open spec fn add_to_side(side: Map<u64, Seq<Order>>, key: u64, order: Order) -> Map<
    u64,
    Seq<Order>,
> {
    if side.contains_key(key) {
        side.insert(key, side[key].push(order))
    } else {
        side.insert(key, seq![order])
    }
}

/// A limit order entering the book: it first matches against the opposite
/// side within its price; what remains of it rests on its own side at its
/// price. Gives the book afterwards, the resting remainder (if any) and the fills.
pub open spec fn add_limit(book: BookView, order: Order) -> (BookView, Option<Order>, Seq<Fill>) {
    match order.side {
        Side::Bid => {
            let r = match_side(order, book.asks, order.price.0);
            let t = r.0;
            let bids = if t.remaining.0 > 0 {
                add_to_side(book.bids, bid_key(t.price.0), t)
            } else {
                book.bids
            };
            (
                BookView { bids, asks: r.1 },
                if t.remaining.0 > 0 { Some(t) } else { None },
                r.2,
            )
        },
        Side::Ask => {
            let r = match_side(order, book.bids, bid_key(order.price.0));
            let t = r.0;
            let asks = if t.remaining.0 > 0 {
                add_to_side(book.asks, t.price.0, t)
            } else {
                book.asks
            };
            (
                BookView { bids: r.1, asks },
                if t.remaining.0 > 0 { Some(t) } else { None },
                r.2,
            )
        },
    }
}

/// Whether some level of `side` holds an order carrying `id`.
pub open spec fn side_holds(side: Map<u64, Seq<Order>>, id: OrderId) -> bool {
    exists|k: u64| side.contains_key(k) && has_id(side[k], id)
}

/// The keys of the levels of `side` that hold an order carrying `id`.
pub open spec fn holding_keys(side: Map<u64, Seq<Order>>, id: OrderId) -> Set<u64> {
    side.dom().filter(|k: u64| has_id(side[k], id))
}

/// The key of the best level holding `id` (meaningful when `side_holds`).
pub open spec fn holding_key(side: Map<u64, Seq<Order>>, id: OrderId) -> u64 {
    min_key(holding_keys(side, id))
}

/// The first order carrying `id` in the best level that holds one.
pub open spec fn side_find(side: Map<u64, Seq<Order>>, id: OrderId) -> Option<Order> {
    if side_holds(side, id) {
        let k = holding_key(side, id);
        Some(side[k][first_pos(side[k], id)])
    } else {
        None
    }
}

/// `side` without the order that `side_find` reports; a level that it leaves
/// empty is removed.
pub open spec fn side_remove(side: Map<u64, Seq<Order>>, id: OrderId) -> Map<u64, Seq<Order>> {
    if side_holds(side, id) {
        let k = holding_key(side, id);
        let lvl = side[k].remove(first_pos(side[k], id));
        if lvl.len() == 0 {
            side.remove(k)
        } else {
            side.insert(k, lvl)
        }
    } else {
        side
    }
}

/// The order carrying `id` that a search of the book finds: bids first, then asks.
pub open spec fn find_order(book: BookView, id: OrderId) -> Option<Order> {
    if side_holds(book.bids, id) {
        side_find(book.bids, id)
    } else {
        side_find(book.asks, id)
    }
}

/// The book after cancelling `id`, and the cancelled order.
pub open spec fn cancel(book: BookView, id: OrderId) -> (BookView, Option<Order>) {
    if side_holds(book.bids, id) {
        (BookView { bids: side_remove(book.bids, id), asks: book.asks }, side_find(book.bids, id))
    } else {
        (BookView { bids: book.bids, asks: side_remove(book.asks, id) }, side_find(book.asks, id))
    }
}

/// An order with a new price and/or a new quantity; a new quantity also
/// becomes the remaining quantity.
pub open spec fn modified(o: Order, new_price: Option<Price>, new_quantity: Option<Quantity>) -> Order {
    let price = match new_price {
        Some(p) => p,
        None => o.price,
    };
    let (quantity, remaining) = match new_quantity {
        Some(q) => (q, q),
        None => (o.quantity, o.remaining),
    };
    Order {
        id: o.id,
        side: o.side,
        price,
        quantity,
        remaining,
        sequence: o.sequence,
        timestamp_ns: o.timestamp_ns,
    }
}

/// Modifying an order: it is cancelled, changed, and entered again as a new
/// limit order (it may match and loses its place in the queue). Gives the book
/// afterwards and whether the order was found.
pub open spec fn modify(
    book: BookView,
    id: OrderId,
    new_price: Option<Price>,
    new_quantity: Option<Quantity>,
) -> (BookView, bool) {
    let c = cancel(book, id);
    match c.1 {
        Some(o) => (add_limit(c.0, modified(o, new_price, new_quantity)).0, true),
        None => (book, false),
    }
}

/// Sum of the remaining quantities of the levels under the keys `ks`.
pub open spec fn keys_total(side: Map<u64, Seq<Order>>, ks: Seq<u64>) -> nat
    decreases ks.len(),
{
    if ks.len() == 0 {
        0
    } else {
        seq_total(side[ks[0]]) + keys_total(side, ks.drop_first())
    }
}

/// Sum of the remaining quantities of all orders on one side.
pub open spec fn side_total(side: Map<u64, Seq<Order>>) -> nat
    decreases side.dom().len(),
{
    let k = min_key(side.dom());
    if !side.dom().finite() || side.dom().len() == 0 || !side.dom().contains(k) {
        0
    } else {
        seq_total(side[k]) + side_total(side.remove(k))
    }
}

/// The best (smallest) key of a side, if it has any level.
pub open spec fn best_key(side: Map<u64, Seq<Order>>) -> Option<u64> {
    if side.dom().len() == 0 {
        None
    } else {
        Some(min_key(side.dom()))
    }
}

/// The best bid price: the price of the bid level with the smallest key.
pub open spec fn best_bid(book: BookView) -> Option<Price> {
    match best_key(book.bids) {
        Some(k) => Some(Price((u64::MAX - k) as u64)),
        None => None,
    }
}

/// The best ask price: the smallest ask key.
pub open spec fn best_ask(book: BookView) -> Option<Price> {
    match best_key(book.asks) {
        Some(k) => Some(Price(k)),
        None => None,
    }
}

/// The spread: best ask minus best bid, when both exist and the market is not crossed.
pub open spec fn spread(book: BookView) -> Option<i64> {
    match (best_bid(book), best_ask(book)) {
        (Some(bid), Some(ask)) => if bid.0 < ask.0 {
            Some((ask.0 - bid.0) as i64)
        } else {
            None
        },
        _ => None,
    }
}

/// Total remaining quantity of the best level of a side (zero when the side is empty).
pub open spec fn best_level_total(side: Map<u64, Seq<Order>>) -> nat {
    match best_key(side) {
        Some(k) => seq_total(side[k]),
        None => 0,
    }
}

/// `ks` lists the keys of `side` in strictly increasing order.
pub open spec fn sorted_keys_of(side: Map<u64, Seq<Order>>, ks: Seq<u64>) -> bool {
    &&& forall|i: int, j: int| 0 <= i < j < ks.len() ==> ks[i] < ks[j]
    &&& forall|k: u64| side.contains_key(k) <==> ks.contains(k)
}

/// Levels under keys that `ks` does not list do not count in `keys_total`.
pub proof fn lemma_keys_total_remove(side: Map<u64, Seq<Order>>, ks: Seq<u64>, k: u64)
    requires
        !ks.contains(k),
    ensures
        keys_total(side.remove(k), ks) == keys_total(side, ks),
    decreases ks.len(),
{
    if ks.len() > 0 {
        assert(ks[0] != k);
        assert(!ks.drop_first().contains(k)) by {
            if ks.drop_first().contains(k) {
                let i = choose|i: int| 0 <= i < ks.drop_first().len() && ks.drop_first()[i] == k;
                assert(ks[i + 1] == k);
            }
        }
        lemma_keys_total_remove(side, ks.drop_first(), k);
    }
}

/// Summing a side level by level in key order gives its total.
pub proof fn lemma_side_total_keys(side: Map<u64, Seq<Order>>, ks: Seq<u64>)
    requires
        side.dom().finite(),
        sorted_keys_of(side, ks),
    ensures
        side_total(side) == keys_total(side, ks),
    decreases ks.len(),
{
    if ks.len() == 0 {
        assert(side.dom() =~= Set::<u64>::empty()) by {
            assert forall|k: u64| !side.dom().contains(k) by {
                if side.dom().contains(k) {
                    assert(ks.contains(k));
                }
            }
        }
    } else {
        let k0 = ks[0];
        assert(ks.contains(k0));
        assert forall|j: u64| side.dom().contains(j) implies k0 <= j by {
            assert(ks.contains(j));
            let t = choose|t: int| 0 <= t < ks.len() && ks[t] == j;
            if t > 0 {
                assert(ks[0] < ks[t]);
            }
        }
        lemma_min_key(side.dom(), k0);
        let rest = ks.drop_first();
        let side2 = side.remove(k0);
        assert(!rest.contains(k0)) by {
            if rest.contains(k0) {
                let t = choose|t: int| 0 <= t < rest.len() && rest[t] == k0;
                assert(ks[t + 1] == k0);
                assert(ks[0] < ks[t + 1]);
            }
        }
        assert forall|k: u64| side2.contains_key(k) <==> rest.contains(k) by {
            if side2.contains_key(k) {
                assert(ks.contains(k));
                let t = choose|t: int| 0 <= t < ks.len() && ks[t] == k;
                assert(t != 0);
                assert(rest[t - 1] == k);
            }
            if rest.contains(k) {
                let t = choose|t: int| 0 <= t < rest.len() && rest[t] == k;
                assert(ks[t + 1] == k);
                assert(ks.contains(k));
            }
        }
        lemma_side_total_keys(side2, rest);
        lemma_keys_total_remove(side, rest, k0);
    }
}

/// Number of orders in the levels under the keys `ks`.
pub open spec fn keys_count(side: Map<u64, Seq<Order>>, ks: Seq<u64>) -> nat
    decreases ks.len(),
{
    if ks.len() == 0 {
        0
    } else {
        side[ks[0]].len() + keys_count(side, ks.drop_first())
    }
}

/// Number of orders resting on one side.
pub open spec fn side_count(side: Map<u64, Seq<Order>>) -> nat
    decreases side.dom().len(),
{
    let k = min_key(side.dom());
    if !side.dom().finite() || side.dom().len() == 0 || !side.dom().contains(k) {
        0
    } else {
        side[k].len() + side_count(side.remove(k))
    }
}

/// Levels under keys that `ks` does not list do not count in `keys_count`.
pub proof fn lemma_keys_count_remove(side: Map<u64, Seq<Order>>, ks: Seq<u64>, k: u64)
    requires
        !ks.contains(k),
    ensures
        keys_count(side.remove(k), ks) == keys_count(side, ks),
    decreases ks.len(),
{
    if ks.len() > 0 {
        assert(ks[0] != k);
        assert(!ks.drop_first().contains(k)) by {
            if ks.drop_first().contains(k) {
                let i = choose|i: int| 0 <= i < ks.drop_first().len() && ks.drop_first()[i] == k;
                assert(ks[i + 1] == k);
            }
        }
        lemma_keys_count_remove(side, ks.drop_first(), k);
    }
}

/// Counting a side level by level in key order gives its number of orders.
pub proof fn lemma_side_count_keys(side: Map<u64, Seq<Order>>, ks: Seq<u64>)
    requires
        side.dom().finite(),
        sorted_keys_of(side, ks),
    ensures
        side_count(side) == keys_count(side, ks),
    decreases ks.len(),
{
    if ks.len() == 0 {
        assert(side.dom() =~= Set::<u64>::empty()) by {
            assert forall|k: u64| !side.dom().contains(k) by {
                if side.dom().contains(k) {
                    assert(ks.contains(k));
                }
            }
        }
    } else {
        let k0 = ks[0];
        assert(ks.contains(k0));
        assert forall|j: u64| side.dom().contains(j) implies k0 <= j by {
            assert(ks.contains(j));
            let t = choose|t: int| 0 <= t < ks.len() && ks[t] == j;
            if t > 0 {
                assert(ks[0] < ks[t]);
            }
        }
        lemma_min_key(side.dom(), k0);
        let rest = ks.drop_first();
        let side2 = side.remove(k0);
        assert(!rest.contains(k0)) by {
            if rest.contains(k0) {
                let t = choose|t: int| 0 <= t < rest.len() && rest[t] == k0;
                assert(ks[t + 1] == k0);
                assert(ks[0] < ks[t + 1]);
            }
        }
        assert forall|k: u64| side2.contains_key(k) <==> rest.contains(k) by {
            if side2.contains_key(k) {
                assert(ks.contains(k));
                let t = choose|t: int| 0 <= t < ks.len() && ks[t] == k;
                assert(t != 0);
                assert(rest[t - 1] == k);
            }
            if rest.contains(k) {
                let t = choose|t: int| 0 <= t < rest.len() && rest[t] == k;
                assert(ks[t + 1] == k);
                assert(ks.contains(k));
            }
        }
        lemma_side_count_keys(side2, rest);
        lemma_keys_count_remove(side, rest, k0);
    }
}

/// When a level is left non-empty by matching, the taker was filled.
pub proof fn lemma_match_level_rest(taker: Order, makers: Seq<Order>)
    ensures
        match_level(taker, makers).1.len() > 0 ==> match_level(taker, makers).0.remaining.0 == 0,
        match_level(taker, makers).0.price == taker.price,
        match_level(taker, makers).0 == with_remaining(taker, match_level(taker, makers).0.remaining.0),
    decreases makers.len(),
{
    if taker.remaining.0 == 0 || makers.len() == 0 {
    } else {
        let maker = makers[0];
        let q = trade_qty(taker, maker);
        let t2 = with_remaining(taker, (taker.remaining.0 - q) as u64);
        let m2 = with_remaining(maker, (maker.remaining.0 - q) as u64);
        if m2.remaining.0 == 0 {
            lemma_match_level_rest(t2, makers.drop_first());
        }
    }
}

} // verus!
