//! Properties of matching and of the book that hold for all inputs.
//!
//! Each public proof function states one property over the model in
//! `matching`; the engine's contracts are written over the same model, so the
//! properties carry over to what the engine does.

use crate::engine::{apply_event, empty_book, entered_order, opposite_side, replay, MatchingEngine};
use crate::journal::events_of;
use crate::level::{first_pos, has_id, seq_total};
use crate::matching::{
    add_limit, add_to_side, best_ask, best_bid, bid_key, cancel, fill_of, find_order,
    holding_key, is_min_key, lemma_min_key, match_level, match_side, min_key, modified, modify,
    side_count, side_find, side_holds, side_remove, side_total, spread, trade_qty, BookView,
    best_key, best_level_total,
};
use crate::order::{with_remaining, Fill, Order, OrderEvent, OrderId, Price, Quantity, Side};
use crate::sequencer::SequencedEvent;
use vstd::prelude::*;

verus! {

/// Sum of the quantities of `fills`.
pub open spec fn fills_total(fills: Seq<Fill>) -> nat
    decreases fills.len(),
{
    if fills.len() == 0 {
        0
    } else {
        fills[0].quantity.0 as nat + fills_total(fills.drop_first())
    }
}

proof fn lemma_fills_total_concat(a: Seq<Fill>, b: Seq<Fill>)
    ensures
        fills_total(a + b) == fills_total(a) + fills_total(b),
    decreases a.len(),
{
    if a.len() == 0 {
        assert(a + b =~= b);
    } else {
        lemma_fills_total_concat(a.drop_first(), b);
        assert((a + b).drop_first() =~= a.drop_first() + b);
    }
}

proof fn lemma_seq_total_front(s: Seq<Order>)
    requires
        s.len() > 0,
    ensures
        seq_total(s) == s[0].remaining.0 + seq_total(s.drop_first()),
    decreases s.len(),
{
    if s.len() == 1 {
        assert(s.drop_last() =~= Seq::<Order>::empty());
        assert(s.drop_first() =~= Seq::<Order>::empty());
    } else {
        lemma_seq_total_front(s.drop_last());
        assert(s.drop_last().drop_first() =~= s.drop_first().drop_last());
        assert(s.drop_first().last() == s.last());
    }
}

/// Every finite, non-empty set of keys has a smallest element.
pub proof fn lemma_min_exists(s: Set<u64>)
    requires
        s.finite(),
        s.len() > 0,
    ensures
        is_min_key(s, min_key(s)),
    decreases s.len(),
{
    let x = s.choose();
    let s2 = s.remove(x);
    if s2.len() == 0 {
        assert forall|j: u64| s.contains(j) implies x <= j by {
            if j != x {
                assert(s2.contains(j));
            }
        }
        lemma_min_key(s, x);
    } else {
        lemma_min_exists(s2);
        let m2 = min_key(s2);
        if x < m2 {
            lemma_min_key(s, x);
        } else {
            assert forall|j: u64| s.contains(j) implies m2 <= j by {
                if j != x {
                    assert(s2.contains(j));
                }
            }
            lemma_min_key(s, m2);
        }
    }
}

/// Within a level, time priority: the i-th fill is against the i-th order of
/// the queue, at that order's price, and every fill names the taker.
pub proof fn law_fifo_within_level(taker: Order, makers: Seq<Order>)
    ensures
        ({
            let r = match_level(taker, makers);
            &&& r.2.len() <= makers.len()
            &&& forall|i: int|
                0 <= i < r.2.len() ==> {
                    &&& (#[trigger] r.2[i]).maker_id == makers[i].id
                    &&& r.2[i].price == makers[i].price
                    &&& r.2[i].taker_id == taker.id
                }
        }),
    decreases makers.len(),
{
    if taker.remaining.0 == 0 || makers.len() == 0 {
    } else {
        let maker = makers[0];
        let q = trade_qty(taker, maker);
        let t2 = with_remaining(taker, (taker.remaining.0 - q) as u64);
        let m2 = with_remaining(maker, (maker.remaining.0 - q) as u64);
        if m2.remaining.0 == 0 {
            law_fifo_within_level(t2, makers.drop_first());
            let r = match_level(taker, makers);
            let r2 = match_level(t2, makers.drop_first());
            assert forall|i: int| 0 <= i < r.2.len() implies {
                &&& (#[trigger] r.2[i]).maker_id == makers[i].id
                &&& r.2[i].price == makers[i].price
                &&& r.2[i].taker_id == taker.id
            } by {
                if i > 0 {
                    assert(r.2[i] == r2.2[i - 1]);
                }
            }
        }
    }
}

/// Matching against a queue moves exactly the filled quantity: out of the
/// taker, and out of the queue.
pub proof fn law_level_conserves_quantity(taker: Order, makers: Seq<Order>)
    ensures
        ({
            let r = match_level(taker, makers);
            &&& taker.remaining.0 == r.0.remaining.0 + fills_total(r.2)
            &&& seq_total(makers) == seq_total(r.1) + fills_total(r.2)
        }),
    decreases makers.len(),
{
    if taker.remaining.0 == 0 || makers.len() == 0 {
    } else {
        let maker = makers[0];
        let q = trade_qty(taker, maker);
        let f = fill_of(maker, taker, q);
        let t2 = with_remaining(taker, (taker.remaining.0 - q) as u64);
        let m2 = with_remaining(maker, (maker.remaining.0 - q) as u64);
        lemma_seq_total_front(makers);
        if m2.remaining.0 == 0 {
            law_level_conserves_quantity(t2, makers.drop_first());
            let r2 = match_level(t2, makers.drop_first());
            assert((seq![f] + r2.2).drop_first() =~= r2.2);
            assert((seq![f] + r2.2)[0] == f);
            assert(fills_total(seq![f] + r2.2) == q + fills_total(r2.2));
            assert(match_level(taker, makers) == (r2.0, r2.1, seq![f] + r2.2));
        } else {
            let u = makers.update(0, m2);
            lemma_seq_total_front(u);
            assert(u.drop_first() =~= makers.drop_first());
            assert(seq![f].drop_first() =~= Seq::<Fill>::empty());
            assert(fills_total(seq![f].drop_first()) == 0);
            assert(seq![f][0] == f);
            assert(fills_total(seq![f]) == q);
            assert(match_level(taker, makers) == (t2, u, seq![f]));
        }
    }
}

/// Matching against a side of the book moves exactly the filled quantity:
/// what the taker loses and what the side loses both equal the quantity of
/// the fills.
pub proof fn law_matching_conserves_quantity(taker: Order, side: Map<u64, Seq<Order>>, limit: u64)
    requires
        side.dom().finite(),
    ensures
        ({
            let r = match_side(taker, side, limit);
            &&& taker.remaining.0 == r.0.remaining.0 + fills_total(r.2)
            &&& side_total(side) == side_total(r.1) + fills_total(r.2)
        }),
    decreases side.dom().len(),
{
    let k = min_key(side.dom());
    if taker.remaining.0 == 0 || !side.dom().finite() || side.dom().len() == 0
        || !side.dom().contains(k) || limit < k {
    } else {
        let r = match_level(taker, side[k]);
        law_level_conserves_quantity(taker, side[k]);
        if r.1.len() == 0 {
            let rest = side.remove(k);
            law_matching_conserves_quantity(r.0, rest, limit);
            let s = match_side(r.0, rest, limit);
            lemma_fills_total_concat(r.2, s.2);
        } else {
            let side2 = side.insert(k, r.1);
            assert(side2.dom() =~= side.dom());
            assert(side2.remove(k) =~= side.remove(k));
        }
    }
}

/// The price of the orders resting under `key` on a side.
pub open spec fn key_price(key: u64, is_bid: bool) -> u64 {
    if is_bid {
        (u64::MAX - key) as u64
    } else {
        key
    }
}

/// The key of the level that a fill at `f.price` came from.
pub open spec fn fill_key(f: Fill, is_bid: bool) -> u64 {
    if is_bid {
        (u64::MAX - f.price.0) as u64
    } else {
        f.price.0
    }
}

/// The side of the book that holds the bids (`true`) or the asks (`false`).
pub open spec fn side_of(is_bid: bool) -> Side {
    if is_bid {
        Side::Bid
    } else {
        Side::Ask
    }
}

/// Every order of a side is of that side, rests at its own price and has
/// quantity left.
pub open spec fn side_consistent(side: Map<u64, Seq<Order>>, is_bid: bool) -> bool {
    forall|k: u64, i: int|
        side.contains_key(k) && 0 <= i < side[k].len() ==> {
            &&& (#[trigger] side[k][i]).price.0 == key_price(k, is_bid)
            &&& side[k][i].remaining.0 > 0
            &&& side[k][i].side == side_of(is_bid)
        }
}

/// Every order of a queue is of side `s`, rests at price `p` and has quantity left.
pub open spec fn level_consistent(lvl: Seq<Order>, p: u64, s: Side) -> bool {
    forall|i: int| 0 <= i < lvl.len() ==> (#[trigger] lvl[i]).price.0 == p && lvl[i].remaining.0 > 0 && lvl[i].side == s
}

/// No level of a side is empty.
pub open spec fn levels_nonempty(side: Map<u64, Seq<Order>>) -> bool {
    forall|k: u64| #[trigger] side.contains_key(k) ==> side[k].len() > 0
}

/// The price of every bid level is below the price of every ask level.
pub open spec fn uncrossed(book: BookView) -> bool {
    forall|b: u64, a: u64|
        #![trigger book.bids.contains_key(b), book.asks.contains_key(a)]
        book.bids.contains_key(b) && book.asks.contains_key(a) ==> key_price(b, true) < a
}

/// The invariant of a book: finitely many levels, none of them empty, orders
/// consistent with their levels, and no crossed prices.
pub open spec fn book_inv(book: BookView) -> bool {
    &&& book.bids.dom().finite()
    &&& book.asks.dom().finite()
    &&& levels_nonempty(book.bids)
    &&& levels_nonempty(book.asks)
    &&& side_consistent(book.bids, true)
    &&& side_consistent(book.asks, false)
    &&& uncrossed(book)
}

proof fn lemma_match_level_consistent(taker: Order, makers: Seq<Order>, p: u64, s: Side)
    requires
        level_consistent(makers, p, s),
    ensures
        level_consistent(match_level(taker, makers).1, p, s),
    decreases makers.len(),
{
    if taker.remaining.0 == 0 || makers.len() == 0 {
    } else {
        let maker = makers[0];
        let q = trade_qty(taker, maker);
        let t2 = with_remaining(taker, (taker.remaining.0 - q) as u64);
        let m2 = with_remaining(maker, (maker.remaining.0 - q) as u64);
        if m2.remaining.0 == 0 {
            assert forall|i: int| 0 <= i < makers.drop_first().len() implies
                (#[trigger] makers.drop_first()[i]).price.0 == p && makers.drop_first()[i].remaining.0 > 0
                    && makers.drop_first()[i].side == s by {
                assert(makers.drop_first()[i] == makers[i + 1]);
            }
            lemma_match_level_consistent(t2, makers.drop_first(), p, s);
        }
    }
}

/// Matching keeps a side consistent, only removes or shrinks levels, and a
/// taker that is not filled has crossed every level within its limit.
proof fn lemma_match_side_shape(taker: Order, side: Map<u64, Seq<Order>>, limit: u64, is_bid: bool)
    requires
        side.dom().finite(),
        side_consistent(side, is_bid),
    ensures
        ({
            let r = match_side(taker, side, limit);
            &&& side_consistent(r.1, is_bid)
            &&& levels_nonempty(side) ==> levels_nonempty(r.1)
            &&& r.1.dom().subset_of(side.dom())
            &&& r.1.dom().finite()
            &&& r.0.price == taker.price
            &&& r.0 == with_remaining(taker, r.0.remaining.0)
            &&& r.0.remaining.0 > 0 ==> forall|k: u64| #[trigger] r.1.contains_key(k) ==> limit < k
        }),
    decreases side.dom().len(),
{
    let k = min_key(side.dom());
    if side.dom().len() > 0 {
        lemma_min_exists(side.dom());
    }
    if taker.remaining.0 == 0 || !side.dom().finite() || side.dom().len() == 0
        || !side.dom().contains(k) || limit < k {
    } else {
        let r = match_level(taker, side[k]);
        crate::matching::lemma_match_level_rest(taker, side[k]);
        assert(level_consistent(side[k], key_price(k, is_bid), side_of(is_bid)));
        lemma_match_level_consistent(taker, side[k], key_price(k, is_bid), side_of(is_bid));
        if r.1.len() == 0 {
            let rest = side.remove(k);
            lemma_match_side_shape(r.0, rest, limit, is_bid);
        } else {
            let side2 = side.insert(k, r.1);
            assert(side2.dom() =~= side.dom());
            assert forall|j: u64, i: int| side2.contains_key(j) && 0 <= i < side2[j].len() implies {
                &&& (#[trigger] side2[j][i]).price.0 == key_price(j, is_bid)
                &&& side2[j][i].remaining.0 > 0
                &&& side2[j][i].side == side_of(is_bid)
            } by {
                if j == k {
                    assert(side2[j] == r.1);
                }
            }
        }
    }
}

/// A taker that matching leaves unfilled has taken out every level within its
/// limit: all that remains of the side lies beyond the limit, and the side
/// only lost or shrank levels.
pub proof fn law_unfilled_taker_clears_crossing_levels(
    taker: Order,
    side: Map<u64, Seq<Order>>,
    limit: u64,
    is_bid: bool,
)
    requires
        side.dom().finite(),
        side_consistent(side, is_bid),
    ensures
        ({
            let r = match_side(taker, side, limit);
            &&& r.1.dom().subset_of(side.dom())
            &&& r.0.remaining.0 > 0 ==> forall|k: u64| #[trigger] r.1.contains_key(k) ==> limit < k
        }),
{
    lemma_match_side_shape(taker, side, limit, is_bid);
}

/// The keys of the fills of a match: each is a level of the side within the
/// limit, and they come in increasing order.
proof fn lemma_match_side_fill_keys(taker: Order, side: Map<u64, Seq<Order>>, limit: u64, is_bid: bool)
    requires
        side.dom().finite(),
        side_consistent(side, is_bid),
    ensures
        ({
            let fs = match_side(taker, side, limit).2;
            &&& forall|i: int| 0 <= i < fs.len() ==> side.contains_key(fill_key(#[trigger] fs[i], is_bid)) && fill_key(fs[i], is_bid) <= limit
            &&& forall|i: int, j: int| 0 <= i < j < fs.len() ==> fill_key(#[trigger] fs[i], is_bid) <= fill_key(#[trigger] fs[j], is_bid)
        }),
    decreases side.dom().len(),
{
    let k = min_key(side.dom());
    if taker.remaining.0 == 0 || !side.dom().finite() || side.dom().len() == 0
        || !side.dom().contains(k) || limit < k {
    } else {
        let lvl = side[k];
        let r = match_level(taker, lvl);
        lemma_min_exists(side.dom());
        law_fifo_within_level(taker, lvl);
        assert forall|i: int| 0 <= i < r.2.len() implies fill_key(#[trigger] r.2[i], is_bid) == k by {
            assert(r.2[i].price == lvl[i].price);
            assert(side.contains_key(k) && 0 <= i < side[k].len());
            assert(side[k][i].price.0 == key_price(k, is_bid));
        }
        if r.1.len() == 0 {
            let rest = side.remove(k);
            lemma_match_side_fill_keys(r.0, rest, limit, is_bid);
            let s2 = match_side(r.0, rest, limit);
            let fs = r.2 + s2.2;
            assert forall|i: int| 0 <= i < fs.len() implies side.contains_key(fill_key(#[trigger] fs[i], is_bid)) && fill_key(fs[i], is_bid) <= limit by {
                if i >= r.2.len() {
                    assert(fs[i] == s2.2[i - r.2.len()]);
                }
            }
            assert forall|i: int, j: int| 0 <= i < j < fs.len() implies fill_key(#[trigger] fs[i], is_bid) <= fill_key(#[trigger] fs[j], is_bid) by {
                if j >= r.2.len() {
                    assert(fs[j] == s2.2[j - r.2.len()]);
                    assert(rest.contains_key(fill_key(fs[j], is_bid)));
                    assert(k <= fill_key(fs[j], is_bid));
                    if i >= r.2.len() {
                        assert(fs[i] == s2.2[i - r.2.len()]);
                    }
                }
            }
        }
    }
}

/// Price priority for a buyer: the fills of a bid against the ask side come
/// at non-decreasing prices, none above the bid's limit price.
pub proof fn law_bid_price_priority(taker: Order, asks: Map<u64, Seq<Order>>)
    requires
        asks.dom().finite(),
        side_consistent(asks, false),
    ensures
        ({
            let fs = match_side(taker, asks, taker.price.0).2;
            &&& forall|i: int| 0 <= i < fs.len() ==> (#[trigger] fs[i]).price.0 <= taker.price.0
            &&& forall|i: int, j: int| 0 <= i < j < fs.len() ==> (#[trigger] fs[i]).price.0 <= (#[trigger] fs[j]).price.0
        }),
{
    lemma_match_side_fill_keys(taker, asks, taker.price.0, false);
}

/// Price priority for a seller: the fills of an ask against the bid side come
/// at non-increasing prices, none below the ask's limit price.
pub proof fn law_ask_price_priority(taker: Order, bids: Map<u64, Seq<Order>>)
    requires
        bids.dom().finite(),
        side_consistent(bids, true),
    ensures
        ({
            let fs = match_side(taker, bids, bid_key(taker.price.0)).2;
            &&& forall|i: int| 0 <= i < fs.len() ==> (#[trigger] fs[i]).price.0 >= taker.price.0
            &&& forall|i: int, j: int| 0 <= i < j < fs.len() ==> (#[trigger] fs[i]).price.0 >= (#[trigger] fs[j]).price.0
        }),
{
    lemma_match_side_fill_keys(taker, bids, bid_key(taker.price.0), true);
}

proof fn lemma_add_to_side_consistent(side: Map<u64, Seq<Order>>, key: u64, order: Order, is_bid: bool)
    requires
        side_consistent(side, is_bid),
        order.price.0 == key_price(key, is_bid),
        order.remaining.0 > 0,
        order.side == side_of(is_bid),
    ensures
        side_consistent(add_to_side(side, key, order), is_bid),
        levels_nonempty(side) ==> levels_nonempty(add_to_side(side, key, order)),
        add_to_side(side, key, order).dom() == side.dom().insert(key),
{
    let s2 = add_to_side(side, key, order);
    assert(s2.dom() =~= side.dom().insert(key));
    assert forall|k: u64, i: int| s2.contains_key(k) && 0 <= i < s2[k].len() implies {
        &&& (#[trigger] s2[k][i]).price.0 == key_price(k, is_bid)
        &&& s2[k][i].remaining.0 > 0
        &&& s2[k][i].side == side_of(is_bid)
    } by {
        if k == key && side.contains_key(key) && i < side[key].len() {
            assert(s2[k][i] == side[key][i]);
        }
    }
}

/// Entering a limit order keeps the book invariant: whatever the order, the
/// book stays consistent and uncrossed.
pub proof fn law_add_limit_keeps_inv(book: BookView, order: Order)
    requires
        book_inv(book),
    ensures
        book_inv(add_limit(book, order).0),
{
    let b2 = add_limit(book, order).0;
    match order.side {
        Side::Bid => {
            let r = match_side(order, book.asks, order.price.0);
            lemma_match_side_shape(order, book.asks, order.price.0, false);
            if r.0.remaining.0 > 0 {
                lemma_add_to_side_consistent(book.bids, bid_key(r.0.price.0), r.0, true);
            }
            assert forall|b: u64, a: u64|
                b2.bids.contains_key(b) && b2.asks.contains_key(a) implies key_price(b, true) < a by {
                assert(book.asks.contains_key(a));
                if !book.bids.contains_key(b) {
                    assert(r.0.remaining.0 > 0);
                    assert(r.1.contains_key(a));
                }
            }
        },
        Side::Ask => {
            let r = match_side(order, book.bids, bid_key(order.price.0));
            lemma_match_side_shape(order, book.bids, bid_key(order.price.0), true);
            if r.0.remaining.0 > 0 {
                lemma_add_to_side_consistent(book.asks, r.0.price.0, r.0, false);
            }
            assert forall|b: u64, a: u64|
                b2.bids.contains_key(b) && b2.asks.contains_key(a) implies key_price(b, true) < a by {
                assert(book.bids.contains_key(b));
                if !book.asks.contains_key(a) {
                    assert(r.0.remaining.0 > 0);
                    assert(r.1.contains_key(b));
                }
            }
        },
    }
}

proof fn lemma_side_remove_shape(side: Map<u64, Seq<Order>>, id: OrderId, is_bid: bool)
    requires
        side.dom().finite(),
        side_consistent(side, is_bid),
    ensures
        side_consistent(side_remove(side, id), is_bid),
        levels_nonempty(side) ==> levels_nonempty(side_remove(side, id)),
        side_remove(side, id).dom().subset_of(side.dom()),
        side_remove(side, id).dom().finite(),
{
    if side_holds(side, id) {
        lemma_holding_key_in_dom(side, id);
        let k = holding_key(side, id);
        let lvl = side[k];
        let p = first_pos(lvl, id);
        crate::level::lemma_has_id_first_pos(lvl, id);
        let s2 = side_remove(side, id);
        let rest = lvl.remove(p);
        assert forall|j: u64, i: int| s2.contains_key(j) && 0 <= i < s2[j].len() implies {
            &&& (#[trigger] s2[j][i]).price.0 == key_price(j, is_bid)
            &&& s2[j][i].remaining.0 > 0
            &&& s2[j][i].side == side_of(is_bid)
        } by {
            if j == k {
                assert(s2[j] == rest);
                if i < p {
                    assert(rest[i] == side[k][i]);
                } else {
                    assert(rest[i] == side[k][i + 1]);
                }
            }
        }
        assert(s2.dom().subset_of(side.dom()));
        vstd::set_lib::lemma_len_subset(s2.dom(), side.dom());
    }
}

/// Cancelling keeps the book invariant.
pub proof fn law_cancel_keeps_inv(book: BookView, id: OrderId)
    requires
        book_inv(book),
    ensures
        book_inv(cancel(book, id).0),
{
    lemma_side_remove_shape(book.bids, id, true);
    lemma_side_remove_shape(book.asks, id, false);
    let b2 = cancel(book, id).0;
    assert(b2.bids.dom().subset_of(book.bids.dom()));
    assert(b2.asks.dom().subset_of(book.asks.dom()));
}

/// Cancelling never adds a level: each side keeps some of its levels, and a
/// level leaves only when the cancel empties it.
pub proof fn law_cancel_adds_no_level(book: BookView, id: OrderId)
    requires
        book.bids.dom().finite(),
        book.asks.dom().finite(),
    ensures
        cancel(book, id).0.bids.dom().subset_of(book.bids.dom()),
        cancel(book, id).0.asks.dom().subset_of(book.asks.dom()),
        cancel(book, id).0.bids.dom().finite(),
        cancel(book, id).0.asks.dom().finite(),
{
    let c = cancel(book, id).0;
    if side_holds(book.bids, id) {
        lemma_holding_key_in_dom(book.bids, id);
    } else if side_holds(book.asks, id) {
        lemma_holding_key_in_dom(book.asks, id);
    }
    assert(c.bids.dom().subset_of(book.bids.dom()));
    assert(c.asks.dom().subset_of(book.asks.dom()));
    vstd::set_lib::lemma_len_subset(c.bids.dom(), book.bids.dom());
    vstd::set_lib::lemma_len_subset(c.asks.dom(), book.asks.dom());
}

proof fn lemma_holding_key_in_dom(side: Map<u64, Seq<Order>>, id: OrderId)
    requires
        side.dom().finite(),
        side_holds(side, id),
    ensures
        side.contains_key(holding_key(side, id)),
        has_id(side[holding_key(side, id)], id),
{
    let hk = crate::matching::holding_keys(side, id);
    let w = choose|k: u64| side.contains_key(k) && has_id(side[k], id);
    assert(hk.contains(w));
    vstd::set_lib::lemma_len_subset(hk, side.dom());
    lemma_min_exists(hk);
}

/// Modifying keeps the book invariant.
pub proof fn law_modify_keeps_inv(
    book: BookView,
    id: OrderId,
    new_price: Option<crate::order::Price>,
    new_quantity: Option<crate::order::Quantity>,
)
    requires
        book_inv(book),
    ensures
        book_inv(modify(book, id, new_price, new_quantity).0),
{
    law_cancel_keeps_inv(book, id);
    let c = cancel(book, id);
    if let Some(o) = c.1 {
        law_add_limit_keeps_inv(c.0, modified(o, new_price, new_quantity));
    }
}

/// Cancelling returns exactly the order that a search of the book reports.
pub proof fn law_cancel_returns_found_order(book: BookView, id: OrderId)
    ensures
        cancel(book, id).1 == find_order(book, id),
{
}

/// Every event keeps the book invariant.
pub proof fn law_event_keeps_inv(book: BookView, se: SequencedEvent)
    requires
        book_inv(book),
    ensures
        book_inv(apply_event(book, se).0),
{
    match se.event {
        OrderEvent::Cancel { order_id } => {
            law_cancel_keeps_inv(book, order_id);
        },
        OrderEvent::Modify { order_id, new_price, new_quantity } => {
            law_modify_keeps_inv(book, order_id, new_price, new_quantity);
        },
        _ => {
            law_add_limit_keeps_inv(book, entered_order(se)->0);
        },
    }
}

/// Replaying any sequence of events from an empty book gives a book that is
/// consistent and never crossed.
pub proof fn law_replay_keeps_inv(events: Seq<SequencedEvent>)
    ensures
        book_inv(replay(empty_book(), events)),
    decreases events.len(),
{
    if events.len() == 0 {
        let b = empty_book();
        assert(b.bids.dom() =~= Set::<u64>::empty());
        assert(b.asks.dom() =~= Set::<u64>::empty());
    } else {
        law_replay_keeps_inv(events.drop_last());
        law_event_keeps_inv(replay(empty_book(), events.drop_last()), events.last());
    }
}

/// The engine's book is what replaying its journal's events through an empty
/// book gives, and it is consistent and never crossed.
pub proof fn law_engine_book_is_replay(e: &MatchingEngine)
    requires
        e.wf(),
    ensures
        e.book_view() == replay(empty_book(), events_of(e.journal_view())),
        book_inv(e.book_view()),
{
    law_replay_keeps_inv(events_of(e.journal_view()));
}

/// The journal holds one event per sequence number handed out.
pub proof fn law_journal_counts_sequenced(e: &MatchingEngine)
    requires
        e.wf(),
    ensures
        events_of(e.journal_view()).len() == e.next_sequence() - 1,
{
}

/// In a book that keeps the invariant, the spread exists exactly when both
/// sides have a level, and it is the positive gap between the best prices.
pub proof fn law_spread_of_uncrossed_book(book: BookView)
    requires
        book_inv(book),
    ensures
        (spread(book) is Some) == (book.bids.dom().len() > 0 && book.asks.dom().len() > 0),
        spread(book) matches Some(s) ==> {
            &&& best_bid(book) matches Some(bid)
            &&& best_ask(book) matches Some(ask)
            &&& bid.0 < ask.0
            &&& s == (ask.0 - bid.0) as i64
        },
{
    if book.bids.dom().len() > 0 && book.asks.dom().len() > 0 {
        lemma_min_exists(book.bids.dom());
        lemma_min_exists(book.asks.dom());
        let b = min_key(book.bids.dom());
        let a = min_key(book.asks.dom());
        assert(key_price(b, true) < a);
    }
}

/// Number of orders resting in a book, both sides.
pub open spec fn book_count(book: BookView) -> nat {
    side_count(book.bids) + side_count(book.asks)
}

/// Replacing (or adding) the level under `key` changes the count by the
/// difference of the two levels' lengths.
proof fn lemma_side_count_insert(side: Map<u64, Seq<Order>>, key: u64, lvl: Seq<Order>)
    requires
        side.dom().finite(),
    ensures
        side_count(side.insert(key, lvl)) + (if side.contains_key(key) { side[key].len() } else { 0 })
            == side_count(side) + lvl.len(),
    decreases side.dom().len(),
{
    let s2 = side.insert(key, lvl);
    assert(s2.dom() =~= side.dom().insert(key));
    lemma_min_exists(s2.dom());
    let j = min_key(s2.dom());
    if j == key {
        assert(s2.remove(key) =~= side.remove(key));
        if side.contains_key(key) {
            lemma_min_key(side.dom(), key);
        } else {
            assert(side.remove(key) =~= side);
        }
    } else {
        assert(side.contains_key(j));
        assert forall|x: u64| side.dom().contains(x) implies j <= x by {
            assert(s2.dom().contains(x));
        }
        lemma_min_key(side.dom(), j);
        let rest = side.remove(j);
        assert(s2.remove(j) =~= rest.insert(key, lvl));
        lemma_side_count_insert(rest, key, lvl);
    }
}

/// Removing the level under `key` takes its orders out of the count.
proof fn lemma_side_count_remove(side: Map<u64, Seq<Order>>, key: u64)
    requires
        side.dom().finite(),
        side.contains_key(key),
    ensures
        side_count(side.remove(key)) + side[key].len() == side_count(side),
{
    lemma_side_count_insert(side.remove(key), key, side[key]);
    assert(side.remove(key).insert(key, side[key]) =~= side);
}

proof fn lemma_match_level_len(taker: Order, makers: Seq<Order>)
    ensures
        match_level(taker, makers).1.len() <= makers.len(),
    decreases makers.len(),
{
    if taker.remaining.0 == 0 || makers.len() == 0 {
    } else {
        let maker = makers[0];
        let q = trade_qty(taker, maker);
        let t2 = with_remaining(taker, (taker.remaining.0 - q) as u64);
        let m2 = with_remaining(maker, (maker.remaining.0 - q) as u64);
        if m2.remaining.0 == 0 {
            lemma_match_level_len(t2, makers.drop_first());
        }
    }
}

/// Matching never adds an order to the side it matches against.
proof fn lemma_match_side_count(taker: Order, side: Map<u64, Seq<Order>>, limit: u64)
    requires
        side.dom().finite(),
    ensures
        side_count(match_side(taker, side, limit).1) <= side_count(side),
    decreases side.dom().len(),
{
    let k = min_key(side.dom());
    if taker.remaining.0 == 0 || !side.dom().finite() || side.dom().len() == 0
        || !side.dom().contains(k) || limit < k {
    } else {
        let r = match_level(taker, side[k]);
        lemma_side_count_remove(side, k);
        if r.1.len() == 0 {
            lemma_match_side_count(r.0, side.remove(k), limit);
        } else {
            lemma_match_level_len(taker, side[k]);
            lemma_side_count_insert(side, k, r.1);
        }
    }
}

proof fn lemma_add_to_side_count(side: Map<u64, Seq<Order>>, key: u64, order: Order)
    requires
        side.dom().finite(),
    ensures
        side_count(add_to_side(side, key, order)) == side_count(side) + 1,
{
    if side.contains_key(key) {
        lemma_side_count_insert(side, key, side[key].push(order));
    } else {
        lemma_side_count_insert(side, key, seq![order]);
    }
}

/// Entering a limit order adds at most one resting order: at most the
/// order's own remainder.
pub proof fn law_add_limit_count(book: BookView, order: Order)
    requires
        book.bids.dom().finite(),
        book.asks.dom().finite(),
    ensures
        book_count(add_limit(book, order).0) <= book_count(book) + 1,
        add_limit(book, order).0.bids.dom().finite(),
        add_limit(book, order).0.asks.dom().finite(),
{
    match order.side {
        Side::Bid => {
            let r = match_side(order, book.asks, order.price.0);
            lemma_match_side_count(order, book.asks, order.price.0);
            lemma_match_side_finite(order, book.asks, order.price.0);
            if r.0.remaining.0 > 0 {
                lemma_add_to_side_count(book.bids, bid_key(r.0.price.0), r.0);
            }
        },
        Side::Ask => {
            let r = match_side(order, book.bids, bid_key(order.price.0));
            lemma_match_side_count(order, book.bids, bid_key(order.price.0));
            lemma_match_side_finite(order, book.bids, bid_key(order.price.0));
            if r.0.remaining.0 > 0 {
                lemma_add_to_side_count(book.asks, r.0.price.0, r.0);
            }
        },
    }
}

proof fn lemma_match_side_finite(taker: Order, side: Map<u64, Seq<Order>>, limit: u64)
    requires
        side.dom().finite(),
    ensures
        match_side(taker, side, limit).1.dom().finite(),
    decreases side.dom().len(),
{
    let k = min_key(side.dom());
    if taker.remaining.0 == 0 || !side.dom().finite() || side.dom().len() == 0
        || !side.dom().contains(k) || limit < k {
    } else {
        let r = match_level(taker, side[k]);
        if r.1.len() == 0 {
            lemma_match_side_finite(r.0, side.remove(k), limit);
        }
    }
}

/// Cancelling takes exactly the cancelled order out of the book.
pub proof fn law_cancel_count(book: BookView, id: OrderId)
    requires
        book.bids.dom().finite(),
        book.asks.dom().finite(),
    ensures
        book_count(cancel(book, id).0) + (if cancel(book, id).1 is Some { 1int } else { 0int }) == book_count(book),
{
    let c = cancel(book, id);
    if side_holds(book.bids, id) {
        lemma_side_remove_count(book.bids, id);
    } else if side_holds(book.asks, id) {
        lemma_side_remove_count(book.asks, id);
    } else {
        assert(c.0.bids == book.bids);
        assert(c.0.asks == book.asks);
    }
}

proof fn lemma_side_remove_count(side: Map<u64, Seq<Order>>, id: OrderId)
    requires
        side.dom().finite(),
        side_holds(side, id),
    ensures
        side_count(side_remove(side, id)) + 1 == side_count(side),
{
    lemma_holding_key_in_dom(side, id);
    let k = holding_key(side, id);
    let lvl = side[k];
    crate::level::lemma_has_id_first_pos(lvl, id);
    let rest = lvl.remove(first_pos(lvl, id));
    if rest.len() == 0 {
        lemma_side_count_remove(side, k);
    } else {
        lemma_side_count_insert(side, k, rest);
    }
}

/// Every event adds at most one resting order.
pub proof fn law_event_count(book: BookView, se: SequencedEvent)
    requires
        book.bids.dom().finite(),
        book.asks.dom().finite(),
    ensures
        book_count(apply_event(book, se).0) <= book_count(book) + 1,
{
    match se.event {
        OrderEvent::Cancel { order_id } => {
            law_cancel_count(book, order_id);
        },
        OrderEvent::Modify { order_id, new_price, new_quantity } => {
            law_cancel_count(book, order_id);
            law_cancel_adds_no_level(book, order_id);
            let c = cancel(book, order_id);
            if let Some(o) = c.1 {
                law_add_limit_count(c.0, modified(o, new_price, new_quantity));
            }
        },
        _ => {
            law_add_limit_count(book, entered_order(se)->0);
        },
    }
}

/// A book rebuilt from events holds at most one resting order per event.
pub proof fn law_replay_count(events: Seq<SequencedEvent>)
    ensures
        book_count(replay(empty_book(), events)) <= events.len(),
    decreases events.len(),
{
    law_replay_keeps_inv(events);
    if events.len() == 0 {
        let b = empty_book();
        assert(b.bids.dom() =~= Set::<u64>::empty());
        assert(b.asks.dom() =~= Set::<u64>::empty());
    } else {
        law_replay_count(events.drop_last());
        law_replay_keeps_inv(events.drop_last());
        law_event_count(replay(empty_book(), events.drop_last()), events.last());
    }
}

/// A taker with no limit against a side that holds at least its quantity is
/// filled completely: what it trades adds up to its whole quantity.
proof fn lemma_unlimited_taker_filled(taker: Order, side: Map<u64, Seq<Order>>, is_bid: bool)
    requires
        side.dom().finite(),
        side_consistent(side, is_bid),
        side_total(side) >= taker.remaining.0,
    ensures
        match_side(taker, side, u64::MAX).0.remaining.0 == 0,
        fills_total(match_side(taker, side, u64::MAX).2) == taker.remaining.0,
{
    let r = match_side(taker, side, u64::MAX);
    law_matching_conserves_quantity(taker, side, u64::MAX);
    lemma_match_side_shape(taker, side, u64::MAX, is_bid);
    if r.0.remaining.0 > 0 {
        assert(r.1.dom() =~= Set::<u64>::empty());
        assert(side_total(r.1) == 0);
    }
}

/// A market order never rests in the book, and it is all or nothing: when the
/// opposite side holds at least its quantity it is filled completely, and
/// otherwise it trades nothing and leaves the book as it was.
pub proof fn law_market_order_all_or_nothing(book: BookView, se: SequencedEvent)
    requires
        book_inv(book),
        se.event is Market,
    ensures
        ({
            let a = apply_event(book, se);
            let side = se.event->Market_side;
            let quantity = se.event->Market_quantity;
            &&& a.1 is None
            &&& a.3
            &&& side_total(opposite_side(book, side)) >= quantity.0 ==> fills_total(a.2) == quantity.0
            &&& side_total(opposite_side(book, side)) < quantity.0 ==> {
                &&& a.0 == book
                &&& a.2.len() == 0
            }
        }),
{
    let side = se.event->Market_side;
    let quantity = se.event->Market_quantity;
    if side_total(opposite_side(book, side)) >= quantity.0 {
        let o = entered_order(se)->0;
        match side {
            Side::Bid => {
                lemma_unlimited_taker_filled(o, book.asks, false);
            },
            Side::Ask => {
                assert(bid_key(o.price.0) == u64::MAX);
                lemma_unlimited_taker_filled(o, book.bids, true);
            },
        }
    }
}

/// Some order resting on `side` has price `p`.
pub open spec fn rests_at(side: Map<u64, Seq<Order>>, p: u64) -> bool {
    exists|k: u64, i: int| side.contains_key(k) && 0 <= i < side[k].len() && (#[trigger] side[k][i]).price.0 == p
}

/// Some order rests on `side`.
pub open spec fn has_orders(side: Map<u64, Seq<Order>>) -> bool {
    exists|k: u64| side.contains_key(k) && (#[trigger] side[k]).len() > 0
}

/// In a book that keeps the invariant, the best bid is the highest price of
/// a resting bid order, and there is none exactly when no bid rests.
pub proof fn law_best_bid_is_highest(book: BookView)
    requires
        book_inv(book),
    ensures
        (best_bid(book) is None) == !has_orders(book.bids),
        best_bid(book) matches Some(p) ==> {
            &&& rests_at(book.bids, p.0)
            &&& forall|k: u64, i: int|
                book.bids.contains_key(k) && 0 <= i < book.bids[k].len() ==> (#[trigger] book.bids[k][i]).price.0 <= p.0
        },
{
    let side = book.bids;
    if side.dom().len() > 0 {
        lemma_min_exists(side.dom());
        let k = min_key(side.dom());
        assert(side[k].len() > 0);
        assert(side[k][0].price.0 == key_price(k, true));
        assert(has_orders(side));
    } else {
        assert(side.dom() =~= Set::<u64>::empty());
    }
}

/// In a book that keeps the invariant, the best ask is the lowest price of
/// a resting ask order, and there is none exactly when no ask rests.
pub proof fn law_best_ask_is_lowest(book: BookView)
    requires
        book_inv(book),
    ensures
        (best_ask(book) is None) == !has_orders(book.asks),
        best_ask(book) matches Some(p) ==> {
            &&& rests_at(book.asks, p.0)
            &&& forall|k: u64, i: int|
                book.asks.contains_key(k) && 0 <= i < book.asks[k].len() ==> p.0 <= (#[trigger] book.asks[k][i]).price.0
        },
{
    let side = book.asks;
    if side.dom().len() > 0 {
        lemma_min_exists(side.dom());
        let k = min_key(side.dom());
        assert(side[k].len() > 0);
        assert(side[k][0].price.0 == key_price(k, false));
        assert(has_orders(side));
    } else {
        assert(side.dom() =~= Set::<u64>::empty());
    }
}

/// The levels of `book` on which orders of `side` rest.
pub open spec fn own_side(book: BookView, side: Side) -> Map<u64, Seq<Order>> {
    match side {
        Side::Bid => book.bids,
        Side::Ask => book.asks,
    }
}

/// The key under which orders of `side` at `price` rest.
pub open spec fn rest_key(side: Side, price: Price) -> u64 {
    match side {
        Side::Bid => (u64::MAX - price.0) as u64,
        Side::Ask => price.0,
    }
}

/// Some level of `side` holds exactly the order `o` at position `i`.
pub open spec fn holds_order(side: Map<u64, Seq<Order>>, o: Order) -> bool {
    exists|k: u64, i: int| side.contains_key(k) && 0 <= i < side[k].len() && #[trigger] side[k][i] == o
}

/// Some order of `side` carries `id`.
pub open spec fn carries_id(side: Map<u64, Seq<Order>>, id: OrderId) -> bool {
    exists|k: u64, i: int| side.contains_key(k) && 0 <= i < side[k].len() && (#[trigger] side[k][i]).id == id
}

proof fn lemma_side_find_in_side(side: Map<u64, Seq<Order>>, id: OrderId)
    requires
        side.dom().finite(),
        side_holds(side, id),
    ensures
        side_find(side, id) matches Some(o) && o.id == id && holds_order(side, o),
{
    lemma_holding_key_in_dom(side, id);
    let k = holding_key(side, id);
    crate::level::lemma_has_id_first_pos(side[k], id);
    let i = first_pos(side[k], id);
    assert(side[k][i] == side_find(side, id)->0);
}

/// The order that a search by identifier reports, and the order that a
/// cancel returns, is an order resting in the book, field for field, and it
/// carries the identifier asked for. Nothing is reported exactly when no
/// resting order carries it.
pub proof fn law_found_order_is_resting(book: BookView, id: OrderId)
    requires
        book.bids.dom().finite(),
        book.asks.dom().finite(),
    ensures
        find_order(book, id) matches Some(o) ==> o.id == id && (holds_order(book.bids, o) || holds_order(book.asks, o)),
        (find_order(book, id) is None) == (!carries_id(book.bids, id) && !carries_id(book.asks, id)),
        cancel(book, id).1 matches Some(o) ==> o.id == id && (holds_order(book.bids, o) || holds_order(book.asks, o)),
        (cancel(book, id).1 is None) == (!carries_id(book.bids, id) && !carries_id(book.asks, id)),
{
    if side_holds(book.bids, id) {
        lemma_side_find_in_side(book.bids, id);
    } else if side_holds(book.asks, id) {
        lemma_side_find_in_side(book.asks, id);
    }
    assert(carries_id(book.bids, id) == side_holds(book.bids, id)) by {
        if carries_id(book.bids, id) {
            let (k, i) = choose|k: u64, i: int| book.bids.contains_key(k) && 0 <= i < book.bids[k].len() && (#[trigger] book.bids[k][i]).id == id;
            assert(has_id(book.bids[k], id));
        }
    }
    assert(carries_id(book.asks, id) == side_holds(book.asks, id)) by {
        if carries_id(book.asks, id) {
            let (k, i) = choose|k: u64, i: int| book.asks.contains_key(k) && 0 <= i < book.asks[k].len() && (#[trigger] book.asks[k][i]).id == id;
            assert(has_id(book.asks[k], id));
        }
    }
}

/// A limit order's remainder keeps everything of the order but its remaining
/// quantity: it rests at the order's own price, on the order's own side, as
/// the last order of the level for that price. What was filled and what
/// remains add up to what the order brought; nothing rests when it is filled.
pub proof fn law_limit_remainder_keeps_its_price(book: BookView, order: Order)
    requires
        book_inv(book),
    ensures
        ({
            let a = add_limit(book, order);
            &&& a.1 matches Some(t) ==> {
                &&& t.id == order.id
                &&& t.side == order.side
                &&& t.price == order.price
                &&& t.quantity == order.quantity
                &&& t.sequence == order.sequence
                &&& t.timestamp_ns == order.timestamp_ns
                &&& 0 < t.remaining.0
                &&& t.remaining.0 + fills_total(a.2) == order.remaining.0
                &&& own_side(a.0, order.side).contains_key(rest_key(order.side, order.price))
                &&& own_side(a.0, order.side)[rest_key(order.side, order.price)].last() == t
            }
            &&& a.1 is None ==> fills_total(a.2) == order.remaining.0
        }),
{
    match order.side {
        Side::Bid => {
            lemma_match_side_shape(order, book.asks, order.price.0, false);
            law_matching_conserves_quantity(order, book.asks, order.price.0);
        },
        Side::Ask => {
            lemma_match_side_shape(order, book.bids, bid_key(order.price.0), true);
            law_matching_conserves_quantity(order, book.bids, bid_key(order.price.0));
        },
    }
}

proof fn lemma_seq_total_positive(s: Seq<Order>)
    requires
        s.len() > 0,
        s.last().remaining.0 > 0,
    ensures
        seq_total(s) > 0,
{
}

/// The levels of `side` whose orders rest at price `p`.
pub open spec fn levels_priced(side: Map<u64, Seq<Order>>, p: u64, is_bid: bool) -> Map<u64, Seq<Order>> {
    side.restrict(side.dom().filter(|k: u64| key_price(k, is_bid) == p))
}

/// The quantity at the best price of a side is the quantity of the orders
/// resting at that price and no others: it is part of the side's total, and
/// all of it exactly when the side has at most one price level.
pub proof fn law_best_level_total(side: Map<u64, Seq<Order>>, is_bid: bool)
    requires
        side.dom().finite(),
        levels_nonempty(side),
        side_consistent(side, is_bid),
    ensures
        best_level_total(side) <= side_total(side),
        (best_level_total(side) == side_total(side)) == (side.dom().len() <= 1),
        best_key(side) matches Some(k) ==> best_level_total(side) == side_total(
            levels_priced(side, key_price(k, is_bid), is_bid),
        ),
        best_key(side) is None ==> best_level_total(side) == 0,
{
    if side.dom().len() > 0 {
        lemma_min_exists(side.dom());
        let k = min_key(side.dom());
        let rest = side.remove(k);
        assert(side_total(side) == seq_total(side[k]) + side_total(rest));
        if side.dom().len() > 1 {
            assert(rest.dom().len() > 0);
            lemma_min_exists(rest.dom());
            let k2 = min_key(rest.dom());
            assert(rest[k2].len() > 0);
            let last = rest[k2].len() - 1;
            assert(side[k2][last].remaining.0 > 0);
            lemma_seq_total_positive(rest[k2]);
            assert(side_total(rest) == seq_total(rest[k2]) + side_total(rest.remove(k2)));
        } else {
            assert(rest.dom() =~= Set::<u64>::empty());
        }
        let lp = levels_priced(side, key_price(k, is_bid), is_bid);
        assert(lp.dom() =~= set![k]);
        lemma_min_key(lp.dom(), k);
        assert(lp.remove(k).dom() =~= Set::<u64>::empty());
        assert(side_total(lp) == seq_total(lp[k]) + side_total(lp.remove(k)));
    }
}

/// The price an order has after a modify: the new one if given, else its own.
pub open spec fn price_after(o: Order, new_price: Option<Price>) -> Price {
    match new_price {
        Some(p) => p,
        None => o.price,
    }
}

/// An order of `side` at price `p` would not trade against `book`: every
/// level of the opposite side lies beyond `p`.
pub open spec fn does_not_cross(book: BookView, side: Side, p: Price) -> bool {
    match side {
        Side::Bid => forall|k: u64| #[trigger] book.asks.contains_key(k) ==> p.0 < k,
        Side::Ask => forall|k: u64| #[trigger] book.bids.contains_key(k) ==> key_price(k, true) < p.0,
    }
}

/// The order that a search finds is of the side on which it rests.
proof fn lemma_found_order_side(book: BookView, id: OrderId)
    requires
        book_inv(book),
        find_order(book, id) is Some,
    ensures
        ({
            let o = find_order(book, id)->0;
            &&& o.side == Side::Bid <==> side_holds(book.bids, id)
            &&& o.side == Side::Bid ==> o == side_find(book.bids, id)->0
            &&& o.side == Side::Ask ==> o == side_find(book.asks, id)->0
        }),
{
    if side_holds(book.bids, id) {
        lemma_side_find_in_side(book.bids, id);
        let o = side_find(book.bids, id)->0;
        let (k, i) = choose|k: u64, i: int| book.bids.contains_key(k) && 0 <= i < book.bids[k].len() && #[trigger] book.bids[k][i] == o;
        assert(book.bids[k][i].side == Side::Bid);
    } else {
        lemma_side_find_in_side(book.asks, id);
        let o = side_find(book.asks, id)->0;
        let (k, i) = choose|k: u64, i: int| book.asks.contains_key(k) && 0 <= i < book.asks[k].len() && #[trigger] book.asks[k][i] == o;
        assert(book.asks[k][i].side == Side::Ask);
    }
}

/// Modifying a resting order to a new quantity `q` (and perhaps a new price)
/// that does not cross the book: the order rests again, as the last order of
/// the level for its price, with quantity and remaining quantity both `q`,
/// its price the new one if given, and its identifier, side, sequence and
/// timestamp unchanged.
pub proof fn law_modify_sets_quantity(book: BookView, id: OrderId, new_price: Option<Price>, q: Quantity)
    requires
        book_inv(book),
        find_order(book, id) is Some,
        q.0 > 0,
        does_not_cross(book, find_order(book, id)->0.side, price_after(find_order(book, id)->0, new_price)),
    ensures
        ({
            let o = find_order(book, id)->0;
            let p = price_after(o, new_price);
            let m = modify(book, id, new_price, Some(q));
            let expected = Order {
                id: o.id,
                side: o.side,
                price: p,
                quantity: q,
                remaining: q,
                sequence: o.sequence,
                timestamp_ns: o.timestamp_ns,
            };
            &&& m.1
            &&& own_side(m.0, o.side).contains_key(rest_key(o.side, p))
            &&& own_side(m.0, o.side)[rest_key(o.side, p)].last() == expected
        }),
{
    let o = find_order(book, id)->0;
    let p = price_after(o, new_price);
    lemma_found_order_side(book, id);
    let c = cancel(book, id);
    let mo = modified(o, new_price, Some(q));
    match o.side {
        Side::Bid => {
            if book.asks.dom().len() > 0 {
                lemma_min_exists(book.asks.dom());
            }
            assert(c.0.asks == book.asks);
            assert(match_side(mo, c.0.asks, mo.price.0) == (mo, c.0.asks, Seq::<Fill>::empty()));
        },
        Side::Ask => {
            if book.bids.dom().len() > 0 {
                lemma_min_exists(book.bids.dom());
            }
            assert(c.0.bids == book.bids);
            assert(match_side(mo, c.0.bids, bid_key(mo.price.0)) == (mo, c.0.bids, Seq::<Fill>::empty()));
        },
    }
}

} // verus!
