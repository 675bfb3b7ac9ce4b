//! Order identifiers in the book: the engine never holds two orders with the
//! same identifier, so cancelling an order removes it from the book.

use crate::engine::{apply_event, empty_book, entered_order, replay, MatchingEngine};
use crate::journal::events_of;
use crate::level::{first_pos, has_id, lemma_has_id_first_pos};
use crate::matching::{
    add_limit, add_to_side, cancel, find_order, holding_key, holding_keys, match_level, match_side, min_key, modified, modify, side_holds, side_remove,
    trade_qty, BookView,
};
use crate::order::{with_remaining, Order, OrderEvent, OrderId, Side};
use crate::sequencer::SequencedEvent;
use vstd::prelude::*;

verus! {

/// `f` maps the positions of `new` to increasing positions of `old` holding
/// the same identifiers.
pub open spec fn index_map(f: spec_fn(int) -> int, new: Seq<Order>, old: Seq<Order>) -> bool {
    &&& forall|i: int| 0 <= i < new.len() ==> 0 <= #[trigger] f(i) < old.len() && new[i].id == old[f(i)].id
    &&& forall|i: int, j: int| 0 <= i < j < new.len() ==> #[trigger] f(i) < #[trigger] f(j)
}

/// Every order of every level of `new` comes, in order, from the same level of `old`.
pub open spec fn side_embeds(new: Map<u64, Seq<Order>>, old: Map<u64, Seq<Order>>) -> bool {
    forall|k: u64| #[trigger] new.contains_key(k) ==> old.contains_key(k) && exists|f: spec_fn(int) -> int| index_map(f, new[k], old[k])
}

/// No two positions of a side hold the same identifier.
pub open spec fn side_distinct(side: Map<u64, Seq<Order>>) -> bool {
    forall|k1: u64, i1: int, k2: u64, i2: int|
        #![trigger side[k1][i1], side[k2][i2]]
        side.contains_key(k1) && side.contains_key(k2) && 0 <= i1 < side[k1].len() && 0 <= i2 < side[k2].len()
            && (k1 != k2 || i1 != i2) ==> side[k1][i1].id != side[k2][i2].id
}

/// No identifier is held on both sides.
pub open spec fn sides_disjoint(a: Map<u64, Seq<Order>>, b: Map<u64, Seq<Order>>) -> bool {
    forall|k1: u64, i1: int, k2: u64, i2: int|
        #![trigger a[k1][i1], b[k2][i2]]
        a.contains_key(k1) && b.contains_key(k2) && 0 <= i1 < a[k1].len() && 0 <= i2 < b[k2].len()
            ==> a[k1][i1].id != b[k2][i2].id
}

/// Every identifier of a side is below `n`.
pub open spec fn ids_below(side: Map<u64, Seq<Order>>, n: u64) -> bool {
    forall|k: u64, i: int| side.contains_key(k) && 0 <= i < side[k].len() ==> (#[trigger] side[k][i]).id.0 < n
}

/// The identifiers of a book are all distinct and all below `n`.
pub open spec fn ids_ok(book: BookView, n: u64) -> bool {
    &&& side_distinct(book.bids)
    &&& side_distinct(book.asks)
    &&& sides_disjoint(book.bids, book.asks)
    &&& ids_below(book.bids, n)
    &&& ids_below(book.asks, n)
}

/// Whether some order of the book carries `id`.
pub open spec fn book_holds(book: BookView, id: OrderId) -> bool {
    side_holds(book.bids, id) || side_holds(book.asks, id)
}

proof fn lemma_embeds_refl(side: Map<u64, Seq<Order>>)
    ensures
        side_embeds(side, side),
{
    assert forall|k: u64| #[trigger] side.contains_key(k) implies side.contains_key(k) && exists|f: spec_fn(int) -> int| index_map(f, side[k], side[k]) by {
        let f = |i: int| i;
        assert(index_map(f, side[k], side[k]));
    }
}

/// Matching leaves a suffix of the queue (its front possibly reduced).
proof fn lemma_match_level_suffix(taker: Order, makers: Seq<Order>)
    ensures
        exists|f: spec_fn(int) -> int| index_map(f, match_level(taker, makers).1, makers),
    decreases makers.len(),
{
    let r = match_level(taker, makers);
    if taker.remaining.0 == 0 || makers.len() == 0 {
        let f = |i: int| i;
        assert(index_map(f, r.1, makers));
    } else {
        let maker = makers[0];
        let q = trade_qty(taker, maker);
        let t2 = with_remaining(taker, (taker.remaining.0 - q) as u64);
        let m2 = with_remaining(maker, (maker.remaining.0 - q) as u64);
        if m2.remaining.0 == 0 {
            let rest = makers.drop_first();
            lemma_match_level_suffix(t2, rest);
            let g = choose|g: spec_fn(int) -> int| index_map(g, match_level(t2, rest).1, rest);
            let f = |i: int| g(i) + 1;
            assert forall|i: int| 0 <= i < r.1.len() implies 0 <= #[trigger] f(i) < makers.len() && r.1[i].id == makers[f(i)].id by {
                assert(0 <= g(i) < rest.len());
                assert(rest[g(i)] == makers[g(i) + 1]);
            }
            assert forall|i: int, j: int| 0 <= i < j < r.1.len() implies #[trigger] f(i) < #[trigger] f(j) by {
                assert(g(i) < g(j));
            }
            assert(index_map(f, r.1, makers));
        } else {
            let f = |i: int| i;
            assert(index_map(f, r.1, makers));
        }
    }
}

/// Matching against a side leaves a side embedded in it.
proof fn lemma_match_side_embeds(taker: Order, side: Map<u64, Seq<Order>>, limit: u64)
    requires
        side.dom().finite(),
    ensures
        side_embeds(match_side(taker, side, limit).1, side),
    decreases side.dom().len(),
{
    let k = min_key(side.dom());
    if taker.remaining.0 == 0 || !side.dom().finite() || side.dom().len() == 0
        || !side.dom().contains(k) || limit < k {
        lemma_embeds_refl(side);
    } else {
        let r = match_level(taker, side[k]);
        if r.1.len() == 0 {
            let rest = side.remove(k);
            lemma_match_side_embeds(r.0, rest, limit);
            let s = match_side(r.0, rest, limit).1;
            assert forall|j: u64| #[trigger] s.contains_key(j) implies side.contains_key(j) && exists|f: spec_fn(int) -> int| index_map(f, s[j], side[j]) by {
                assert(rest.contains_key(j));
                assert(rest[j] == side[j]);
            }
        } else {
            lemma_match_level_suffix(taker, side[k]);
            let s = side.insert(k, r.1);
            assert forall|j: u64| #[trigger] s.contains_key(j) implies side.contains_key(j) && exists|f: spec_fn(int) -> int| index_map(f, s[j], side[j]) by {
                if j != k {
                    let f = |i: int| i;
                    assert(index_map(f, s[j], side[j]));
                }
            }
        }
    }
}

/// Embedding keeps identifiers distinct and below a bound, and finds no identifier that was absent.
proof fn lemma_embeds_transfer(new: Map<u64, Seq<Order>>, old: Map<u64, Seq<Order>>, n: u64)
    requires
        side_embeds(new, old),
    ensures
        side_distinct(old) ==> side_distinct(new),
        ids_below(old, n) ==> ids_below(new, n),
        forall|id: OrderId| side_holds(new, id) ==> side_holds(old, id),
        forall|other: Map<u64, Seq<Order>>| sides_disjoint(old, other) ==> sides_disjoint(new, other),
        forall|other: Map<u64, Seq<Order>>| sides_disjoint(other, old) ==> sides_disjoint(other, new),
{
    if side_distinct(old) {
        assert forall|k1: u64, i1: int, k2: u64, i2: int|
            new.contains_key(k1) && new.contains_key(k2) && 0 <= i1 < new[k1].len() && 0 <= i2 < new[k2].len()
                && (k1 != k2 || i1 != i2) implies #[trigger] new[k1][i1].id != #[trigger] new[k2][i2].id by {
            let f1 = choose|f: spec_fn(int) -> int| index_map(f, new[k1], old[k1]);
            let f2 = choose|f: spec_fn(int) -> int| index_map(f, new[k2], old[k2]);
            assert(new[k1][i1].id == old[k1][f1(i1)].id);
            assert(new[k2][i2].id == old[k2][f2(i2)].id);
            if k1 == k2 {
                assert(f1 == f2);
                if i1 < i2 {
                    assert(f1(i1) < f1(i2));
                } else {
                    assert(f1(i2) < f1(i1));
                }
            }
            assert(old[k1][f1(i1)].id != old[k2][f2(i2)].id);
        }
    }
    if ids_below(old, n) {
        assert forall|k: u64, i: int| new.contains_key(k) && 0 <= i < new[k].len() implies (#[trigger] new[k][i]).id.0 < n by {
            let f = choose|f: spec_fn(int) -> int| index_map(f, new[k], old[k]);
            assert(new[k][i].id == old[k][f(i)].id);
            assert(old[k][f(i)].id.0 < n);
        }
    }
    assert forall|id: OrderId| side_holds(new, id) implies side_holds(old, id) by {
        let k = choose|k: u64| new.contains_key(k) && has_id(new[k], id);
        let i = choose|i: int| 0 <= i < new[k].len() && new[k][i].id == id;
        let f = choose|f: spec_fn(int) -> int| index_map(f, new[k], old[k]);
        assert(old[k][f(i)].id == id);
        assert(has_id(old[k], id));
    }
    assert forall|other: Map<u64, Seq<Order>>| sides_disjoint(old, other) implies sides_disjoint(new, other) by {
        assert forall|k1: u64, i1: int, k2: u64, i2: int|
            new.contains_key(k1) && other.contains_key(k2) && 0 <= i1 < new[k1].len() && 0 <= i2 < other[k2].len()
                implies #[trigger] new[k1][i1].id != #[trigger] other[k2][i2].id by {
            let f = choose|f: spec_fn(int) -> int| index_map(f, new[k1], old[k1]);
            assert(new[k1][i1].id == old[k1][f(i1)].id);
            assert(old[k1][f(i1)].id != other[k2][i2].id);
        }
    }
    assert forall|other: Map<u64, Seq<Order>>| sides_disjoint(other, old) implies sides_disjoint(other, new) by {
        assert forall|k1: u64, i1: int, k2: u64, i2: int|
            other.contains_key(k1) && new.contains_key(k2) && 0 <= i1 < other[k1].len() && 0 <= i2 < new[k2].len()
                implies #[trigger] other[k1][i1].id != #[trigger] new[k2][i2].id by {
            let f = choose|f: spec_fn(int) -> int| index_map(f, new[k2], old[k2]);
            assert(new[k2][i2].id == old[k2][f(i2)].id);
            assert(other[k1][i1].id != old[k2][f(i2)].id);
        }
    }
}

proof fn lemma_add_to_side_ids(side: Map<u64, Seq<Order>>, key: u64, o: Order, n: u64)
    requires
        !side_holds(side, o.id),
    ensures
        side_distinct(side) ==> side_distinct(add_to_side(side, key, o)),
        ids_below(side, n) && o.id.0 < n ==> ids_below(add_to_side(side, key, o), n),
        forall|other: Map<u64, Seq<Order>>| sides_disjoint(side, other) && !side_holds(other, o.id) ==> sides_disjoint(add_to_side(side, key, o), other),
        forall|other: Map<u64, Seq<Order>>| sides_disjoint(other, side) && !side_holds(other, o.id) ==> sides_disjoint(other, add_to_side(side, key, o)),
        forall|id: OrderId| side_holds(add_to_side(side, key, o), id) ==> side_holds(side, id) || id == o.id,
{
    let s2 = add_to_side(side, key, o);
    // Every position of `s2` is an old position or the new order.
    assert forall|k: u64, i: int| s2.contains_key(k) && 0 <= i < s2[k].len() implies
        (side.contains_key(k) && i < side[k].len() && (#[trigger] s2[k][i]) == side[k][i]) || s2[k][i] == o by {
        if k == key {
            if side.contains_key(key) && i < side[key].len() {
                assert(s2[k][i] == side[key][i]);
            }
        }
    }
    if side_distinct(side) {
        assert forall|k1: u64, i1: int, k2: u64, i2: int|
            s2.contains_key(k1) && s2.contains_key(k2) && 0 <= i1 < s2[k1].len() && 0 <= i2 < s2[k2].len()
                && (k1 != k2 || i1 != i2) implies #[trigger] s2[k1][i1].id != #[trigger] s2[k2][i2].id by {
            let a1 = side.contains_key(k1) && i1 < side[k1].len();
            let a2 = side.contains_key(k2) && i2 < side[k2].len();
            if a1 && a2 {
                assert(side[k1][i1].id != side[k2][i2].id);
            } else if a1 {
                assert(has_id(side[k1], side[k1][i1].id));
            } else if a2 {
                assert(has_id(side[k2], side[k2][i2].id));
            } else {
                // both are the new order: the same position
                assert(k1 == key && k2 == key);
                if side.contains_key(key) {
                    assert(i1 == side[key].len() && i2 == side[key].len());
                } else {
                    assert(i1 == 0 && i2 == 0);
                }
            }
        }
    }
    assert forall|other: Map<u64, Seq<Order>>| sides_disjoint(side, other) && !side_holds(other, o.id) implies sides_disjoint(s2, other) by {
        assert forall|k1: u64, i1: int, k2: u64, i2: int|
            s2.contains_key(k1) && other.contains_key(k2) && 0 <= i1 < s2[k1].len() && 0 <= i2 < other[k2].len()
                implies #[trigger] s2[k1][i1].id != #[trigger] other[k2][i2].id by {
            if side.contains_key(k1) && i1 < side[k1].len() {
                assert(side[k1][i1].id != other[k2][i2].id);
            } else {
                assert(has_id(other[k2], other[k2][i2].id));
            }
        }
    }
    assert forall|other: Map<u64, Seq<Order>>| sides_disjoint(other, side) && !side_holds(other, o.id) implies sides_disjoint(other, s2) by {
        assert forall|k1: u64, i1: int, k2: u64, i2: int|
            other.contains_key(k1) && s2.contains_key(k2) && 0 <= i1 < other[k1].len() && 0 <= i2 < s2[k2].len()
                implies #[trigger] other[k1][i1].id != #[trigger] s2[k2][i2].id by {
            if side.contains_key(k2) && i2 < side[k2].len() {
                assert(other[k1][i1].id != side[k2][i2].id);
            } else {
                assert(has_id(other[k1], other[k1][i1].id));
            }
        }
    }
    assert forall|id: OrderId| side_holds(s2, id) implies side_holds(side, id) || id == o.id by {
        let k = choose|k: u64| s2.contains_key(k) && has_id(s2[k], id);
        let i = choose|i: int| 0 <= i < s2[k].len() && s2[k][i].id == id;
        if side.contains_key(k) && i < side[k].len() && s2[k][i] == side[k][i] {
            assert(has_id(side[k], id));
        }
    }
}

/// Removing the order that a search finds leaves a side embedded in the old
/// one; in a side with distinct identifiers, the identifier is then gone.
proof fn lemma_side_remove_ids(side: Map<u64, Seq<Order>>, id: OrderId)
    requires
        side.dom().finite(),
    ensures
        side_embeds(side_remove(side, id), side),
        side_distinct(side) ==> !side_holds(side_remove(side, id), id),
{
    if side_holds(side, id) {
        let hk = holding_keys(side, id);
        let w = choose|k: u64| side.contains_key(k) && has_id(side[k], id);
        assert(hk.contains(w));
        vstd::set_lib::lemma_len_subset(hk, side.dom());
        crate::laws::lemma_min_exists(hk);
        let k = holding_key(side, id);
        let lvl = side[k];
        let p = first_pos(lvl, id);
        lemma_has_id_first_pos(lvl, id);
        let rest = lvl.remove(p);
        let s2 = side_remove(side, id);
        let f = |i: int| if i < p { i } else { i + 1 };
        assert(index_map(f, rest, lvl)) by {
            assert forall|i: int| 0 <= i < rest.len() implies 0 <= #[trigger] f(i) < lvl.len() && rest[i].id == lvl[f(i)].id by {
                if i < p {
                    assert(rest[i] == lvl[i]);
                } else {
                    assert(rest[i] == lvl[i + 1]);
                }
            }
        }
        assert forall|j: u64| #[trigger] s2.contains_key(j) implies side.contains_key(j) && exists|g: spec_fn(int) -> int| index_map(g, s2[j], side[j]) by {
            if j != k {
                assert(s2[j] == side[j]);
                let g = |i: int| i;
                assert(index_map(g, s2[j], side[j]));
            } else {
                assert(s2[j] == rest);
                assert(index_map(f, s2[j], side[j]));
            }
        }
        if side_distinct(side) {
            if side_holds(s2, id) {
                let j = choose|j: u64| s2.contains_key(j) && has_id(s2[j], id);
                let i = choose|i: int| 0 <= i < s2[j].len() && s2[j][i].id == id;
                if j == k {
                    assert(s2[k] == rest);
                    assert(rest[i].id == lvl[f(i)].id);
                    assert(f(i) != p);
                    assert(side[k][f(i)].id != side[k][p].id);
                } else {
                    assert(s2[j] == side[j]);
                    assert(side[j][i].id != side[k][p].id);
                }
            }
        }
    } else {
        lemma_embeds_refl(side);
    }
}

/// Entering an order whose identifier is new and below `n` keeps the book's
/// identifiers distinct and below `n`.
pub proof fn law_add_limit_keeps_ids(book: BookView, order: Order, n: u64)
    requires
        book.bids.dom().finite(),
        book.asks.dom().finite(),
        ids_ok(book, n),
        !book_holds(book, order.id),
        order.id.0 < n,
    ensures
        ids_ok(add_limit(book, order).0, n),
{
    match order.side {
        Side::Bid => {
            let r = match_side(order, book.asks, order.price.0);
            lemma_match_side_embeds(order, book.asks, order.price.0);
            lemma_embeds_transfer(r.1, book.asks, n);
            assert(r.0.id == order.id) by {
                lemma_match_side_id(order, book.asks, order.price.0);
            }
            lemma_add_to_side_ids(book.bids, crate::matching::bid_key(r.0.price.0), r.0, n);
        },
        Side::Ask => {
            let r = match_side(order, book.bids, crate::matching::bid_key(order.price.0));
            lemma_match_side_embeds(order, book.bids, crate::matching::bid_key(order.price.0));
            lemma_embeds_transfer(r.1, book.bids, n);
            assert(r.0.id == order.id) by {
                lemma_match_side_id(order, book.bids, crate::matching::bid_key(order.price.0));
            }
            lemma_add_to_side_ids(book.asks, r.0.price.0, r.0, n);
        },
    }
}

proof fn lemma_match_level_id(taker: Order, makers: Seq<Order>)
    ensures
        match_level(taker, makers).0.id == taker.id,
    decreases makers.len(),
{
    if taker.remaining.0 == 0 || makers.len() == 0 {
    } else {
        let maker = makers[0];
        let q = trade_qty(taker, maker);
        let t2 = with_remaining(taker, (taker.remaining.0 - q) as u64);
        let m2 = with_remaining(maker, (maker.remaining.0 - q) as u64);
        if m2.remaining.0 == 0 {
            lemma_match_level_id(t2, makers.drop_first());
        }
    }
}

proof fn lemma_match_side_id(taker: Order, side: Map<u64, Seq<Order>>, limit: u64)
    ensures
        match_side(taker, side, limit).0.id == taker.id,
    decreases side.dom().len(),
{
    let k = min_key(side.dom());
    if taker.remaining.0 == 0 || !side.dom().finite() || side.dom().len() == 0
        || !side.dom().contains(k) || limit < k {
    } else {
        let r = match_level(taker, side[k]);
        lemma_match_level_id(taker, side[k]);
        if r.1.len() == 0 {
            lemma_match_side_id(r.0, side.remove(k), limit);
        }
    }
}

/// Cancelling keeps the book's identifiers distinct and below `n`, and in
/// such a book the cancelled identifier is no longer found afterwards.
pub proof fn law_cancel_removes_order(book: BookView, id: OrderId, n: u64)
    requires
        book.bids.dom().finite(),
        book.asks.dom().finite(),
        ids_ok(book, n),
    ensures
        ids_ok(cancel(book, id).0, n),
        !book_holds(cancel(book, id).0, id),
        find_order(cancel(book, id).0, id) is None,
{
    lemma_side_remove_ids(book.bids, id);
    lemma_side_remove_ids(book.asks, id);
    let c = cancel(book, id).0;
    if side_holds(book.bids, id) {
        lemma_embeds_transfer(c.bids, book.bids, n);
        lemma_embeds_refl(book.asks);
        lemma_embeds_transfer(book.asks, book.asks, n);
        // the identifier is on the bid side, hence not on the ask side
        if side_holds(book.asks, id) {
            let k1 = choose|k: u64| book.bids.contains_key(k) && has_id(book.bids[k], id);
            let i1 = choose|i: int| 0 <= i < book.bids[k1].len() && book.bids[k1][i].id == id;
            let k2 = choose|k: u64| book.asks.contains_key(k) && has_id(book.asks[k], id);
            let i2 = choose|i: int| 0 <= i < book.asks[k2].len() && book.asks[k2][i].id == id;
            assert(book.bids[k1][i1].id != book.asks[k2][i2].id);
        }
    } else {
        lemma_embeds_transfer(c.asks, book.asks, n);
    }
}

proof fn lemma_ids_below_mono(book: BookView, n: u64, m: u64)
    requires
        ids_ok(book, n),
        n <= m,
    ensures
        ids_ok(book, m),
{
}

/// Modifying keeps the book's identifiers distinct and below `n`.
pub proof fn law_modify_keeps_ids(
    book: BookView,
    id: OrderId,
    new_price: Option<crate::order::Price>,
    new_quantity: Option<crate::order::Quantity>,
    n: u64,
)
    requires
        book.bids.dom().finite(),
        book.asks.dom().finite(),
        ids_ok(book, n),
    ensures
        ids_ok(modify(book, id, new_price, new_quantity).0, n),
{
    let c = cancel(book, id);
    law_cancel_removes_order(book, id, n);
    if let Some(o) = c.1 {
        // the cancelled order was in the book, so its identifier is below `n`
        let side = if side_holds(book.bids, id) { book.bids } else { book.asks };
        let hk = holding_keys(side, id);
        let w = choose|k: u64| side.contains_key(k) && has_id(side[k], id);
        assert(hk.contains(w));
        vstd::set_lib::lemma_len_subset(hk, side.dom());
        crate::laws::lemma_min_exists(hk);
        let k = holding_key(side, id);
        lemma_has_id_first_pos(side[k], id);
        assert(o == side[k][first_pos(side[k], id)]);
        assert(o.id == id);
        crate::laws::law_cancel_adds_no_level(book, id);
        law_add_limit_keeps_ids(c.0, modified(o, new_price, new_quantity), n);
    }
}

/// Every event keeps the identifiers distinct; the identifiers stay below the
/// next sequence number.
pub proof fn law_event_keeps_ids(book: BookView, se: SequencedEvent)
    requires
        book.bids.dom().finite(),
        book.asks.dom().finite(),
        ids_ok(book, se.sequence),
        se.sequence < u64::MAX,
    ensures
        ids_ok(apply_event(book, se).0, (se.sequence + 1) as u64),
{
    let n = (se.sequence + 1) as u64;
    lemma_ids_below_mono(book, se.sequence, n);
    match se.event {
        OrderEvent::Cancel { order_id } => {
            law_cancel_removes_order(book, order_id, n);
        },
        OrderEvent::Modify { order_id, new_price, new_quantity } => {
            law_modify_keeps_ids(book, order_id, new_price, new_quantity, n);
        },
        _ => {
            let o = entered_order(se)->0;
            assert(o.id.0 == se.sequence);
            if book_holds(book, o.id) {
                if side_holds(book.bids, o.id) {
                    let k = choose|k: u64| book.bids.contains_key(k) && has_id(book.bids[k], o.id);
                    let i = choose|i: int| 0 <= i < book.bids[k].len() && book.bids[k][i].id == o.id;
                    assert(book.bids[k][i].id.0 < se.sequence);
                } else {
                    let k = choose|k: u64| book.asks.contains_key(k) && has_id(book.asks[k], o.id);
                    let i = choose|i: int| 0 <= i < book.asks[k].len() && book.asks[k][i].id == o.id;
                    assert(book.asks[k][i].id.0 < se.sequence);
                }
            }
            law_add_limit_keeps_ids(book, o, n);
        },
    }
}

/// Replaying events numbered 1, 2, ... from an empty book gives a book whose
/// identifiers are distinct and below the next number.
pub proof fn law_replay_keeps_ids(events: Seq<SequencedEvent>)
    requires
        events.len() < u64::MAX,
        forall|i: int| 0 <= i < events.len() ==> (#[trigger] events[i]).sequence == i + 1,
    ensures
        ids_ok(replay(empty_book(), events), (events.len() + 1) as u64),
    decreases events.len(),
{
    crate::laws::law_replay_keeps_inv(events);
    if events.len() == 0 {
    } else {
        let init = events.drop_last();
        assert forall|i: int| 0 <= i < init.len() implies (#[trigger] init[i]).sequence == i + 1 by {
            assert(init[i] == events[i]);
        }
        law_replay_keeps_ids(init);
        crate::laws::law_replay_keeps_inv(init);
        assert(events.last().sequence == events.len());
        law_event_keeps_ids(replay(empty_book(), init), events.last());
    }
}

/// In the engine, no two resting orders share an identifier, and cancelling
/// an order removes it from the book: afterwards no search finds it.
pub proof fn law_engine_ids_unique(e: &MatchingEngine, id: OrderId)
    requires
        e.wf(),
    ensures
        ids_ok(e.book_view(), e.next_sequence()),
        find_order(cancel(e.book_view(), id).0, id) is None,
{
    let events = events_of(e.journal_view());
    law_replay_keeps_ids(events);
    crate::laws::law_replay_keeps_inv(events);
    law_cancel_removes_order(e.book_view(), id, e.next_sequence());
}

/// An order added to a side that holds no order with its identifier is what
/// a search of that side for the identifier then finds.
proof fn lemma_find_after_add(side: Map<u64, Seq<Order>>, key: u64, o: Order)
    requires
        side.dom().finite(),
        !side_holds(side, o.id),
    ensures
        side_holds(add_to_side(side, key, o), o.id),
        crate::matching::side_find(add_to_side(side, key, o), o.id) == Some(o),
{
    let s2 = add_to_side(side, key, o);
    let lvl = s2[key];
    let last = lvl.len() - 1;
    assert(lvl[last] == o);
    assert(has_id(lvl, o.id));
    let hk = holding_keys(s2, o.id);
    assert(hk =~= set![key]) by {
        assert forall|j: u64| hk.contains(j) implies j == key by {
            if j != key {
                assert(s2[j] == side[j]);
                assert(side.contains_key(j) && has_id(side[j], o.id));
            }
        }
        assert(hk.contains(key));
    }
    crate::matching::lemma_min_key(hk, key);
    assert forall|j: int| 0 <= j < last implies lvl[j].id != o.id by {
        assert(side.contains_key(key) && lvl[j] == side[key][j]);
        if lvl[j].id == o.id {
            assert(has_id(side[key], o.id));
        }
    }
    crate::level::lemma_first_pos(lvl, o.id, last);
}

/// In a book whose identifiers are distinct, modifying an order to a new
/// quantity `q` (and perhaps a new price) that does not cross the book leaves
/// the order findable under its identifier with quantity and remaining
/// quantity both `q`, its price the new one if given, and its side, sequence
/// and timestamp unchanged.
pub proof fn law_modify_found_with_quantity(
    book: BookView,
    id: OrderId,
    new_price: Option<crate::order::Price>,
    q: crate::order::Quantity,
    n: u64,
)
    requires
        crate::laws::book_inv(book),
        ids_ok(book, n),
        find_order(book, id) is Some,
        q.0 > 0,
        crate::laws::does_not_cross(
            book,
            find_order(book, id)->0.side,
            crate::laws::price_after(find_order(book, id)->0, new_price),
        ),
    ensures
        ({
            let o = find_order(book, id)->0;
            find_order(modify(book, id, new_price, Some(q)).0, id) == Some(
                Order {
                    id,
                    side: o.side,
                    price: crate::laws::price_after(o, new_price),
                    quantity: q,
                    remaining: q,
                    sequence: o.sequence,
                    timestamp_ns: o.timestamp_ns,
                },
            )
        }),
{
    let o = find_order(book, id)->0;
    crate::laws::law_found_order_is_resting(book, id);
    crate::laws::law_modify_sets_quantity(book, id, new_price, q);
    law_cancel_removes_order(book, id, n);
    let c = cancel(book, id);
    let mo = modified(o, new_price, Some(q));
    assert(mo.id == id);
    crate::laws::law_cancel_adds_no_level(book, id);
    match o.side {
        Side::Bid => {
            if book.asks.dom().len() > 0 {
                crate::laws::lemma_min_exists(book.asks.dom());
            }
            assert(match_side(mo, c.0.asks, mo.price.0) == (mo, c.0.asks, Seq::<crate::order::Fill>::empty()));
            lemma_find_after_add(c.0.bids, crate::matching::bid_key(mo.price.0), mo);
        },
        Side::Ask => {
            if book.bids.dom().len() > 0 {
                crate::laws::lemma_min_exists(book.bids.dom());
            }
            assert(c.0.bids == book.bids) by {
                if side_holds(book.bids, id) {
                    crate::laws::law_found_order_is_resting(book, id);
                }
            }
            assert(match_side(mo, c.0.bids, crate::matching::bid_key(mo.price.0)) == (mo, c.0.bids, Seq::<crate::order::Fill>::empty()));
            lemma_find_after_add(c.0.asks, mo.price.0, mo);
        },
    }
}

} // verus!
