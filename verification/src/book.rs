//! The order book: bid and ask levels in sorted maps.
//!
//! Each side is a `BTreeMap` from a key to a `Level`. Asks are keyed by price;
//! bids by `u64::MAX - price`, which orders them highest price first. On both
//! sides the first key of the map is therefore the best level.

use crate::level::{has_id, seq_total, Level};
use crate::matching::{
    add_limit, add_to_side, best_ask, best_bid, best_level_total, bid_key, cancel, fill_of,
    find_order, holding_key, holding_keys, is_min_key, keys_total, lemma_match_level_rest,
    lemma_min_key, lemma_side_count_keys, lemma_side_total_keys, keys_count, side_count, match_level, match_side, min_key, modify, side_find,
    side_holds, side_remove, side_total, sorted_keys_of, spread, trade_qty, BookView,
};
use crate::order::{with_remaining, Fill, Order, OrderId, Price, Quantity, Side};
use std::collections::BTreeMap;
use vstd::prelude::*;
use vstd::std_specs::cmp::OrdSpec;
use vstd::std_specs::iter::IteratorSpec;

verus! {

broadcast use vstd::std_specs::btree::group_btree_axioms;

/// The queues of a map of levels.
pub open spec fn levels_view(m: Map<u64, Level>) -> Map<u64, Seq<Order>> {
    m.map_values(|l: Level| l@)
}

/// A side's queues are keyed exactly like its levels, and there are finitely many.
proof fn lemma_side_dom(side: &BTreeMap<u64, Level>)
    ensures
        levels_view(side@).dom() == side@.dom(),
        side@.dom().finite(),
{
    assert(levels_view(side@).dom() =~= side@.dom());
}

/// The smallest key of a map of levels.
fn first_key(m: &BTreeMap<u64, Level>) -> (r: Option<u64>)
    ensures
        r is None ==> m@.dom().len() == 0,
        r matches Some(k) ==> is_min_key(m@.dom(), k),
{
    let mut res: Option<u64> = None;
    let ghost rem = vstd::std_specs::btree::spec_btree_map_iter(m).remaining();
    for (k, _v) in it: m.iter()
        invariant_except_break
            res is None,
            it.index() == 0,
        invariant
            it.seq() == rem,
        ensures
            res is None ==> rem.len() == 0,
            res matches Some(k) ==> rem.len() > 0 && k == *rem[0].0,
    {
        res = Some(*k);
        break;
    }
    proof {
        assert(rem.len() == m@.dom().len());
        if let Some(k) = res {
            let keys = rem.map_values(|kv: (&u64, &Level)| *kv.0);
            assert(keys[0] == k);
            assert forall|j: u64| m@.contains_key(j) implies k <= j by {
                assert(rem.contains((&j, &m@[j])));
                let idx = choose|idx: int| 0 <= idx < rem.len() && rem[idx] == (&j, &m@[j]);
                assert(keys[idx] == j);
                if idx > 0 {
                    assert(keys[0].cmp_spec(&keys[idx]) is Less);
                }
            }
        }
    }
    res
}

/// The keys of a map of levels in increasing order.
fn sorted_keys(m: &BTreeMap<u64, Level>) -> (ks: Vec<u64>)
    ensures
        sorted_keys_of(levels_view(m@), ks@),
{
    let mut ks: Vec<u64> = Vec::new();
    let ghost rem = vstd::std_specs::btree::spec_btree_map_iter(m).remaining();
    let ghost keys = rem.map_values(|kv: (&u64, &Level)| *kv.0);
    for (k, _v) in it: m.iter()
        invariant
            it.seq() == rem,
            keys == rem.map_values(|kv: (&u64, &Level)| *kv.0),
            ks@ == keys.take(it.index()),
    {
        proof {
            assert(keys.take(it.index() + 1) =~= keys.take(it.index()).push(*k));
        }
        ks.push(*k);
    }
    proof {
        assert(ks@ =~= keys);
        assert(rem.len() == m@.dom().len());
        assert forall|i: int, j: int| 0 <= i < j < ks@.len() implies ks@[i] < ks@[j] by {
            assert(keys[i].cmp_spec(&keys[j]) is Less);
        }
        assert forall|k: u64| levels_view(m@).contains_key(k) <==> ks@.contains(k) by {
            if m@.contains_key(k) {
                assert(rem.contains((&k, &m@[k])));
                let idx = choose|idx: int| 0 <= idx < rem.len() && rem[idx] == (&k, &m@[k]);
                assert(keys[idx] == k);
            }
            if ks@.contains(k) {
                let idx = choose|idx: int| 0 <= idx < ks@.len() && ks@[idx] == k;
                assert(m@.contains_key(*rem[idx].0));
            }
        }
    }
    ks
}

/// Where in a side the first order carrying `order_id` is: its key.
fn locate(side: &BTreeMap<u64, Level>, order_id: OrderId) -> (r: Option<u64>)
    ensures
        match r {
            Some(k) => {
                &&& side_holds(levels_view(side@), order_id)
                &&& is_min_key(holding_keys(levels_view(side@), order_id), k)
                &&& k == holding_key(levels_view(side@), order_id)
                &&& side@.contains_key(k)
            },
            None => !side_holds(levels_view(side@), order_id),
        },
{
    let ghost v = levels_view(side@);
    let ks = sorted_keys(side);
    let n = ks.len();
    let mut i: usize = 0;
    while i < n
        invariant
            n == ks@.len(),
            i <= n,
            v == levels_view(side@),
            sorted_keys_of(v, ks@),
            forall|j: int| 0 <= j < i ==> !has_id(v[ks@[j]], order_id),
        decreases n - i,
    {
        let k = ks[i];
        assert(ks@.contains(k));
        let level = side.get(&k).unwrap();
        if level.get_order(order_id).is_some() {
            proof {
                assert(holding_keys(v, order_id).contains(k));
                assert forall|j: u64| holding_keys(v, order_id).contains(j) implies k <= j by {
                    assert(ks@.contains(j));
                    let t = choose|t: int| 0 <= t < ks@.len() && ks@[t] == j;
                    if t < i {
                        assert(!has_id(v[ks@[t]], order_id));
                    } else if t > i {
                        assert(ks@[i as int] < ks@[t]);
                    }
                }
                lemma_min_key(holding_keys(v, order_id), k);
            }
            return Some(k);
        }
        i += 1;
    }
    proof {
        assert forall|k: u64| v.contains_key(k) implies !has_id(v[k], order_id) by {
            assert(ks@.contains(k));
        }
    }
    None
}

/// The complete order book for one market.
#[derive(Debug)]
pub struct OrderBook {
    /// Bid levels keyed by `u64::MAX - price` (highest price first)
    bids: BTreeMap<u64, Level>,
    /// Ask levels keyed by price (lowest price first)
    asks: BTreeMap<u64, Level>,
}

impl View for OrderBook {
    type V = BookView;

    closed spec fn view(&self) -> BookView {
        BookView { bids: levels_view(self.bids@), asks: levels_view(self.asks@) }
    }
}

impl OrderBook {
    /// Create a new empty order book.
    pub fn new() -> (r: Self)
        ensures
            r@.bids == Map::<u64, Seq<Order>>::empty(),
            r@.asks == Map::<u64, Seq<Order>>::empty(),
    {
        let r = OrderBook { bids: BTreeMap::new(), asks: BTreeMap::new() };
        proof {
            assert(levels_view(r.bids@) =~= Map::<u64, Seq<Order>>::empty());
            assert(levels_view(r.asks@) =~= Map::<u64, Seq<Order>>::empty());
        }
        r
    }

    /// Match `order` against the queue of `level`, front to back.
    fn match_level(level: &mut Level, order: &mut Order, fills: &mut Vec<Fill>)
        ensures
            ({
                let r = match_level(*old(order), old(level)@);
                &&& *final(order) == r.0
                &&& final(level)@ == r.1
                &&& final(fills)@ == old(fills)@ + r.2
            }),
    {
        let ghost target = match_level(*order, level@);
        let ghost f0 = fills@;
        while order.is_live() && !level.is_empty()
            invariant
                match_level(*order, level@).0 == target.0,
                match_level(*order, level@).1 == target.1,
                fills@ + match_level(*order, level@).2 == f0 + target.2,
            decreases level@.len(), (if order.remaining.0 > 0 { 1int } else { 0int }),
        {
            let ghost o1 = *order;
            let ghost l1 = level@;
            let ghost fl1 = fills@;
            match level.front_mut() {
                Some(maker) => {
                    let fill_qty = if order.remaining.0 < maker.remaining.0 {
                        order.remaining.0
                    } else {
                        maker.remaining.0
                    };
                    fills.push(
                        Fill {
                            maker_id: maker.id,
                            taker_id: order.id,
                            price: maker.price,
                            quantity: Quantity(fill_qty),
                        },
                    );
                    maker.reduce_remaining(Quantity(fill_qty));
                    order.reduce_remaining(Quantity(fill_qty));
                    if maker.is_filled() {
                        level.pop_front();
                    }
                },
                None => {
                    proof {
                        assert(false);
                    }
                },
            }
            proof {
                let q = trade_qty(o1, l1[0]);
                let f = fill_of(l1[0], o1, q);
                assert(fills@ == fl1.push(f));
                let m2 = with_remaining(l1[0], (l1[0].remaining.0 - q) as u64);
                if m2.remaining.0 == 0 {
                    assert(level@ =~= l1.drop_first());
                    assert(fl1 + match_level(o1, l1).2 =~= fills@ + match_level(*order, level@).2);
                } else {
                    assert(level@ =~= l1.update(0, m2));
                    assert(fl1 + match_level(o1, l1).2 =~= fills@ + match_level(*order, level@).2);
                }
            }
        }
        proof {
            assert(fills@ =~= fills@ + match_level(*order, level@).2);
        }
    }

    /// Match a bid against the ask side, best (lowest) ask first.
    fn match_against_asks(&mut self, order: &mut Order, fills: &mut Vec<Fill>)
        ensures
            ({
                let r = match_side(*old(order), old(self)@.asks, old(order).price.0);
                &&& *final(order) == r.0
                &&& final(self)@.asks == r.1
                &&& final(self)@.bids == old(self)@.bids
                &&& final(fills)@ == old(fills)@ + r.2
            }),
    {
        let ghost limit = order.price.0;
        let ghost target = match_side(*order, self@.asks, limit);
        let ghost f0 = fills@;
        while order.is_live() && !self.asks.is_empty()
            invariant
                order.price.0 == limit,
                self@.bids == old(self)@.bids,
                match_side(*order, self@.asks, limit).0 == target.0,
                match_side(*order, self@.asks, limit).1 == target.1,
                fills@ + match_side(*order, self@.asks, limit).2 == f0 + target.2,
            ensures
                match_side(*order, self@.asks, limit) == (*order, self@.asks, Seq::<Fill>::empty()),
            decreases self.asks@.dom().len(), (if order.remaining.0 > 0 { 1int } else { 0int }),
        {
            let ghost o1 = *order;
            let ghost a1 = self@.asks;
            let ghost fl1 = fills@;
            let ghost old_asks_dom = self.asks@.dom();
            let best_ask = match first_key(&self.asks) {
                Some(k) => k,
                None => {
                    proof {
                        assert(false);
                    }
                    0
                },
            };
            proof {
                lemma_min_key(self.asks@.dom(), best_ask);
            }
            if order.price.0 < best_ask {
                break;
            }
            let mut level = self.asks.remove(&best_ask).unwrap();
            proof {
                assert(a1.dom() =~= old_asks_dom);
                assert(a1.dom().finite());
                assert(a1.dom().len() > 0);
                assert(min_key(a1.dom()) == best_ask);
                assert(level@ == a1[best_ask]);
                lemma_match_level_rest(o1, a1[best_ask]);
            }
            let ghost lv0 = level@;
            Self::match_level(&mut level, order, fills);
            proof {
                let r = match_level(o1, lv0);
                assert(*order == r.0);
                assert(level@ == r.1);
            }
            if !level.is_empty() {
                self.asks.insert(best_ask, level);
                proof {
                    assert(self@.asks =~= a1.insert(best_ask, level@));
                }
            } else {
                proof {
                    assert(self@.asks =~= a1.remove(best_ask));
                }
            }
            proof {
                assert(fl1 + match_side(o1, a1, limit).2 =~= fills@ + match_side(*order, self@.asks, limit).2);
            }
        }
        proof {
            assert(fills@ =~= fills@ + match_side(*order, self@.asks, limit).2);
        }
    }
    /// Match an ask against the bid side, best (highest) bid first.
    fn match_against_bids(&mut self, order: &mut Order, fills: &mut Vec<Fill>)
        ensures
            ({
                let r = match_side(*old(order), old(self)@.bids, bid_key(old(order).price.0));
                &&& *final(order) == r.0
                &&& final(self)@.bids == r.1
                &&& final(self)@.asks == old(self)@.asks
                &&& final(fills)@ == old(fills)@ + r.2
            }),
    {
        let ghost limit = bid_key(order.price.0);
        let ghost target = match_side(*order, self@.bids, limit);
        let ghost f0 = fills@;
        while order.is_live() && !self.bids.is_empty()
            invariant
                bid_key(order.price.0) == limit,
                self@.asks == old(self)@.asks,
                match_side(*order, self@.bids, limit).0 == target.0,
                match_side(*order, self@.bids, limit).1 == target.1,
                fills@ + match_side(*order, self@.bids, limit).2 == f0 + target.2,
            ensures
                match_side(*order, self@.bids, limit) == (*order, self@.bids, Seq::<Fill>::empty()),
            decreases self.bids@.dom().len(), (if order.remaining.0 > 0 { 1int } else { 0int }),
        {
            let ghost o1 = *order;
            let ghost b1 = self@.bids;
            let ghost fl1 = fills@;
            let ghost old_bids_dom = self.bids@.dom();
            let best_key = match first_key(&self.bids) {
                Some(k) => k,
                None => {
                    proof {
                        assert(false);
                    }
                    0
                },
            };
            proof {
                lemma_min_key(self.bids@.dom(), best_key);
            }
            let best_bid = u64::MAX - best_key;
            if order.price.0 > best_bid {
                break;
            }
            let mut level = self.bids.remove(&best_key).unwrap();
            proof {
                assert(b1.dom() =~= old_bids_dom);
                assert(b1.dom().finite());
                assert(b1.dom().len() > 0);
                assert(min_key(b1.dom()) == best_key);
                assert(level@ == b1[best_key]);
                lemma_match_level_rest(o1, b1[best_key]);
            }
            let ghost lv0 = level@;
            Self::match_level(&mut level, order, fills);
            proof {
                let r = match_level(o1, lv0);
                assert(*order == r.0);
                assert(level@ == r.1);
            }
            if !level.is_empty() {
                self.bids.insert(best_key, level);
                proof {
                    assert(self@.bids =~= b1.insert(best_key, level@));
                }
            } else {
                proof {
                    assert(self@.bids =~= b1.remove(best_key));
                }
            }
            proof {
                assert(fl1 + match_side(o1, b1, limit).2 =~= fills@ + match_side(*order, self@.bids, limit).2);
            }
        }
        proof {
            assert(fills@ =~= fills@ + match_side(*order, self@.bids, limit).2);
        }
    }

    /// Append `order` to the level under `key`, creating the level if absent.
    fn rest_order(side: &mut BTreeMap<u64, Level>, key: u64, order: Order)
        ensures
            levels_view(final(side)@) == add_to_side(levels_view(old(side)@), key, order),
    {
        let ghost v0 = levels_view(side@);
        match side.remove(&key) {
            Some(mut level) => {
                level.add_order(order);
                side.insert(key, level);
                proof {
                    assert(levels_view(side@) =~= add_to_side(v0, key, order));
                }
            },
            None => {
                let mut level = Level::new();
                level.add_order(order);
                side.insert(key, level);
                proof {
                    assert(level@ =~= seq![order]);
                    assert(levels_view(side@) =~= add_to_side(v0, key, order));
                }
            },
        }
    }

    /// Add a limit order: match it against the opposite side, then rest what
    /// remains of it. Returns the resting remainder (if any) and the fills.
    pub fn add_limit_order(&mut self, order: Order) -> (r: (Option<Order>, Vec<Fill>))
        ensures
            ({
                let s = add_limit(old(self)@, order);
                &&& final(self)@ == s.0
                &&& r.0 == s.1
                &&& r.1@ == s.2
            }),
    {
        let ghost order_in = order;
        let mut order = order;
        let mut fills: Vec<Fill> = Vec::new();
        match order.side {
            Side::Bid => {
                self.match_against_asks(&mut order, &mut fills);
                if order.is_live() {
                    Self::rest_order(&mut self.bids, u64::MAX - order.price.0, order);
                }
            },
            Side::Ask => {
                self.match_against_bids(&mut order, &mut fills);
                if order.is_live() {
                    Self::rest_order(&mut self.asks, order.price.0, order);
                }
            },
        }
        proof {
            assert(fills@ =~= Seq::<Fill>::empty() + fills@);
            assert(self@ =~= add_limit(old(self)@, order_in).0);
        }
        (if order.is_live() { Some(order) } else { None }, fills)
    }

    /// Remove the order that `side_find` reports from a side.
    fn cancel_in_side(side: &mut BTreeMap<u64, Level>, order_id: OrderId) -> (r: Option<Order>)
        ensures
            levels_view(final(side)@) == side_remove(levels_view(old(side)@), order_id),
            r == side_find(levels_view(old(side)@), order_id),
    {
        let ghost v = levels_view(side@);
        match locate(side, order_id) {
            Some(k) => {
                let mut level = side.remove(&k).unwrap();
                proof {
                    assert(level@ == v[k]);
                    assert(holding_keys(v, order_id).contains(k));
                }
                let r = level.remove_order(order_id);
                if !level.is_empty() {
                    side.insert(k, level);
                }
                proof {
                    assert(levels_view(side@) =~= side_remove(v, order_id));
                }
                r
            },
            None => None,
        }
    }

    /// Cancel an order by ID, returning the cancelled order if found. The
    /// bid side is searched first, best level first; a level that the cancel
    /// empties leaves the book.
    pub fn cancel_order(&mut self, order_id: OrderId) -> (r: Option<Order>)
        ensures
            (final(self)@, r) == cancel(old(self)@, order_id),
    {
        let r = Self::cancel_in_side(&mut self.bids, order_id);
        if r.is_some() {
            return r;
        }
        Self::cancel_in_side(&mut self.asks, order_id)
    }

    /// Modify an order's price and/or quantity: it is cancelled, changed and
    /// entered again as a limit order. Returns whether the order was found.
    pub fn modify_order(
        &mut self,
        order_id: OrderId,
        new_price: Option<Price>,
        new_quantity: Option<Quantity>,
    ) -> (r: bool)
        ensures
            (final(self)@, r) == modify(old(self)@, order_id, new_price, new_quantity),
    {
        if let Some(mut order) = self.cancel_order(order_id) {
            if let Some(price) = new_price {
                order.price = price;
            }
            if let Some(quantity) = new_quantity {
                order.quantity = quantity;
                order.remaining = quantity;
            }
            let (_remaining, _fills) = self.add_limit_order(order);
            true
        } else {
            false
        }
    }

    /// The best (highest) bid price.
    pub fn best_bid(&self) -> (r: Option<Price>)
        ensures
            r == best_bid(self@),
    {
        proof {
            lemma_side_dom(&self.bids);
        }
        match first_key(&self.bids) {
            Some(k) => {
                proof {
                    lemma_min_key(self.bids@.dom(), k);
                }
                Some(Price(u64::MAX - k))
            },
            None => None,
        }
    }

    /// The best (lowest) ask price.
    pub fn best_ask(&self) -> (r: Option<Price>)
        ensures
            r == best_ask(self@),
    {
        proof {
            lemma_side_dom(&self.asks);
        }
        match first_key(&self.asks) {
            Some(k) => {
                proof {
                    lemma_min_key(self.asks@.dom(), k);
                }
                Some(Price(k))
            },
            None => None,
        }
    }

    /// The current spread; `None` when a side is empty or the market is crossed.
    pub fn spread(&self) -> (r: Option<i64>)
        ensures
            r == spread(self@),
    {
        match (self.best_bid(), self.best_ask()) {
            (Some(bid), Some(ask)) => {
                if bid.0 < ask.0 {
                    Some((ask.0 - bid.0) as i64)
                } else {
                    None
                }
            },
            _ => None,
        }
    }

    /// Total remaining quantity of the best level of a side.
    fn quantity_at_best(side: &BTreeMap<u64, Level>) -> (r: Quantity)
        requires
            best_level_total(levels_view(side@)) <= u64::MAX,
        ensures
            r.0 == best_level_total(levels_view(side@)),
    {
        proof {
            lemma_side_dom(side);
        }
        match first_key(side) {
            Some(k) => {
                proof {
                    lemma_min_key(side@.dom(), k);
                }
                side.get(&k).unwrap().total_quantity()
            },
            None => Quantity(0),
        }
    }

    /// Total quantity at the best bid (zero when there is no bid).
    pub fn bid_quantity_at_best(&self) -> (r: Quantity)
        requires
            best_level_total(self@.bids) <= u64::MAX,
        ensures
            r.0 == best_level_total(self@.bids),
    {
        Self::quantity_at_best(&self.bids)
    }

    /// Total quantity at the best ask (zero when there is no ask).
    pub fn ask_quantity_at_best(&self) -> (r: Quantity)
        requires
            best_level_total(self@.asks) <= u64::MAX,
        ensures
            r.0 == best_level_total(self@.asks),
    {
        Self::quantity_at_best(&self.asks)
    }

    /// The order that `side_find` reports in a side, copied.
    fn find_in_side(side: &BTreeMap<u64, Level>, order_id: OrderId) -> (r: Option<Order>)
        ensures
            r == side_find(levels_view(side@), order_id),
    {
        match locate(side, order_id) {
            Some(k) => {
                let level = side.get(&k).unwrap();
                match level.get_order(order_id) {
                    Some(o) => Some(*o),
                    None => {
                        proof {
                            assert(holding_keys(levels_view(side@), order_id).contains(k));
                        }
                        None
                    },
                }
            },
            None => None,
        }
    }

    /// Get an order by ID: the bid side is searched first, best level first.
    pub fn get_order(&self, order_id: OrderId) -> (r: Option<Order>)
        ensures
            r == find_order(self@, order_id),
    {
        let r = Self::find_in_side(&self.bids, order_id);
        if r.is_some() {
            return r;
        }
        Self::find_in_side(&self.asks, order_id)
    }

    /// Sum of the remaining quantities on one side.
    fn side_quantity(side: &BTreeMap<u64, Level>) -> (r: Quantity)
        requires
            side_total(levels_view(side@)) <= u64::MAX,
        ensures
            r.0 == side_total(levels_view(side@)),
    {
        let ghost v = levels_view(side@);
        let ks = sorted_keys(side);
        proof {
            lemma_side_dom(side);
            lemma_side_total_keys(v, ks@);
        }
        let n = ks.len();
        let mut sum: u64 = 0;
        proof {
            assert(ks@.skip(0) =~= ks@);
        }
        let mut i: usize = 0;
        while i < n
            invariant
                n == ks@.len(),
                i <= n,
                v == levels_view(side@),
                sorted_keys_of(v, ks@),
                sum + keys_total(v, ks@.skip(i as int)) == keys_total(v, ks@),
                keys_total(v, ks@) <= u64::MAX,
            decreases n - i,
        {
            let k = ks[i];
            assert(ks@.contains(k));
            proof {
                assert(ks@.skip(i as int).drop_first() =~= ks@.skip(i + 1));
            }
            let q = side.get(&k).unwrap().total_quantity();
            sum = sum + q.0;
            i += 1;
        }
        proof {
            assert(ks@.skip(n as int) =~= Seq::<u64>::empty());
        }
        Quantity(sum)
    }

    /// Number of orders resting on one side.
    fn side_orders(side: &BTreeMap<u64, Level>) -> (r: u64)
        requires
            side_count(levels_view(side@)) <= u64::MAX,
        ensures
            r == side_count(levels_view(side@)),
    {
        let ghost v = levels_view(side@);
        let ks = sorted_keys(side);
        proof {
            lemma_side_dom(side);
            lemma_side_count_keys(v, ks@);
            assert(ks@.skip(0) =~= ks@);
        }
        let n = ks.len();
        let mut sum: u64 = 0;
        let mut i: usize = 0;
        while i < n
            invariant
                n == ks@.len(),
                i <= n,
                v == levels_view(side@),
                sorted_keys_of(v, ks@),
                sum + keys_count(v, ks@.skip(i as int)) == keys_count(v, ks@),
                keys_count(v, ks@) <= u64::MAX,
            decreases n - i,
        {
            let k = ks[i];
            assert(ks@.contains(k));
            proof {
                assert(ks@.skip(i as int).drop_first() =~= ks@.skip(i + 1));
            }
            let c = side.get(&k).unwrap().len();
            sum = sum + c as u64;
            i += 1;
        }
        proof {
            assert(ks@.skip(n as int) =~= Seq::<u64>::empty());
        }
        sum
    }

    /// Number of orders resting in the book, both sides.
    pub(crate) fn order_count(&self) -> (r: u64)
        requires
            side_count(self@.bids) + side_count(self@.asks) <= u64::MAX,
        ensures
            r == side_count(self@.bids) + side_count(self@.asks),
    {
        Self::side_orders(&self.bids) + Self::side_orders(&self.asks)
    }

    /// Whether a side holds at least `quantity` in all.
    fn side_covers(side: &BTreeMap<u64, Level>, quantity: u64) -> (r: bool)
        ensures
            r == (side_total(levels_view(side@)) >= quantity),
    {
        let ghost v = levels_view(side@);
        let ks = sorted_keys(side);
        proof {
            lemma_side_dom(side);
            lemma_side_total_keys(v, ks@);
            assert(ks@.skip(0) =~= ks@);
        }
        let n = ks.len();
        let mut sum: u64 = 0;
        let ghost mut prefix: nat = 0;
        let mut i: usize = 0;
        while i < n
            invariant
                n == ks@.len(),
                i <= n,
                v == levels_view(side@),
                sorted_keys_of(v, ks@),
                prefix + keys_total(v, ks@.skip(i as int)) == keys_total(v, ks@),
                sum == (if prefix < quantity { prefix } else { quantity as nat }),
            decreases n - i,
        {
            let k = ks[i];
            assert(ks@.contains(k));
            proof {
                assert(ks@.skip(i as int).drop_first() =~= ks@.skip(i + 1));
            }
            let c = side.get(&k).unwrap().capped_total(quantity);
            proof {
                prefix = prefix + seq_total(v[k]);
            }
            if sum < quantity && c < quantity - sum {
                sum = sum + c;
            } else {
                sum = quantity;
            }
            i += 1;
        }
        proof {
            assert(ks@.skip(n as int) =~= Seq::<u64>::empty());
        }
        sum >= quantity
    }

    /// Whether the orders resting on `side` hold at least `quantity` in all.
    pub(crate) fn covers(&self, side: Side, quantity: u64) -> (r: bool)
        ensures
            r == (side_total(match side {
                Side::Bid => self@.bids,
                Side::Ask => self@.asks,
            }) >= quantity),
    {
        match side {
            Side::Bid => Self::side_covers(&self.bids, quantity),
            Side::Ask => Self::side_covers(&self.asks, quantity),
        }
    }

    /// Total remaining quantity on the bid side.
    pub fn total_bid_quantity(&self) -> (r: Quantity)
        requires
            side_total(self@.bids) <= u64::MAX,
        ensures
            r.0 == side_total(self@.bids),
    {
        Self::side_quantity(&self.bids)
    }

    /// Total remaining quantity on the ask side.
    pub fn total_ask_quantity(&self) -> (r: Quantity)
        requires
            side_total(self@.asks) <= u64::MAX,
        ensures
            r.0 == side_total(self@.asks),
    {
        Self::side_quantity(&self.asks)
    }

    /// Number of price levels on the bid side.
    pub fn bid_levels(&self) -> (r: usize)
        ensures
            r == self@.bids.dom().len(),
    {
        proof {
            lemma_side_dom(&self.bids);
        }
        self.bids.len()
    }

    /// Number of price levels on the ask side.
    pub fn ask_levels(&self) -> (r: usize)
        ensures
            r == self@.asks.dom().len(),
    {
        proof {
            lemma_side_dom(&self.asks);
        }
        self.asks.len()
    }
}

impl Default for OrderBook {
    fn default() -> (r: Self)
        ensures
            r@.bids == Map::<u64, Seq<Order>>::empty(),
            r@.asks == Map::<u64, Seq<Order>>::empty(),
    {
        Self::new()
    }
}

} // verus!
