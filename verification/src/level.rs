//! A price level: the orders resting at one price, in arrival order.
//!
//! Orders at a level are matched first-in first-out, which together with the
//! book's best-price-first walk gives price-time priority.

use crate::order::{Order, OrderId, Quantity};
use std::collections::VecDeque;
use vstd::prelude::*;
use vstd::std_specs::iter::IteratorSpec;

verus! {

/// Whether some order of `lvl` carries the identifier `id`.
pub open spec fn has_id(lvl: Seq<Order>, id: OrderId) -> bool {
    exists|i: int| 0 <= i < lvl.len() && lvl[i].id == id
}

/// `i` is the first position of `lvl` whose order carries `id`.
pub open spec fn is_first_pos(lvl: Seq<Order>, id: OrderId, i: int) -> bool {
    &&& 0 <= i < lvl.len()
    &&& lvl[i].id == id
    &&& forall|j: int| 0 <= j < i ==> lvl[j].id != id
}

/// The first position of `lvl` whose order carries `id` (meaningful when `has_id`).
pub open spec fn first_pos(lvl: Seq<Order>, id: OrderId) -> int {
    choose|i: int| is_first_pos(lvl, id, i)
}

/// Sum of the remaining quantities of the orders in `s`.
pub open spec fn seq_total(s: Seq<Order>) -> nat
    decreases s.len(),
{
    if s.len() == 0 {
        0
    } else {
        seq_total(s.drop_last()) + s.last().remaining.0 as nat
    }
}

/// The first position is unique.
pub proof fn lemma_first_pos(lvl: Seq<Order>, id: OrderId, i: int)
    requires
        is_first_pos(lvl, id, i),
    ensures
        first_pos(lvl, id) == i,
        has_id(lvl, id),
{
    let c = first_pos(lvl, id);
    assert(is_first_pos(lvl, id, c));
    if c < i {
        assert(lvl[c].id != id);
    } else if i < c {
        assert(lvl[i].id != id);
    }
}

/// A level that holds `id` has a first position for it.
pub proof fn lemma_has_id_first_pos(lvl: Seq<Order>, id: OrderId)
    requires
        has_id(lvl, id),
    ensures
        is_first_pos(lvl, id, first_pos(lvl, id)),
    decreases lvl.len(),
{
    if lvl[0].id == id {
        lemma_first_pos(lvl, id, 0);
    } else {
        let rest = lvl.drop_first();
        let w = choose|i: int| 0 <= i < lvl.len() && lvl[i].id == id;
        assert(rest[w - 1].id == id);
        lemma_has_id_first_pos(rest, id);
        let p = first_pos(rest, id);
        assert forall|j: int| 0 <= j < p + 1 implies lvl[j].id != id by {
            if j > 0 {
                assert(lvl[j] == rest[j - 1]);
            }
        }
        lemma_first_pos(lvl, id, p + 1);
    }
}

/// A prefix never holds more than the whole sequence.
pub proof fn lemma_seq_total_prefix(s: Seq<Order>, i: int)
    requires
        0 <= i <= s.len(),
    ensures
        seq_total(s.take(i)) <= seq_total(s),
    decreases s.len() - i,
{
    if i < s.len() {
        lemma_seq_total_prefix(s, i + 1);
        assert(s.take(i + 1).drop_last() =~= s.take(i));
    } else {
        assert(s.take(i) =~= s);
    }
}

/// The orders resting at one price, first-in first-out.
#[derive(Debug)]
pub struct Level {
    /// Queue of orders at this price level, in FIFO order
    orders: VecDeque<Order>,
}

impl View for Level {
    type V = Seq<Order>;

    closed spec fn view(&self) -> Seq<Order> {
        self.orders@
    }
}

/// Mutable access to the front of a queue.
///
/// Calls `VecDeque::front_mut`. Claims: on an empty queue it returns `None` and
/// leaves the queue as it was; otherwise it returns a reference to the first
/// element, and whatever is written through it becomes the queue's first
/// element, the rest unchanged.
#[verifier::external_body]
fn deque_front_mut(d: &mut VecDeque<Order>) -> (r: Option<&mut Order>)
    ensures
        old(d)@.len() == 0 ==> r is None && final(d)@ == old(d)@,
        old(d)@.len() > 0 ==> r is Some && *r->0 == old(d)@[0] && final(d)@ == old(
            d,
        )@.update(0, *final(r->0)),
{
    d.front_mut()
}

/// Mutable access to one element of a queue.
///
/// Calls `VecDeque::get_mut`. Claims: for an index past the end it returns
/// `None` and leaves the queue as it was; otherwise it returns a reference to
/// the element at `i`, and whatever is written through it replaces that
/// element, the rest unchanged.
#[verifier::external_body]
fn deque_get_mut(d: &mut VecDeque<Order>, i: usize) -> (r: Option<&mut Order>)
    ensures
        i >= old(d)@.len() ==> r is None && final(d)@ == old(d)@,
        i < old(d)@.len() ==> r is Some && *r->0 == old(d)@[i as int] && final(d)@ == old(
            d,
        )@.update(i as int, *final(r->0)),
{
    d.get_mut(i)
}

impl Level {
    /// Create a new empty price level.
    pub fn new() -> (r: Self)
        ensures
            r@ == Seq::<Order>::empty(),
    {
        Level { orders: VecDeque::new() }
    }

    /// Add an order at the back of the queue.
    pub fn add_order(&mut self, order: Order)
        ensures
            final(self)@ == old(self)@.push(order),
    {
        self.orders.push_back(order);
    }

    /// The first position holding `order_id`, if any.
    fn position_of(&self, order_id: OrderId) -> (r: Option<usize>)
        ensures
            match r {
                Some(i) => is_first_pos(self@, order_id, i as int),
                None => !has_id(self@, order_id),
            },
    {
        let n = self.orders.len();
        let mut i: usize = 0;
        while i < n
            invariant
                n == self@.len(),
                i <= n,
                forall|j: int| 0 <= j < i ==> self@[j].id != order_id,
            decreases n - i,
        {
            if self.orders[i].id == order_id {
                return Some(i);
            }
            i += 1;
        }
        None
    }

    /// Remove the first order carrying `order_id`, returning it if found.
    pub fn remove_order(&mut self, order_id: OrderId) -> (r: Option<Order>)
        ensures
            has_id(old(self)@, order_id) ==> {
                let i = first_pos(old(self)@, order_id);
                &&& r == Some(old(self)@[i])
                &&& final(self)@ == old(self)@.remove(i)
            },
            !has_id(old(self)@, order_id) ==> r is None && final(self)@ == old(self)@,
    {
        match self.position_of(order_id) {
            Some(pos) => {
                proof {
                    lemma_first_pos(self@, order_id, pos as int);
                }
                self.orders.remove(pos)
            },
            None => None,
        }
    }

    /// Mutable access to the first (front) order.
    pub fn front_mut(&mut self) -> (r: Option<&mut Order>)
        ensures
            old(self)@.len() == 0 ==> r is None && final(self)@ == old(self)@,
            old(self)@.len() > 0 ==> r is Some && *r->0 == old(self)@[0] && final(self)@ == old(
                self,
            )@.update(0, *final(r->0)),
    {
        deque_front_mut(&mut self.orders)
    }

    /// The first (front) order.
    pub fn front(&self) -> (r: Option<&Order>)
        ensures
            self@.len() == 0 ==> r is None,
            self@.len() > 0 ==> r == Some(&self@[0]),
    {
        if self.orders.len() == 0 {
            None
        } else {
            Some(&self.orders[0])
        }
    }

    /// Remove and return the first (front) order.
    pub fn pop_front(&mut self) -> (r: Option<Order>)
        ensures
            old(self)@.len() == 0 ==> r is None && final(self)@ == old(self)@,
            old(self)@.len() > 0 ==> r == Some(old(self)@[0]) && final(self)@ == old(
                self,
            )@.drop_first(),
    {
        let r = self.orders.pop_front();
        proof {
            if old(self)@.len() > 0 {
                assert(self@ =~= old(self)@.drop_first());
            }
        }
        r
    }

    /// The first order carrying `order_id`.
    pub fn get_order(&self, order_id: OrderId) -> (r: Option<&Order>)
        ensures
            has_id(self@, order_id) ==> r == Some(&self@[first_pos(self@, order_id)]),
            !has_id(self@, order_id) ==> r is None,
    {
        match self.position_of(order_id) {
            Some(pos) => {
                proof {
                    lemma_first_pos(self@, order_id, pos as int);
                }
                Some(&self.orders[pos])
            },
            None => None,
        }
    }

    /// Mutable access to the first order carrying `order_id`.
    pub fn get_order_mut(&mut self, order_id: OrderId) -> (r: Option<&mut Order>)
        ensures
            has_id(old(self)@, order_id) ==> {
                let i = first_pos(old(self)@, order_id);
                &&& r is Some
                &&& *r->0 == old(self)@[i]
                &&& final(self)@ == old(self)@.update(i, *final(r->0))
            },
            !has_id(old(self)@, order_id) ==> r is None && final(self)@ == old(self)@,
    {
        match self.position_of(order_id) {
            Some(pos) => {
                proof {
                    lemma_first_pos(self@, order_id, pos as int);
                }
                deque_get_mut(&mut self.orders, pos)
            },
            None => None,
        }
    }

    /// Mutable access to the order at position `index` of the queue (front is
    /// 0): the level's orders are reached one by one for writing through
    /// indices `0 .. len()`.
    pub fn get_mut(&mut self, index: usize) -> (r: Option<&mut Order>)
        ensures
            index >= old(self)@.len() ==> r is None && final(self)@ == old(self)@,
            index < old(self)@.len() ==> {
                &&& r is Some
                &&& *r->0 == old(self)@[index as int]
                &&& final(self)@ == old(self)@.update(index as int, *final(r->0))
            },
    {
        deque_get_mut(&mut self.orders, index)
    }

    /// Total remaining quantity at this level.
    pub fn total_quantity(&self) -> (r: Quantity)
        requires
            seq_total(self@) <= u64::MAX,
        ensures
            r.0 == seq_total(self@),
    {
        let n = self.orders.len();
        let mut sum: u64 = 0;
        let mut i: usize = 0;
        while i < n
            invariant
                n == self@.len(),
                i <= n,
                sum == seq_total(self@.take(i as int)),
                seq_total(self@) <= u64::MAX,
            decreases n - i,
        {
            proof {
                lemma_seq_total_prefix(self@, i + 1);
                assert(self@.take(i + 1).drop_last() =~= self@.take(i as int));
            }
            sum = sum + self.orders[i].remaining.0;
            i += 1;
        }
        proof {
            assert(self@.take(n as int) =~= self@);
        }
        Quantity(sum)
    }

    /// Total remaining quantity at this level, capped at `cap`.
    pub(crate) fn capped_total(&self, cap: u64) -> (r: u64)
        ensures
            r == (if seq_total(self@) < cap { seq_total(self@) } else { cap as nat }),
    {
        let n = self.orders.len();
        let mut sum: u64 = 0;
        let mut i: usize = 0;
        while i < n
            invariant
                n == self@.len(),
                i <= n,
                sum == (if seq_total(self@.take(i as int)) < cap { seq_total(self@.take(i as int)) } else { cap as nat }),
            decreases n - i,
        {
            proof {
                assert(self@.take(i + 1).drop_last() =~= self@.take(i as int));
            }
            let q = self.orders[i].remaining.0;
            if sum < cap && q < cap - sum {
                sum = sum + q;
            } else {
                sum = cap;
            }
            i += 1;
        }
        proof {
            assert(self@.take(n as int) =~= self@);
        }
        sum
    }

    /// Whether no order rests here.
    pub fn is_empty(&self) -> (r: bool)
        ensures
            r == (self@.len() == 0),
    {
        self.orders.len() == 0
    }

    /// Iterate over the orders at this level, front to back.
    pub fn iter(&self) -> (r: std::collections::vec_deque::Iter<'_, Order>)
        ensures
            r.remaining() == self@.as_ref(),
    {
        self.orders.iter()
    }

    /// Number of orders at this level.
    pub fn len(&self) -> (r: usize)
        ensures
            r == self@.len(),
    {
        self.orders.len()
    }
}

impl Default for Level {
    fn default() -> (r: Self)
        ensures
            r@ == Seq::<Order>::empty(),
    {
        Self::new()
    }
}

} // verus!
