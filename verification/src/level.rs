//! FIFO queues of resting orders and the price levels that hold them.
//!
//! An `OrderList` keeps orders in arrival order; a `PriceLevel` pairs one
//! list with the price its orders share. Removal by order id is a linear
//! scan, which is acceptable here because a level holds few orders.

use vstd::prelude::*;
use crate::order::{Order, OrderId, Price, Quantity, Side, OrderType};

verus! {

/// A FIFO queue of resting orders, front first.
#[derive(Debug, Clone)]
pub struct OrderList {
    pub orders: Vec<Order>,
}

impl View for OrderList {
    type V = Seq<Order>;

    open spec fn view(&self) -> Seq<Order> {
        self.orders@
    }
}

impl OrderList {
    pub fn new() -> (l: OrderList)
        ensures
            l@ == Seq::<Order>::empty(),
    {
        OrderList { orders: Vec::new() }
    }

    pub fn len(&self) -> (n: usize)
        ensures
            n == self@.len(),
    {
        self.orders.len()
    }

    pub fn is_empty(&self) -> (b: bool)
        ensures
            b == (self@.len() == 0),
    {
        self.orders.len() == 0
    }

    pub fn push_back(&mut self, o: Order)
        ensures
            final(self)@ == old(self)@.push(o),
    {
        self.orders.push(o);
    }

    /// The order at the front of the queue, the one with time priority.
    pub fn front(&self) -> (o: Order)
        requires
            self@.len() > 0,
        ensures
            o == self@[0],
    {
        self.orders[0]
    }

    pub fn pop_front(&mut self) -> (o: Order)
        requires
            old(self)@.len() > 0,
        ensures
            o == old(self)@[0],
            final(self)@ == old(self)@.drop_first(),
    {
        let o = self.orders.remove(0);
        proof {
            assert(final(self)@ =~= old(self)@.drop_first());
        }
        o
    }

    /// Put an order back at the front of the queue, ahead of the others.
    pub fn push_front(&mut self, o: Order)
        ensures
            final(self)@ == seq![o] + old(self)@,
    {
        self.orders.insert(0, o);
        proof {
            assert(final(self)@ =~= seq![o] + old(self)@);
        }
    }

    /// The position of the order with the given id, if any is queued.
    pub fn find_by_id(&self, order_id: OrderId) -> (r: Option<usize>)
        ensures
            match r {
                Some(j) => j < self@.len() && self@[j as int].order_id == order_id,
                None => forall|j: int| 0 <= j < self@.len() ==> self@[j].order_id != order_id,
            },
    {
        let mut j: usize = 0;
        while j < self.orders.len()
            invariant
                j <= self@.len(),
                forall|k: int| 0 <= k < j ==> self@[k].order_id != order_id,
            decreases self@.len() - j,
        {
            if self.orders[j].order_id == order_id {
                return Some(j);
            }
            j = j + 1;
        }
        None
    }

    /// Remove the order at the given position, preserving the order of the
    /// rest.
    pub fn remove_at(&mut self, j: usize) -> (o: Order)
        requires
            j < old(self)@.len(),
        ensures
            o == old(self)@[j as int],
            final(self)@ == old(self)@.remove(j as int),
    {
        self.orders.remove(j)
    }

    /// Sum of the remaining quantities of all queued orders.
    pub fn total_quantity(&self) -> (q: Quantity)
        requires
            queue_total(self@) <= u64::MAX,
        ensures
            q == queue_total(self@),
    {
        let mut q: u64 = 0;
        let mut j: usize = 0;
        while j < self.orders.len()
            invariant
                j <= self@.len(),
                q == queue_total(self@.take(j as int)),
                queue_total(self@) <= u64::MAX,
            decreases self@.len() - j,
        {
            proof {
                lemma_queue_total_take(self@, j as int);
                lemma_queue_total_from_nonneg(self@, j + 1);
                lemma_queue_total_from_step(self@, j as int);
            }
            q = q + self.orders[j].remaining_quantity;
            j = j + 1;
        }
        proof {
            assert(self@.take(self@.len() as int) =~= self@);
        }
        q
    }
}

/// Sum of remaining quantities over a queue of orders.
pub open spec fn queue_total(q: Seq<Order>) -> int
    decreases q.len(),
{
    if q.len() == 0 {
        0
    } else {
        queue_total(q.drop_last()) + q.last().remaining_quantity
    }
}

/// Sum of remaining quantities of the orders from position `j` on.
pub open spec fn queue_total_from(q: Seq<Order>, j: int) -> int
    decreases q.len() - j,
{
    if j < 0 || j >= q.len() {
        0
    } else {
        q[j].remaining_quantity + queue_total_from(q, j + 1)
    }
}

proof fn lemma_queue_total_from_step(q: Seq<Order>, j: int)
    requires
        0 <= j < q.len(),
    ensures
        queue_total(q.take(j + 1)) == queue_total(q.take(j)) + q[j].remaining_quantity,
        queue_total_from(q, j) == q[j].remaining_quantity + queue_total_from(q, j + 1),
{
    assert(q.take(j + 1).drop_last() =~= q.take(j));
    assert(q.take(j + 1).last() == q[j]);
}

/// Splitting a queue's total at any position.
pub proof fn lemma_queue_total_take(q: Seq<Order>, j: int)
    requires
        0 <= j <= q.len(),
    ensures
        queue_total(q.take(j)) + queue_total_from(q, j) == queue_total(q),
    decreases q.len() - j,
{
    if j == q.len() {
        assert(q.take(j) =~= q);
    } else {
        lemma_queue_total_take(q, j + 1);
        lemma_queue_total_from_step(q, j);
    }
}

/// Totals are never negative.
pub proof fn lemma_queue_total_nonneg(q: Seq<Order>)
    ensures
        queue_total(q) >= 0,
    decreases q.len(),
{
    if q.len() > 0 {
        lemma_queue_total_nonneg(q.drop_last());
    }
}

/// Tail sums are never negative either.
pub proof fn lemma_queue_total_from_nonneg(q: Seq<Order>, j: int)
    ensures
        queue_total_from(q, j) >= 0,
    decreases q.len() - j,
{
    if 0 <= j && j < q.len() {
        lemma_queue_total_from_nonneg(q, j + 1);
    }
}

/// A queue's total after removing one order.
pub proof fn lemma_queue_total_remove(q: Seq<Order>, j: int)
    requires
        0 <= j < q.len(),
    ensures
        queue_total(q.remove(j)) == queue_total(q) - q[j].remaining_quantity,
    decreases q.len(),
{
    if j == q.len() - 1 {
        assert(q.remove(j) =~= q.drop_last());
    } else {
        lemma_queue_total_remove(q.drop_last(), j);
        assert(q.remove(j).drop_last() =~= q.drop_last().remove(j));
        assert(q.remove(j).last() == q.last());
    }
}

/// The queue with every order bearing the given id taken out, in order.
pub open spec fn queue_without(q: Seq<Order>, order_id: OrderId) -> Seq<Order>
    decreases q.len(),
{
    if q.len() == 0 {
        Seq::<Order>::empty()
    } else if q[0].order_id == order_id {
        queue_without(q.drop_first(), order_id)
    } else {
        seq![q[0]] + queue_without(q.drop_first(), order_id)
    }
}

/// Removing an id that no queued order bears changes nothing.
pub proof fn lemma_queue_without_absent(q: Seq<Order>, order_id: OrderId)
    requires
        forall|j: int| 0 <= j < q.len() ==> q[j].order_id != order_id,
    ensures
        queue_without(q, order_id) == q,
    decreases q.len(),
{
    if q.len() > 0 {
        lemma_queue_without_absent(q.drop_first(), order_id);
        assert(seq![q[0]] + q.drop_first() =~= q);
    }
}

/// When exactly one queued order bears the id, taking the id out is the same
/// as removing that order.
pub proof fn lemma_queue_without_unique(q: Seq<Order>, order_id: OrderId, j: int)
    requires
        0 <= j < q.len(),
        q[j].order_id == order_id,
        forall|k: int| 0 <= k < q.len() && k != j ==> q[k].order_id != order_id,
    ensures
        queue_without(q, order_id) == q.remove(j),
    decreases q.len(),
{
    if j == 0 {
        lemma_queue_without_absent(q.drop_first(), order_id);
        assert(q.remove(0) =~= q.drop_first());
    } else {
        lemma_queue_without_unique(q.drop_first(), order_id, j - 1);
        assert(q.drop_first().remove(j - 1) =~= q.remove(j).drop_first());
        assert(seq![q[0]] + q.remove(j).drop_first() =~= q.remove(j));
    }
}

/// A price and the FIFO queue of orders resting at it.
#[derive(Debug, Clone)]
pub struct PriceLevel {
    pub price: Price,
    pub orders: OrderList,
}

/// Spec-level image of one price level.
pub struct LevelView {
    pub price: Price,
    pub orders: Seq<Order>,
}

impl View for PriceLevel {
    type V = LevelView;

    open spec fn view(&self) -> LevelView {
        LevelView { price: self.price, orders: self.orders@ }
    }
}

/// What it means for an order to rest at price `p` on side `side`: it keeps
/// the level's price and side, has quantity left, never overfills, and is
/// good-till-cancel — a fill-and-kill order dies inside the submit call that
/// brought it and never rests.
pub open spec fn resting_ok(o: Order, p: Price, side: Side) -> bool {
    o.price == p && o.side == side && o.order_type == OrderType::GoodToCancel && 0
        < o.remaining_quantity && o.remaining_quantity <= o.initial_quantity
}

/// A well-formed occupied level: positive price, at least one order, every
/// order resting properly, and no two queued orders sharing an id.
pub open spec fn level_wf(l: LevelView, side: Side) -> bool {
    0 < l.price && l.orders.len() > 0 && (forall|j: int|
        0 <= j < l.orders.len() ==> resting_ok(#[trigger] l.orders[j], l.price, side)) && (forall|
        j1: int,
        j2: int,
    |
        0 <= j1 < j2 < l.orders.len() ==> #[trigger] l.orders[j1].order_id
            != #[trigger] l.orders[j2].order_id)
}

} // verus!
