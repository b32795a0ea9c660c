//! The mathematical model of the matching pass.
//!
//! An incoming order walks the opposite side of the book best level first,
//! filling against resting orders in FIFO order while its limit still
//! crosses. These spec functions define that walk; the executable book in
//! `match_core` is proved to follow them step by step.

use vstd::prelude::*;
use crate::order::{Order, OrderId, Price, Quantity, Side, OrderType, Trade, TradeInfo};
use crate::level::{LevelView, queue_total};

verus! {

/// The side an incoming order trades against.
pub open spec fn opposite(side: Side) -> Side {
    match side {
        Side::Buy => Side::Sell,
        Side::Sell => Side::Buy,
    }
}

/// Whether a limit price on the given side crosses a resting level's price.
pub open spec fn crosses(side: Side, limit: Price, level_price: Price) -> bool {
    match side {
        Side::Buy => limit >= level_price,
        Side::Sell => limit <= level_price,
    }
}

/// Whether price `a` has strictly better priority than price `b` on a side:
/// higher for bids, lower for asks.
pub open spec fn price_before(side: Side, a: Price, b: Price) -> bool {
    match side {
        Side::Buy => a > b,
        Side::Sell => a < b,
    }
}

/// The smaller of two quantities: what one fill exchanges.
pub open spec fn min_qty(a: Quantity, b: Quantity) -> Quantity {
    if a <= b {
        a
    } else {
        b
    }
}

/// The order after `qty` units of it have been filled.
pub open spec fn after_fill(o: Order, qty: Quantity) -> Order {
    Order { remaining_quantity: (o.remaining_quantity - qty) as Quantity, ..o }
}

/// The trade one fill emits. Both legs report the resting order's price:
/// the incoming aggressor trades at the price that was already on the book.
pub open spec fn make_trade(agg: Order, resting: Order, qty: Quantity) -> Trade {
    match agg.side {
        Side::Buy => Trade {
            bid_trade: TradeInfo { order_id: agg.order_id, price: resting.price, quantity: qty },
            ask_trade: TradeInfo {
                order_id: resting.order_id,
                price: resting.price,
                quantity: qty,
            },
        },
        Side::Sell => Trade {
            bid_trade: TradeInfo {
                order_id: resting.order_id,
                price: resting.price,
                quantity: qty,
            },
            ask_trade: TradeInfo { order_id: agg.order_id, price: resting.price, quantity: qty },
        },
    }
}

/// Fill the incoming order `agg` against the FIFO queue `q` of one level,
/// front first, until one of them runs out. Returns the trades emitted, the
/// queue that is left, and the incoming order as it stands afterwards.
pub open spec fn match_queue(agg: Order, q: Seq<Order>) -> (Seq<Trade>, Seq<Order>, Order)
    decreases q.len(),
{
    if agg.remaining_quantity == 0 || q.len() == 0 {
        (Seq::<Trade>::empty(), q, agg)
    } else {
        let resting = q[0];
        let qty = min_qty(agg.remaining_quantity, resting.remaining_quantity);
        let agg2 = after_fill(agg, qty);
        let resting2 = after_fill(resting, qty);
        let t = make_trade(agg, resting, qty);
        if resting2.remaining_quantity == 0 {
            let (ts, q2, agg3) = match_queue(agg2, q.drop_first());
            (seq![t] + ts, q2, agg3)
        } else {
            (seq![t], seq![resting2] + q.drop_first(), agg2)
        }
    }
}

/// Walk the opposite side of the book, best level first: fill against each
/// level the incoming order still crosses, dropping levels as they empty.
pub open spec fn match_levels(agg: Order, ls: Seq<LevelView>) -> (Seq<Trade>, Seq<LevelView>, Order)
    decreases ls.len(),
{
    if agg.remaining_quantity == 0 || ls.len() == 0 || !crosses(agg.side, agg.price, ls[0].price) {
        (Seq::<Trade>::empty(), ls, agg)
    } else {
        let (ts, q2, agg2) = match_queue(agg, ls[0].orders);
        if q2.len() == 0 {
            let (ts2, ls2, agg3) = match_levels(agg2, ls.drop_first());
            (ts + ts2, ls2, agg3)
        } else {
            (ts, seq![LevelView { price: ls[0].price, orders: q2 }] + ls.drop_first(), agg2)
        }
    }
}

/// Total quantity exchanged by a sequence of trades.
pub open spec fn trades_total(ts: Seq<Trade>) -> int
    decreases ts.len(),
{
    if ts.len() == 0 {
        0
    } else {
        trades_total(ts.drop_last()) + ts.last().bid_trade.quantity
    }
}

/// Sum of remaining quantities over all levels of one side.
pub open spec fn side_total(ls: Seq<LevelView>) -> int
    decreases ls.len(),
{
    if ls.len() == 0 {
        0
    } else {
        queue_total(ls[0].orders) + side_total(ls.drop_first())
    }
}

/// One side of the book after taking out every order bearing the given id,
/// dropping any level that becomes empty.
pub open spec fn side_without(ls: Seq<LevelView>, order_id: OrderId) -> Seq<LevelView>
    decreases ls.len(),
{
    if ls.len() == 0 {
        Seq::<LevelView>::empty()
    } else {
        let q = crate::level::queue_without(ls[0].orders, order_id);
        let rest = side_without(ls.drop_first(), order_id);
        if q.len() == 0 {
            rest
        } else {
            seq![LevelView { price: ls[0].price, orders: q }] + rest
        }
    }
}

/// One side of the book after admitting a resting order: appended to the
/// back of its price's level, or opening a new level in price order.
pub open spec fn side_insert(ls: Seq<LevelView>, o: Order, side: Side) -> Seq<LevelView>
    decreases ls.len(),
{
    if ls.len() == 0 {
        seq![LevelView { price: o.price, orders: seq![o] }]
    } else if ls[0].price == o.price {
        seq![LevelView { price: ls[0].price, orders: ls[0].orders.push(o) }] + ls.drop_first()
    } else if price_before(side, o.price, ls[0].price) {
        seq![LevelView { price: o.price, orders: seq![o] }] + ls
    } else {
        seq![ls[0]] + side_insert(ls.drop_first(), o, side)
    }
}

/// Taking an id out that no order on the side bears changes nothing.
pub proof fn lemma_side_without_absent(ls: Seq<LevelView>, order_id: OrderId)
    requires
        forall|i: int| 0 <= i < ls.len() ==> (#[trigger] ls[i]).orders.len() > 0,
        forall|i: int, j: int|
            0 <= i < ls.len() && 0 <= j < ls[i].orders.len() ==> (#[trigger] ls[i].orders[j]).order_id
                != order_id,
    ensures
        side_without(ls, order_id) == ls,
    decreases ls.len(),
{
    if ls.len() > 0 {
        crate::level::lemma_queue_without_absent(ls[0].orders, order_id);
        assert(forall|i: int| 0 <= i < ls.drop_first().len() ==> ls.drop_first()[i] == ls[i + 1]);
        lemma_side_without_absent(ls.drop_first(), order_id);
        assert(seq![LevelView { price: ls[0].price, orders: ls[0].orders }] + ls.drop_first()
            =~= ls);
    }
}

/// When exactly one order on the side bears the id — at position `j` of
/// level `i` — taking the id out removes just that order, and the level too
/// when it was alone there.
pub proof fn lemma_side_without_unique(ls: Seq<LevelView>, order_id: OrderId, i: int, j: int)
    requires
        forall|i2: int| 0 <= i2 < ls.len() ==> (#[trigger] ls[i2]).orders.len() > 0,
        0 <= i < ls.len(),
        0 <= j < ls[i].orders.len(),
        ls[i].orders[j].order_id == order_id,
        forall|i2: int, j2: int|
            0 <= i2 < ls.len() && 0 <= j2 < ls[i2].orders.len() && (i2 != i || j2 != j)
                ==> (#[trigger] ls[i2].orders[j2]).order_id != order_id,
    ensures
        side_without(ls, order_id) == if ls[i].orders.len() == 1 {
            ls.remove(i)
        } else {
            ls.update(i, LevelView { price: ls[i].price, orders: ls[i].orders.remove(j) })
        },
    decreases ls.len(),
{
    assert(ls.len() > 0);
    assert(ls.drop_first() =~= ls.subrange(1, ls.len() as int));
    assert(forall|i2: int| 0 <= i2 < ls.len() - 1 ==> #[trigger] ls.drop_first()[i2] == ls[i2 + 1]);
    if i == 0 {
        crate::level::lemma_queue_without_unique(ls[0].orders, order_id, j);
        lemma_side_without_absent(ls.drop_first(), order_id);
        if ls[0].orders.len() == 1 {
            assert(ls[0].orders.remove(j).len() == 0);
            assert(side_without(ls, order_id) =~= ls.remove(0));
        } else {
            assert(seq![LevelView { price: ls[0].price, orders: ls[0].orders.remove(j) }]
                + ls.drop_first() =~= ls.update(
                0,
                LevelView { price: ls[0].price, orders: ls[0].orders.remove(j) },
            ));
        }
    } else {
        crate::level::lemma_queue_without_absent(ls[0].orders, order_id);
        lemma_side_without_unique(ls.drop_first(), order_id, i - 1, j);
        if ls[i].orders.len() == 1 {
            assert(ls.drop_first().remove(i - 1) =~= ls.remove(i).drop_first());
            assert(seq![LevelView { price: ls[0].price, orders: ls[0].orders }] + ls.remove(
                i,
            ).drop_first() =~= ls.remove(i));
        } else {
            let l2 = LevelView { price: ls[i].price, orders: ls[i].orders.remove(j) };
            assert(ls.drop_first().update(i - 1, l2) =~= ls.update(i, l2).drop_first());
            assert(seq![LevelView { price: ls[0].price, orders: ls[0].orders }] + ls.update(
                i,
                l2,
            ).drop_first() =~= ls.update(i, l2));
        }
    }
}

/// Where the insertion lands when the scan stopped at position `pos`: on the
/// level already at the order's price, or as a fresh level just before the
/// first worse-priced one.
pub proof fn lemma_side_insert_at(ls: Seq<LevelView>, o: Order, side: Side, pos: int)
    requires
        0 <= pos <= ls.len(),
        forall|i: int|
            0 <= i < pos ==> price_before(side, (#[trigger] ls[i]).price, o.price),
        pos < ls.len() ==> (ls[pos].price == o.price || price_before(side, o.price, ls[pos].price)),
    ensures
        side_insert(ls, o, side) == if pos < ls.len() && ls[pos].price == o.price {
            ls.update(pos, LevelView { price: ls[pos].price, orders: ls[pos].orders.push(o) })
        } else {
            ls.insert(pos, LevelView { price: o.price, orders: seq![o] })
        },
    decreases ls.len(),
{
    assert(forall|i: int| 0 <= i < ls.len() - 1 ==> #[trigger] ls.drop_first()[i] == ls[i + 1]);
    if pos == 0 {
        if ls.len() > 0 && ls[0].price == o.price {
            assert(seq![LevelView { price: ls[0].price, orders: ls[0].orders.push(o) }]
                + ls.drop_first() =~= ls.update(
                0,
                LevelView { price: ls[0].price, orders: ls[0].orders.push(o) },
            ));
        } else if ls.len() == 0 {
            assert(side_insert(ls, o, side) =~= ls.insert(
                0,
                LevelView { price: o.price, orders: seq![o] },
            ));
        } else {
            assert(seq![LevelView { price: o.price, orders: seq![o] }] + ls =~= ls.insert(
                0,
                LevelView { price: o.price, orders: seq![o] },
            ));
        }
    } else {
        assert(price_before(side, ls[0].price, o.price));
        lemma_side_insert_at(ls.drop_first(), o, side, pos - 1);
        if pos < ls.len() && ls[pos].price == o.price {
            let l2 = LevelView { price: ls[pos].price, orders: ls[pos].orders.push(o) };
            assert(ls.drop_first().update(pos - 1, l2) =~= ls.update(pos, l2).drop_first());
            assert(seq![LevelView { price: ls[0].price, orders: ls[0].orders }] + ls.update(
                pos,
                l2,
            ).drop_first() =~= ls.update(pos, l2));
        } else {
            let nl = LevelView { price: o.price, orders: seq![o] };
            assert(ls.drop_first().insert(pos - 1, nl) =~= ls.insert(pos, nl).drop_first());
            assert(ls.insert(pos, nl)[0] == ls[0]);
            assert(seq![LevelView { price: ls[0].price, orders: ls[0].orders }] + ls.insert(
                pos,
                nl,
            ).drop_first() =~= ls.insert(pos, nl));
        }
    }
}

/// Totals after replacing one level.
pub proof fn lemma_side_total_update(ls: Seq<LevelView>, i: int, l2: LevelView)
    requires
        0 <= i < ls.len(),
    ensures
        side_total(ls.update(i, l2)) == side_total(ls) - queue_total(ls[i].orders) + queue_total(
            l2.orders,
        ),
    decreases ls.len(),
{
    assert(ls.len() > 0);
    assert(forall|k: int| 0 <= k < ls.len() - 1 ==> #[trigger] ls.drop_first()[k] == ls[k + 1]);
    if i == 0 {
        assert(ls.update(0, l2).drop_first() =~= ls.drop_first());
    } else {
        lemma_side_total_update(ls.drop_first(), i - 1, l2);
        assert(ls.update(i, l2).drop_first() =~= ls.drop_first().update(i - 1, l2));
        assert(ls.update(i, l2)[0] == ls[0]);
    }
}

/// Totals after removing one level.
pub proof fn lemma_side_total_remove(ls: Seq<LevelView>, i: int)
    requires
        0 <= i < ls.len(),
    ensures
        side_total(ls.remove(i)) == side_total(ls) - queue_total(ls[i].orders),
    decreases ls.len(),
{
    assert(forall|k: int| 0 <= k < ls.drop_first().len() ==> ls.drop_first()[k] == ls[k + 1]);
    if i == 0 {
        assert(ls.remove(0) =~= ls.drop_first());
    } else {
        lemma_side_total_remove(ls.drop_first(), i - 1);
        assert(ls.remove(i).drop_first() =~= ls.drop_first().remove(i - 1));
        assert(ls.remove(i)[0] == ls[0]);
    }
}

/// Totals after inserting one level.
pub proof fn lemma_side_total_insert(ls: Seq<LevelView>, i: int, l: LevelView)
    requires
        0 <= i <= ls.len(),
    ensures
        side_total(ls.insert(i, l)) == side_total(ls) + queue_total(l.orders),
    decreases ls.len(),
{
    assert(forall|k: int| 0 <= k < ls.len() - 1 ==> #[trigger] ls.drop_first()[k] == ls[k + 1]);
    if i == 0 {
        assert(ls.insert(0, l)[0] == l);
        assert(ls.insert(0, l).drop_first() =~= ls);
    } else {
        lemma_side_total_insert(ls.drop_first(), i - 1, l);
        assert(ls.insert(i, l).drop_first() =~= ls.drop_first().insert(i - 1, l));
        assert(ls.insert(i, l)[0] == ls[0]);
    }
}

/// Every level's total is at most the side's total.
pub proof fn lemma_level_total_le_side(ls: Seq<LevelView>, i: int)
    requires
        0 <= i < ls.len(),
    ensures
        queue_total(ls[i].orders) <= side_total(ls),
        side_total(ls) >= 0,
    decreases ls.len(),
{
    crate::level::lemma_queue_total_nonneg(ls[0].orders);
    lemma_side_total_nonneg(ls.drop_first());
    if i == 0 {
    } else {
        lemma_level_total_le_side(ls.drop_first(), i - 1);
        assert(ls.drop_first()[i - 1] == ls[i]);
    }
}

/// A side's total is never negative.
pub proof fn lemma_side_total_nonneg(ls: Seq<LevelView>)
    ensures
        side_total(ls) >= 0,
    decreases ls.len(),
{
    if ls.len() > 0 {
        crate::level::lemma_queue_total_nonneg(ls[0].orders);
        lemma_side_total_nonneg(ls.drop_first());
    }
}

/// Taking an id out never increases a queue's total.
pub proof fn lemma_queue_without_total(q: Seq<Order>, order_id: OrderId)
    ensures
        queue_total(crate::level::queue_without(q, order_id)) <= queue_total(q),
        queue_total(crate::level::queue_without(q, order_id)) >= 0,
    decreases q.len(),
{
    crate::level::lemma_queue_total_nonneg(crate::level::queue_without(q, order_id));
    if q.len() > 0 {
        lemma_queue_without_total(q.drop_first(), order_id);
        lemma_queue_total_drop_first(q);
        if q[0].order_id != order_id {
            let w = seq![q[0]] + crate::level::queue_without(q.drop_first(), order_id);
            assert(w[0] == q[0]);
            assert(w.drop_first() =~= crate::level::queue_without(q.drop_first(), order_id));
            lemma_queue_total_drop_first(w);
        }
    }
}

/// Taking an id out never increases a side's total.
pub proof fn lemma_side_without_total(ls: Seq<LevelView>, order_id: OrderId)
    ensures
        side_total(side_without(ls, order_id)) <= side_total(ls),
        side_total(side_without(ls, order_id)) >= 0,
    decreases ls.len(),
{
    lemma_side_total_nonneg(side_without(ls, order_id));
    if ls.len() > 0 {
        lemma_side_without_total(ls.drop_first(), order_id);
        crate::level::lemma_queue_total_nonneg(ls[0].orders);
        lemma_queue_without_total(ls[0].orders, order_id);
        let q = crate::level::queue_without(ls[0].orders, order_id);
        if q.len() > 0 {
            let w = seq![LevelView { price: ls[0].price, orders: q }] + side_without(
                ls.drop_first(),
                order_id,
            );
            assert(w[0].orders == q);
            assert(w.drop_first() =~= side_without(ls.drop_first(), order_id));
        }
    }
}

/// Appending one order raises a queue's total by its remaining quantity.
pub proof fn lemma_queue_total_push(q: Seq<Order>, o: Order)
    ensures
        queue_total(q.push(o)) == queue_total(q) + o.remaining_quantity,
{
    assert(q.push(o).drop_last() =~= q);
    assert(q.push(o).last() == o);
}

/// Resting one order raises its side's total by its remaining quantity.
pub proof fn lemma_side_insert_total(ls: Seq<LevelView>, o: Order, side: Side)
    ensures
        side_total(side_insert(ls, o, side)) == side_total(ls) + o.remaining_quantity,
    decreases ls.len(),
{
    let w = side_insert(ls, o, side);
    assert(queue_total(seq![o]) == o.remaining_quantity) by {
        assert(seq![o].len() == 1);
        assert(seq![o].last() == o);
        assert(seq![o].drop_last() =~= Seq::<Order>::empty());
        assert(queue_total(seq![o].drop_last()) == 0);
    }
    if ls.len() == 0 {
        assert(w == seq![LevelView { price: o.price, orders: seq![o] }]);
        assert(w.len() == 1);
        assert(w[0].orders == seq![o]);
        assert(w.drop_first() =~= Seq::<LevelView>::empty());
        assert(side_total(w.drop_first()) == 0);
        assert(side_total(w) == queue_total(seq![o]) + 0);
    } else if ls[0].price == o.price {
        lemma_queue_total_push(ls[0].orders, o);
        assert(w == seq![LevelView { price: ls[0].price, orders: ls[0].orders.push(o) }]
            + ls.drop_first());
        assert(w.len() == ls.len());
        assert(w[0].orders == ls[0].orders.push(o));
        assert(w.drop_first() =~= ls.drop_first());
        assert(side_total(w) == queue_total(ls[0].orders.push(o)) + side_total(ls.drop_first()));
        assert(side_total(ls) == queue_total(ls[0].orders) + side_total(ls.drop_first()));
    } else if price_before(side, o.price, ls[0].price) {
        assert(w == seq![LevelView { price: o.price, orders: seq![o] }] + ls);
        assert(w.len() == ls.len() + 1);
        assert(w[0].orders == seq![o]);
        assert(w.drop_first() =~= ls);
        assert(side_total(w) == queue_total(seq![o]) + side_total(ls));
    } else {
        lemma_side_insert_total(ls.drop_first(), o, side);
        assert(w == seq![ls[0]] + side_insert(ls.drop_first(), o, side));
        assert(w.len() == side_insert(ls.drop_first(), o, side).len() + 1);
        assert(w[0] == ls[0]);
        assert(w.drop_first() =~= side_insert(ls.drop_first(), o, side));
        assert(side_total(w) == queue_total(ls[0].orders) + side_total(
            side_insert(ls.drop_first(), o, side),
        ));
        assert(side_total(ls) == queue_total(ls[0].orders) + side_total(ls.drop_first()));
    }
}

/// Both sides of a matching book, as one value.
pub struct BookView {
    pub bids: Seq<LevelView>,
    pub asks: Seq<LevelView>,
}

impl BookView {
    pub open spec fn side(self, side: Side) -> Seq<LevelView> {
        match side {
            Side::Buy => self.bids,
            Side::Sell => self.asks,
        }
    }

    pub open spec fn with_side(self, side: Side, ls: Seq<LevelView>) -> BookView {
        match side {
            Side::Buy => BookView { bids: ls, ..self },
            Side::Sell => BookView { asks: ls, ..self },
        }
    }
}

/// The whole effect of admitting an order that passed the duplicate and
/// marketability checks: the matching walk against the opposite side,
/// followed by resting any residue — unless the order is fill-and-kill, in
/// which case the residue is cancelled on the spot.
pub open spec fn spec_submit(b: BookView, o: Order) -> (Seq<Trade>, BookView) {
    let (ts, opp2, rest) = match_levels(o, b.side(opposite(o.side)));
    let own2 = if rest.remaining_quantity > 0 && rest.order_type == OrderType::GoodToCancel {
        side_insert(b.side(o.side), rest, o.side)
    } else {
        b.side(o.side)
    };
    (ts, b.with_side(opposite(o.side), opp2).with_side(o.side, own2))
}

/// Unfolding one fill of the walk: filling the front order of the front
/// level (then dropping it if exhausted, and its level if emptied) commutes
/// with `match_levels`.
pub proof fn lemma_match_levels_step(agg: Order, ls: Seq<LevelView>)
    requires
        agg.remaining_quantity > 0,
        ls.len() > 0,
        crosses(agg.side, agg.price, ls[0].price),
        ls[0].orders.len() > 0,
        ls[0].orders[0].remaining_quantity > 0,
    ensures
        ({
            let resting = ls[0].orders[0];
            let qty = min_qty(agg.remaining_quantity, resting.remaining_quantity);
            let agg2 = after_fill(agg, qty);
            let resting2 = after_fill(resting, qty);
            let t = make_trade(agg, resting, qty);
            let ls2 = if resting2.remaining_quantity > 0 {
                ls.update(
                    0,
                    LevelView {
                        price: ls[0].price,
                        orders: seq![resting2] + ls[0].orders.drop_first(),
                    },
                )
            } else if ls[0].orders.len() > 1 {
                ls.update(0, LevelView { price: ls[0].price, orders: ls[0].orders.drop_first() })
            } else {
                ls.drop_first()
            };
            let full = match_levels(agg, ls);
            let rest_run = match_levels(agg2, ls2);
            full.0 == seq![t] + rest_run.0 && full.1 == rest_run.1 && full.2 == rest_run.2
        }),
{
    let resting = ls[0].orders[0];
    let qty = min_qty(agg.remaining_quantity, resting.remaining_quantity);
    let agg2 = after_fill(agg, qty);
    let resting2 = after_fill(resting, qty);
    let t = make_trade(agg, resting, qty);
    let q = ls[0].orders;
    let mq = match_queue(agg, q);
    if resting2.remaining_quantity > 0 {
        // The fill exhausted the incoming order; the queue keeps its front.
        let ls2 = ls.update(
            0,
            LevelView { price: ls[0].price, orders: seq![resting2] + q.drop_first() },
        );
        assert(agg2.remaining_quantity == 0);
        assert(mq.0 == seq![t] && mq.1 == seq![resting2] + q.drop_first() && mq.2 == agg2);
        assert(mq.1.len() > 0);
        let full = match_levels(agg, ls);
        assert(full.0 == seq![t] && full.2 == agg2);
        assert(full.1 =~= ls2);
        let rest_run = match_levels(agg2, ls2);
        assert(rest_run.0 == Seq::<Trade>::empty() && rest_run.1 == ls2 && rest_run.2 == agg2);
        assert(full.0 =~= seq![t] + rest_run.0);
    } else if q.len() > 1 {
        // The front order is done; the level keeps the rest of its queue.
        let ls2 = ls.update(0, LevelView { price: ls[0].price, orders: q.drop_first() });
        let mq2 = match_queue(agg2, q.drop_first());
        assert(mq.0 == seq![t] + mq2.0 && mq.1 == mq2.1 && mq.2 == mq2.2);
        assert(ls2[0].orders == q.drop_first() && ls2[0].price == ls[0].price);
        assert(ls2.drop_first() =~= ls.drop_first());
        let rest_run = match_levels(agg2, ls2);
        let full = match_levels(agg, ls);
        if agg2.remaining_quantity == 0 {
            assert(rest_run.0 == Seq::<Trade>::empty() && rest_run.1 == ls2 && rest_run.2 == agg2);
            assert(mq2.0 == Seq::<Trade>::empty() && mq2.1 == q.drop_first() && mq2.2 == agg2);
            assert(mq.1.len() > 0);
            assert(full.0 == mq.0 && full.2 == mq.2);
            assert(full.1 =~= ls2);
            assert(full.0 =~= seq![t] + rest_run.0);
        } else {
            // Both walks continue inside the same level.
            let mq2b = match_queue(agg2, ls2[0].orders);
            assert(mq2b == mq2);
            if mq2.1.len() == 0 {
                let cont = match_levels(mq2.2, ls.drop_first());
                assert(full.0 =~= (seq![t] + mq2.0) + cont.0);
                assert(rest_run.0 == mq2.0 + cont.0);
                assert(full.0 =~= seq![t] + rest_run.0);
                assert(full.1 == cont.1 && rest_run.1 == cont.1);
                assert(full.2 == cont.2 && rest_run.2 == cont.2);
            } else {
                assert(full.0 == seq![t] + mq2.0);
                assert(rest_run.0 == mq2.0);
                assert(full.0 =~= seq![t] + rest_run.0);
                assert(full.1 =~= rest_run.1);
            }
        }
    } else {
        // The level held a single order and is now empty: it is dropped.
        let ls2 = ls.drop_first();
        assert(q.drop_first().len() == 0);
        let mq2 = match_queue(agg2, q.drop_first());
        assert(mq2.0 == Seq::<Trade>::empty() && mq2.2 == agg2);
        assert(mq.0 =~= seq![t] && mq.1 == q.drop_first() && mq.2 == agg2);
        let full = match_levels(agg, ls);
        let rest_run = match_levels(agg2, ls2);
        assert(full.0 == seq![t] + rest_run.0 && full.1 == rest_run.1 && full.2 == rest_run.2);
    }
}

/// The walk conserves quantity: what the trades exchanged left the incoming
/// order and the opposite side in equal measure.
pub proof fn lemma_match_queue_conserves(agg: Order, q: Seq<Order>)
    ensures
        ({
            let (ts, q2, agg2) = match_queue(agg, q);
            trades_total(ts) == agg.remaining_quantity - agg2.remaining_quantity
                && trades_total(ts) == queue_total(q) - queue_total(q2)
                && agg2.remaining_quantity <= agg.remaining_quantity
        }),
    decreases q.len(),
{
    if agg.remaining_quantity == 0 || q.len() == 0 {
    } else {
        let resting = q[0];
        let qty = min_qty(agg.remaining_quantity, resting.remaining_quantity);
        let agg2 = after_fill(agg, qty);
        let resting2 = after_fill(resting, qty);
        let t = make_trade(agg, resting, qty);
        lemma_queue_total_drop_first(q);
        if resting2.remaining_quantity == 0 {
            let (ts, q2, agg3) = match_queue(agg2, q.drop_first());
            lemma_match_queue_conserves(agg2, q.drop_first());
            lemma_trades_total_prepend(t, ts);
        } else {
            let q2 = seq![resting2] + q.drop_first();
            lemma_queue_total_drop_first(q2);
            assert(q2.drop_first() =~= q.drop_first());
            lemma_trades_total_single(t);
        }
    }
}

/// Same conservation across whole levels.
pub proof fn lemma_match_levels_conserves(agg: Order, ls: Seq<LevelView>)
    ensures
        ({
            let (ts, ls2, agg2) = match_levels(agg, ls);
            trades_total(ts) == agg.remaining_quantity - agg2.remaining_quantity
                && trades_total(ts) == side_total(ls) - side_total(ls2)
                && agg2.remaining_quantity <= agg.remaining_quantity
        }),
    decreases ls.len(),
{
    if agg.remaining_quantity == 0 || ls.len() == 0 || !crosses(agg.side, agg.price, ls[0].price) {
    } else {
        let (ts, q2, agg2) = match_queue(agg, ls[0].orders);
        lemma_match_queue_conserves(agg, ls[0].orders);
        if q2.len() == 0 {
            let (ts2, ls2, agg3) = match_levels(agg2, ls.drop_first());
            lemma_match_levels_conserves(agg2, ls.drop_first());
            lemma_trades_total_add(ts, ts2);
        } else {
            let lsr = seq![LevelView { price: ls[0].price, orders: q2 }] + ls.drop_first();
            assert(lsr.drop_first() =~= ls.drop_first());
            assert(lsr[0].orders == q2);
        }
    }
}

/// The walk changes nothing about the incoming order but its remaining
/// quantity.
pub proof fn lemma_match_queue_identity(agg: Order, q: Seq<Order>)
    ensures
        ({
            let rest = match_queue(agg, q).2;
            rest.side == agg.side && rest.price == agg.price && rest.order_id == agg.order_id
                && rest.order_type == agg.order_type && rest.initial_quantity
                == agg.initial_quantity
        }),
    decreases q.len(),
{
    if agg.remaining_quantity == 0 || q.len() == 0 {
    } else {
        let qty = min_qty(agg.remaining_quantity, q[0].remaining_quantity);
        let agg2 = after_fill(agg, qty);
        if after_fill(q[0], qty).remaining_quantity == 0 {
            lemma_match_queue_identity(agg2, q.drop_first());
        }
    }
}

/// The same, across whole levels.
pub proof fn lemma_match_levels_identity(agg: Order, ls: Seq<LevelView>)
    ensures
        ({
            let rest = match_levels(agg, ls).2;
            rest.side == agg.side && rest.price == agg.price && rest.order_id == agg.order_id
                && rest.order_type == agg.order_type && rest.initial_quantity
                == agg.initial_quantity
        }),
    decreases ls.len(),
{
    if agg.remaining_quantity == 0 || ls.len() == 0 || !crosses(agg.side, agg.price, ls[0].price) {
    } else {
        let (ts, q2, agg2) = match_queue(agg, ls[0].orders);
        lemma_match_queue_identity(agg, ls[0].orders);
        if q2.len() == 0 {
            lemma_match_levels_identity(agg2, ls.drop_first());
        }
    }
}

/// Conservation of quantity over one submit, stated per side: the opposite
/// side gives up exactly the filled quantity; the order's initial quantity
/// splits into its filled part and its residue; a good-till-cancel residue
/// rests on the order's own side, while a fill-and-kill residue is the
/// cancelled quantity and rests nowhere.
pub proof fn lemma_submit_conservation(b: BookView, o: Order)
    requires
        o.remaining_quantity == o.initial_quantity,
    ensures
        ({
            let (ts, b2) = spec_submit(b, o);
            let filled = trades_total(ts);
            let rest = match_levels(o, b.side(opposite(o.side))).2;
            side_total(b.side(opposite(o.side))) == side_total(b2.side(opposite(o.side)))
                + filled && o.initial_quantity == filled + rest.remaining_quantity && (o.order_type
                == OrderType::GoodToCancel ==> side_total(b2.side(o.side)) == side_total(
                b.side(o.side),
            ) + rest.remaining_quantity) && (o.order_type == OrderType::FillAndKill ==> b2.side(
                o.side,
            ) == b.side(o.side))
        }),
{
    let opp = b.side(opposite(o.side));
    let own = b.side(o.side);
    lemma_match_levels_conserves(o, opp);
    lemma_match_levels_identity(o, opp);
    let res = match_levels(o, opp);
    let rest = res.2;
    if rest.remaining_quantity > 0 && rest.order_type == OrderType::GoodToCancel {
        lemma_side_insert_total(own, rest, o.side);
    }
    let (ts, b2) = spec_submit(b, o);
    assert(b2.side(opposite(o.side)) == res.1 && b2.side(o.side) == (
    if rest.remaining_quantity > 0 && rest.order_type == OrderType::GoodToCancel {
        side_insert(own, rest, o.side)
    } else {
        own
    })) by {
        match o.side {
            Side::Buy => {},
            Side::Sell => {},
        }
    }
}

/// Totals of trade lists concatenate.
pub proof fn lemma_trades_total_add(a: Seq<Trade>, b: Seq<Trade>)
    ensures
        trades_total(a + b) == trades_total(a) + trades_total(b),
    decreases b.len(),
{
    if b.len() == 0 {
        assert(a + b =~= a);
    } else {
        lemma_trades_total_add(a, b.drop_last());
        assert((a + b).drop_last() =~= a + b.drop_last());
        assert((a + b).last() == b.last());
    }
}

proof fn lemma_trades_total_single(t: Trade)
    ensures
        trades_total(seq![t]) == t.bid_trade.quantity,
{
    let s = seq![t];
    assert(s.len() == 1);
    assert(s.last() == t);
    assert(s.drop_last() =~= Seq::<Trade>::empty());
    assert(trades_total(s.drop_last()) == 0);
}

proof fn lemma_trades_total_prepend(t: Trade, ts: Seq<Trade>)
    ensures
        trades_total(seq![t] + ts) == t.bid_trade.quantity + trades_total(ts),
{
    lemma_trades_total_single(t);
    lemma_trades_total_add(seq![t], ts);
}

/// A queue's total splits off its front order.
pub proof fn lemma_queue_total_drop_first(q: Seq<Order>)
    requires
        q.len() > 0,
    ensures
        queue_total(q) == q[0].remaining_quantity + queue_total(q.drop_first()),
    decreases q.len(),
{
    if q.len() == 1 {
        assert(q.drop_last() =~= Seq::<Order>::empty());
        assert(q.drop_first() =~= Seq::<Order>::empty());
    } else {
        lemma_queue_total_drop_first(q.drop_last());
        assert(q.drop_last().drop_first() =~= q.drop_first().drop_last());
        assert(q.drop_last()[0] == q[0]);
        assert(q.drop_first().last() == q.last());
    }
}

} // verus!
