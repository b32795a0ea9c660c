//! The matching book: a price/time-priority continuous double auction for
//! one instrument, with good-till-cancel and fill-and-kill orders.
//!
//! Bids are kept best (highest) first, asks best (lowest) first, each as a
//! vector of occupied price levels; a side index maps every resting order's
//! id to its price and side. Cancellation looks the order up in the index
//! and then scans its level, which is linear in the level's length.

use vstd::prelude::*;
use crate::order::{Order, OrderId, OrderModify, OrderType, Price, Quantity, Side, Trade};
use crate::level::{LevelView, OrderList, PriceLevel, level_wf, queue_total};
use crate::matching::{
    crosses, match_levels, min_qty, opposite, price_before, side_insert, side_total, side_without,
    spec_submit, BookView,
};

verus! {

/// Why a submitted order was rejected. A rejection leaves the book exactly
/// as it was.
#[derive(Debug, PartialEq, Eq, Clone, Copy, Structural)]
pub enum OrderBookError {
    /// An order with the same id is already resting.
    DuplicateOrderId,
    /// A fill-and-kill order that could not trade at once.
    NotMarketable,
}

/// The outcome of a cancellation.
#[derive(Debug, PartialEq, Eq, Clone, Copy, Structural)]
pub enum CancelResult {
    Cancelled,
    NotFound,
}

/// One row of the order index: where the order with this id is resting.
#[derive(Debug, PartialEq, Eq, Clone, Copy, Structural)]
pub struct IndexEntry {
    pub order_id: OrderId,
    pub price: Price,
    pub side: Side,
}

/// One reported price level: its price and the sum of the remaining
/// quantities resting there.
#[derive(Debug, PartialEq, Eq, Clone, Copy, Structural)]
pub struct LevelInfo {
    pub price: Price,
    pub quantity: Quantity,
}

/// A flattened snapshot of the book: bids best first, asks best first.
#[derive(Debug, Clone)]
pub struct OrderBookLevelInfos {
    pub bids: Vec<LevelInfo>,
    pub asks: Vec<LevelInfo>,
}

impl OrderBookLevelInfos {
    pub fn new(bids: Vec<LevelInfo>, asks: Vec<LevelInfo>) -> (r: OrderBookLevelInfos)
        ensures
            r.bids@ == bids@,
            r.asks@ == asks@,
    {
        OrderBookLevelInfos { bids, asks }
    }

    pub fn from_existing() -> (r: OrderBookLevelInfos)
        ensures
            r.bids@ == Seq::<LevelInfo>::empty(),
            r.asks@ == Seq::<LevelInfo>::empty(),
    {
        OrderBookLevelInfos { bids: Vec::new(), asks: Vec::new() }
    }

    pub fn get_bids(&self) -> (r: &Vec<LevelInfo>)
        ensures
            r@ == self.bids@,
    {
        &self.bids
    }

    pub fn get_asks(&self) -> (r: &Vec<LevelInfo>)
        ensures
            r@ == self.asks@,
    {
        &self.asks
    }
}

/// The spec image of a side's levels.
pub open spec fn levels_view(v: Seq<PriceLevel>) -> Seq<LevelView> {
    v.map_values(|l: PriceLevel| l@)
}

/// The side a given index entry belongs to.
pub open spec fn pick(side: Side, bids: Seq<LevelView>, asks: Seq<LevelView>) -> Seq<LevelView> {
    match side {
        Side::Buy => bids,
        Side::Sell => asks,
    }
}

/// Strict price priority across a side's levels, best first.
pub open spec fn side_sorted(ls: Seq<LevelView>, side: Side) -> bool {
    forall|i: int, j: int|
        0 <= i < j < ls.len() ==> price_before(
            side,
            (#[trigger] ls[i]).price,
            (#[trigger] ls[j]).price,
        )
}

/// A well-formed side: sorted, and every level well formed and occupied.
pub open spec fn side_wf(ls: Seq<LevelView>, side: Side) -> bool {
    side_sorted(ls, side) && (forall|i: int| 0 <= i < ls.len() ==> level_wf(#[trigger] ls[i], side))
}

/// Whether some order in the queue bears the id.
pub open spec fn queue_has(q: Seq<Order>, order_id: OrderId) -> bool {
    exists|j: int| 0 <= j < q.len() && (#[trigger] q[j]).order_id == order_id
}

/// Whether some order on the side bears the id.
pub open spec fn side_has(ls: Seq<LevelView>, order_id: OrderId) -> bool {
    exists|i: int| 0 <= i < ls.len() && queue_has((#[trigger] ls[i]).orders, order_id)
}

/// Whether the index holds a row equal to the given one.
pub open spec fn has_entry(ix: Seq<IndexEntry>, order_id: OrderId, p: Price, side: Side) -> bool {
    exists|k: int|
        0 <= k < ix.len() && (#[trigger] ix[k]) == (IndexEntry { order_id, price: p, side })
}

/// Whether the index holds any row for the id.
pub open spec fn idx_has(ix: Seq<IndexEntry>, order_id: OrderId) -> bool {
    exists|k: int| 0 <= k < ix.len() && (#[trigger] ix[k]).order_id == order_id
}

/// An index row is honest: a level at its price holds an order with its id.
pub open spec fn entry_resolves(e: IndexEntry, ls: Seq<LevelView>) -> bool {
    exists|i: int|
        0 <= i < ls.len() && (#[trigger] ls[i]).price == e.price && queue_has(
            ls[i].orders,
            e.order_id,
        )
}

/// No two index rows share an id.
pub open spec fn idx_distinct(ix: Seq<IndexEntry>) -> bool {
    forall|k1: int, k2: int|
        0 <= k1 < k2 < ix.len() ==> (#[trigger] ix[k1]).order_id != (#[trigger] ix[k2]).order_id
}

/// Every index row points at a real resting order on its side.
pub open spec fn idx_sound(ix: Seq<IndexEntry>, bids: Seq<LevelView>, asks: Seq<LevelView>) -> bool {
    forall|k: int|
        0 <= k < ix.len() ==> entry_resolves(#[trigger] ix[k], pick(ix[k].side, bids, asks))
}

/// Every resting order on the side has its row in the index.
pub open spec fn side_complete(ix: Seq<IndexEntry>, ls: Seq<LevelView>, side: Side) -> bool {
    forall|i: int, j: int|
        0 <= i < ls.len() && 0 <= j < ls[i].orders.len() ==> has_entry(
            ix,
            (#[trigger] ls[i].orders[j]).order_id,
            ls[i].price,
            side,
        )
}

/// The index is a bijection with the orders actually resting in levels.
pub open spec fn idx_wf(ix: Seq<IndexEntry>, bids: Seq<LevelView>, asks: Seq<LevelView>) -> bool {
    idx_distinct(ix) && idx_sound(ix, bids, asks) && side_complete(ix, bids, Side::Buy)
        && side_complete(ix, asks, Side::Sell)
}

/// The book is never observed crossed: whenever both sides are occupied the
/// best bid is strictly below the best ask.
pub open spec fn uncrossed(bids: Seq<LevelView>, asks: Seq<LevelView>) -> bool {
    bids.len() > 0 && asks.len() > 0 ==> bids[0].price < asks[0].price
}

/// Everything that holds of a book between operations.
pub open spec fn book_wf(bids: Seq<LevelView>, asks: Seq<LevelView>, ix: Seq<IndexEntry>) -> bool {
    side_wf(bids, Side::Buy) && side_wf(asks, Side::Sell) && uncrossed(bids, asks) && idx_wf(
        ix,
        bids,
        asks,
    )
}

/// Structural law of every reachable book state: no level in the book is
/// empty, and the index is a bijection with the orders actually resting in
/// the levels — every row points at its order and every order has its row,
/// no two rows sharing an id.
pub proof fn lemma_book_structure(b: &OrderBook)
    requires
        b.inv(),
    ensures
        forall|i: int| 0 <= i < b.bids_v().len() ==> (#[trigger] b.bids_v()[i]).orders.len() > 0,
        forall|i: int| 0 <= i < b.asks_v().len() ==> (#[trigger] b.asks_v()[i]).orders.len() > 0,
        idx_wf(b.index@, b.bids_v(), b.asks_v()),
{
    assert forall|i: int| 0 <= i < b.bids_v().len() implies (
    #[trigger] b.bids_v()[i]).orders.len() > 0 by {
        assert(level_wf(b.bids_v()[i], Side::Buy));
    }
    assert forall|i: int| 0 <= i < b.asks_v().len() implies (
    #[trigger] b.asks_v()[i]).orders.len() > 0 by {
        assert(level_wf(b.asks_v()[i], Side::Sell));
    }
}

/// Price law of every reachable book state: whenever both sides are
/// occupied, the best bid is strictly below the best ask. A crossed book
/// exists only transiently inside a matching pass, never between
/// operations.
pub proof fn lemma_book_uncrossed(b: &OrderBook)
    requires
        b.inv(),
    ensures
        b.bids_v().len() > 0 && b.asks_v().len() > 0 ==> b.bids_v()[0].price
            < b.asks_v()[0].price,
{
}

/// How many orders rest on a side's levels.
pub open spec fn side_count(ls: Seq<LevelView>) -> int
    decreases ls.len(),
{
    if ls.len() == 0 {
        0
    } else {
        ls[0].orders.len() + side_count(ls.drop_first())
    }
}

proof fn lemma_side_count_update(ls: Seq<LevelView>, i: int, l2: LevelView)
    requires
        0 <= i < ls.len(),
    ensures
        side_count(ls.update(i, l2)) == side_count(ls) - ls[i].orders.len() + l2.orders.len(),
    decreases ls.len(),
{
    assert(ls.len() > 0);
    assert(forall|k: int| 0 <= k < ls.len() - 1 ==> #[trigger] ls.drop_first()[k] == ls[k + 1]);
    if i == 0 {
        assert(ls.update(0, l2).drop_first() =~= ls.drop_first());
    } else {
        lemma_side_count_update(ls.drop_first(), i - 1, l2);
        assert(ls.update(i, l2).drop_first() =~= ls.drop_first().update(i - 1, l2));
        assert(ls.update(i, l2)[0] == ls[0]);
    }
}

proof fn lemma_side_count_remove(ls: Seq<LevelView>, i: int)
    requires
        0 <= i < ls.len(),
    ensures
        side_count(ls.remove(i)) == side_count(ls) - ls[i].orders.len(),
    decreases ls.len(),
{
    assert(ls.len() > 0);
    assert(forall|k: int| 0 <= k < ls.len() - 1 ==> #[trigger] ls.drop_first()[k] == ls[k + 1]);
    if i == 0 {
        assert(ls.remove(0) =~= ls.drop_first());
    } else {
        lemma_side_count_remove(ls.drop_first(), i - 1);
        assert(ls.remove(i).drop_first() =~= ls.drop_first().remove(i - 1));
        assert(ls.remove(i)[0] == ls[0]);
    }
}

/// The cardinality face of the index bijection: the index holds exactly
/// one row per resting order, so its length counts the book's orders.
pub proof fn lemma_index_counts_orders(
    ix: Seq<IndexEntry>,
    bids: Seq<LevelView>,
    asks: Seq<LevelView>,
)
    requires
        book_wf(bids, asks, ix),
    ensures
        ix.len() == side_count(bids) + side_count(asks),
    decreases ix.len(),
{
    if ix.len() == 0 {
        assert(bids.len() == 0) by {
            if bids.len() > 0 {
                assert(level_wf(bids[0], Side::Buy));
                assert(has_entry(ix, bids[0].orders[0].order_id, bids[0].price, Side::Buy));
                let k = choose|k: int|
                    0 <= k < ix.len() && (#[trigger] ix[k]) == (IndexEntry {
                        order_id: bids[0].orders[0].order_id,
                        price: bids[0].price,
                        side: Side::Buy,
                    });
            }
        }
        assert(asks.len() == 0) by {
            if asks.len() > 0 {
                assert(level_wf(asks[0], Side::Sell));
                assert(has_entry(ix, asks[0].orders[0].order_id, asks[0].price, Side::Sell));
                let k = choose|k: int|
                    0 <= k < ix.len() && (#[trigger] ix[k]) == (IndexEntry {
                        order_id: asks[0].orders[0].order_id,
                        price: asks[0].price,
                        side: Side::Sell,
                    });
            }
        }
    } else {
        let e = ix[0];
        assert(entry_resolves(e, pick(e.side, bids, asks)));
        let ls = pick(e.side, bids, asks);
        let li = choose|i: int|
            0 <= i < ls.len() && (#[trigger] ls[i]).price == e.price && queue_has(
                ls[i].orders,
                e.order_id,
            );
        let j = choose|j: int|
            0 <= j < ls[li].orders.len() && (#[trigger] ls[li].orders[j]).order_id == e.order_id;
        assert(ix[0] == (IndexEntry {
            order_id: ls[li].orders[j].order_id,
            price: ls[li].price,
            side: e.side,
        }));
        lemma_remove_order_book_wf(ix, bids, asks, e.side, li, j, 0);
        let ls2 = level_minus(ls, li, j);
        let b2 = put_side(e.side, bids, asks, ls2);
        lemma_index_counts_orders(ix.remove(0), b2.bids, b2.asks);
        assert(level_wf(ls[li], e.side));
        if ls[li].orders.len() == 1 {
            lemma_side_count_remove(ls, li);
        } else {
            ls[li].orders.remove_ensures(j);
            lemma_side_count_update(
                ls,
                li,
                LevelView { price: ls[li].price, orders: ls[li].orders.remove(j) },
            );
        }
        assert(side_count(ls2) == side_count(ls) - 1);
        match e.side {
            Side::Buy => {
                assert(b2.bids == ls2 && b2.asks == asks);
            },
            Side::Sell => {
                assert(b2.asks == ls2 && b2.bids == bids);
            },
        }
    }
}

/// A side after one resting order leaves: its level loses the order, and is
/// dropped entirely when that order was alone there.
pub open spec fn level_minus(ls: Seq<LevelView>, li: int, j: int) -> Seq<LevelView> {
    if ls[li].orders.len() == 1 {
        ls.remove(li)
    } else {
        ls.update(li, LevelView { price: ls[li].price, orders: ls[li].orders.remove(j) })
    }
}

/// Both sides, with the given side replaced.
pub open spec fn put_side(
    side: Side,
    bids: Seq<LevelView>,
    asks: Seq<LevelView>,
    ls: Seq<LevelView>,
) -> BookView {
    match side {
        Side::Buy => BookView { bids: ls, asks },
        Side::Sell => BookView { bids, asks: ls },
    }
}

/// Two occurrences of one id are the same occurrence: the index is distinct
/// and complete, so an id determines its side, its level and its place in
/// the queue.
pub proof fn lemma_occurrence_unique(
    ix: Seq<IndexEntry>,
    bids: Seq<LevelView>,
    asks: Seq<LevelView>,
    s1: Side,
    i1: int,
    j1: int,
    s2: Side,
    i2: int,
    j2: int,
)
    requires
        side_wf(bids, Side::Buy),
        side_wf(asks, Side::Sell),
        idx_wf(ix, bids, asks),
        0 <= i1 < pick(s1, bids, asks).len(),
        0 <= j1 < pick(s1, bids, asks)[i1].orders.len(),
        0 <= i2 < pick(s2, bids, asks).len(),
        0 <= j2 < pick(s2, bids, asks)[i2].orders.len(),
        pick(s1, bids, asks)[i1].orders[j1].order_id == pick(
            s2,
            bids,
            asks,
        )[i2].orders[j2].order_id,
    ensures
        s1 == s2 && i1 == i2 && j1 == j2,
{
    let ls1 = pick(s1, bids, asks);
    let ls2 = pick(s2, bids, asks);
    let id = ls1[i1].orders[j1].order_id;
    match s1 {
        Side::Buy => assert(has_entry(ix, id, ls1[i1].price, s1)),
        Side::Sell => assert(has_entry(ix, id, ls1[i1].price, s1)),
    }
    match s2 {
        Side::Buy => assert(has_entry(ix, id, ls2[i2].price, s2)),
        Side::Sell => assert(has_entry(ix, id, ls2[i2].price, s2)),
    }
    let k1 = choose|k: int|
        0 <= k < ix.len() && ix[k] == (IndexEntry { order_id: id, price: ls1[i1].price, side: s1 });
    let k2 = choose|k: int|
        0 <= k < ix.len() && ix[k] == (IndexEntry { order_id: id, price: ls2[i2].price, side: s2 });
    assert(k1 == k2);
    assert(s1 == s2 && ls1[i1].price == ls2[i2].price);
    if i1 != i2 {
        assert(price_before(s1, ls1[i1].price, ls1[i2].price) || price_before(
            s1,
            ls1[i2].price,
            ls1[i1].price,
        ));
        assert(false);
    }
    assert(level_wf(ls1[i1], s1));
    if j1 != j2 {
        assert(false);
    }
}

/// The index knows an id exactly when an order with it rests somewhere.
pub proof fn lemma_idx_has_iff_contains(
    ix: Seq<IndexEntry>,
    bids: Seq<LevelView>,
    asks: Seq<LevelView>,
    order_id: OrderId,
)
    requires
        idx_wf(ix, bids, asks),
    ensures
        idx_has(ix, order_id) <==> (side_has(bids, order_id) || side_has(asks, order_id)),
{
    if idx_has(ix, order_id) {
        let k = choose|k: int| 0 <= k < ix.len() && (#[trigger] ix[k]).order_id == order_id;
        assert(entry_resolves(ix[k], pick(ix[k].side, bids, asks)));
        let i = choose|i: int|
            0 <= i < pick(ix[k].side, bids, asks).len() && (#[trigger] pick(
                ix[k].side,
                bids,
                asks,
            )[i]).price == ix[k].price && queue_has(
                pick(ix[k].side, bids, asks)[i].orders,
                order_id,
            );
        match ix[k].side {
            Side::Buy => assert(side_has(bids, order_id)),
            Side::Sell => assert(side_has(asks, order_id)),
        }
    }
    if side_has(bids, order_id) {
        let i = choose|i: int|
            0 <= i < bids.len() && queue_has((#[trigger] bids[i]).orders, order_id);
        let j = choose|j: int|
            0 <= j < bids[i].orders.len() && (#[trigger] bids[i].orders[j]).order_id == order_id;
        assert(has_entry(ix, order_id, bids[i].price, Side::Buy));
        let k = choose|k: int|
            0 <= k < ix.len() && (#[trigger] ix[k]) == (IndexEntry {
                order_id,
                price: bids[i].price,
                side: Side::Buy,
            });
        assert(idx_has(ix, order_id));
    }
    if side_has(asks, order_id) {
        let i = choose|i: int|
            0 <= i < asks.len() && queue_has((#[trigger] asks[i]).orders, order_id);
        let j = choose|j: int|
            0 <= j < asks[i].orders.len() && (#[trigger] asks[i].orders[j]).order_id == order_id;
        assert(has_entry(ix, order_id, asks[i].price, Side::Sell));
        let k = choose|k: int|
            0 <= k < ix.len() && (#[trigger] ix[k]) == (IndexEntry {
                order_id,
                price: asks[i].price,
                side: Side::Sell,
            });
        assert(idx_has(ix, order_id));
    }
}

/// Taking one resting order and its index row out keeps the book well
/// formed; no other order moves price or loses its row.
pub proof fn lemma_remove_order_book_wf(
    ix: Seq<IndexEntry>,
    bids: Seq<LevelView>,
    asks: Seq<LevelView>,
    side: Side,
    li: int,
    j: int,
    k: int,
)
    requires
        book_wf(bids, asks, ix),
        0 <= li < pick(side, bids, asks).len(),
        0 <= j < pick(side, bids, asks)[li].orders.len(),
        0 <= k < ix.len(),
        ix[k] == (IndexEntry {
            order_id: pick(side, bids, asks)[li].orders[j].order_id,
            price: pick(side, bids, asks)[li].price,
            side,
        }),
    ensures
        ({
            let ls = pick(side, bids, asks);
            let b2 = put_side(side, bids, asks, level_minus(ls, li, j));
            book_wf(b2.bids, b2.asks, ix.remove(k))
        }),
{
    let ls = pick(side, bids, asks);
    let id = ls[li].orders[j].order_id;
    let single = ls[li].orders.len() == 1;
    let ls2 = level_minus(ls, li, j);
    let b2 = put_side(side, bids, asks, ls2);
    let ix2 = ix.remove(k);
    let other = pick(opposite(side), bids, asks);
    ix.remove_ensures(k);
    if !single {
        ls[li].orders.remove_ensures(j);
    } else {
        ls.remove_ensures(li);
    }

    // The removed occurrence is the only one bearing the id.
    assert forall|i2: int, j2: int|
        0 <= i2 < ls.len() && 0 <= j2 < ls[i2].orders.len() && (i2 != li || j2 != j) implies (
    #[trigger] ls[i2].orders[j2]).order_id != id by {
        if ls[i2].orders[j2].order_id == id {
            lemma_occurrence_unique(ix, bids, asks, side, i2, j2, side, li, j);
        }
    }
    assert forall|i2: int, j2: int|
        0 <= i2 < other.len() && 0 <= j2 < other[i2].orders.len() implies (
    #[trigger] other[i2].orders[j2]).order_id != id by {
        if other[i2].orders[j2].order_id == id {
            lemma_occurrence_unique(ix, bids, asks, opposite(side), i2, j2, side, li, j);
            assert(opposite(side) != side);
        }
    }

    // Shape of the new side.
    if single {
        assert(ls2.len() == ls.len() - 1);
        assert(forall|i: int| 0 <= i < li ==> #[trigger] ls2[i] == ls[i]);
        assert(forall|i: int| li <= i < ls2.len() ==> #[trigger] ls2[i] == ls[i + 1]);
    } else {
        assert(ls2.len() == ls.len());
        assert(forall|i: int| 0 <= i < ls.len() && i != li ==> #[trigger] ls2[i] == ls[i]);
        assert(ls2[li].price == ls[li].price);
        assert(ls2[li].orders.len() == ls[li].orders.len() - 1);
        assert(forall|j2: int| 0 <= j2 < j ==> #[trigger] ls2[li].orders[j2] == ls[li].orders[j2]);
        assert(forall|j2: int|
            j <= j2 < ls2[li].orders.len() ==> #[trigger] ls2[li].orders[j2] == ls[li].orders[j2
                + 1]);
    }

    // The new side stays well formed.
    assert(side_wf(ls2, side)) by {
        assert forall|i: int| 0 <= i < ls2.len() implies level_wf(#[trigger] ls2[i], side) by {
            if single || i != li {
                assert(level_wf(ls[if single && i >= li {
                    i + 1
                } else {
                    i
                }], side));
            } else {
                assert(level_wf(ls[li], side));
            }
        }
    }

    // Never crossed afterwards: a side that shrinks cannot cross the other.
    assert(uncrossed(b2.bids, b2.asks)) by {
        if b2.bids.len() > 0 && b2.asks.len() > 0 {
            assert(bids.len() > 0 && asks.len() > 0);
            if single {
                if li == 0 && ls.len() > 1 {
                    assert(price_before(side, ls[0].price, ls[1].price));
                }
            }
        }
    }

    // The thinned index still matches the book exactly.
    assert(idx_distinct(ix2));
    assert forall|m: int| 0 <= m < ix2.len() implies entry_resolves(
        #[trigger] ix2[m],
        pick(ix2[m].side, b2.bids, b2.asks),
    ) by {
        let mo = if m < k {
            m
        } else {
            m + 1
        };
        let e = ix[mo];
        assert(ix2[m] == e);
        assert(e.order_id != id);
        assert(entry_resolves(e, pick(e.side, bids, asks)));
        let i = choose|i: int|
            0 <= i < pick(e.side, bids, asks).len() && (#[trigger] pick(
                e.side,
                bids,
                asks,
            )[i]).price == e.price && queue_has(pick(e.side, bids, asks)[i].orders, e.order_id);
        if e.side != side {
            assert(pick(e.side, b2.bids, b2.asks) == pick(e.side, bids, asks));
        } else {
            let jq = choose|jq: int|
                0 <= jq < ls[i].orders.len() && (#[trigger] ls[i].orders[jq]).order_id
                    == e.order_id;
            if i == li {
                assert(!single) by {
                    if single {
                        assert(jq == 0 && j == 0);
                    }
                }
                let jn = if jq < j {
                    jq
                } else {
                    jq - 1
                };
                assert(jq != j);
                assert(ls2[li].orders[jn].order_id == e.order_id);
                assert(queue_has(ls2[li].orders, e.order_id));
                assert(ls2[li].price == e.price);
            } else {
                let iw = if single && i > li {
                    i - 1
                } else {
                    i
                };
                assert(ls2[iw] == ls[i]);
                assert(queue_has(ls2[iw].orders, e.order_id));
            }
            assert(entry_resolves(e, ls2));
        }
    }
    lemma_remove_order_complete_side(ix, bids, asks, side, li, j, k, Side::Buy);
    lemma_remove_order_complete_side(ix, bids, asks, side, li, j, k, Side::Sell);
    assert(side_complete(ix2, b2.bids, Side::Buy));
    assert(side_complete(ix2, b2.asks, Side::Sell));
}

/// Completeness of the thinned index on one chosen side.
proof fn lemma_remove_order_complete_side(
    ix: Seq<IndexEntry>,
    bids: Seq<LevelView>,
    asks: Seq<LevelView>,
    side: Side,
    li: int,
    j: int,
    k: int,
    s2: Side,
)
    requires
        book_wf(bids, asks, ix),
        0 <= li < pick(side, bids, asks).len(),
        0 <= j < pick(side, bids, asks)[li].orders.len(),
        0 <= k < ix.len(),
        ix[k] == (IndexEntry {
            order_id: pick(side, bids, asks)[li].orders[j].order_id,
            price: pick(side, bids, asks)[li].price,
            side,
        }),
    ensures
        ({
            let ls = pick(side, bids, asks);
            let b2 = put_side(side, bids, asks, level_minus(ls, li, j));
            side_complete(ix.remove(k), pick(s2, b2.bids, b2.asks), s2)
        }),
{
    let ls = pick(side, bids, asks);
    let id = ls[li].orders[j].order_id;
    let single = ls[li].orders.len() == 1;
    let ls2 = level_minus(ls, li, j);
    let b2 = put_side(side, bids, asks, ls2);
    let ix2 = ix.remove(k);
    ix.remove_ensures(k);
    if !single {
        ls[li].orders.remove_ensures(j);
    } else {
        ls.remove_ensures(li);
    }
    {
        let lsn = pick(s2, b2.bids, b2.asks);
        assert forall|i2: int, j2: int|
            0 <= i2 < lsn.len() && 0 <= j2 < lsn[i2].orders.len() implies has_entry(
            ix2,
            (#[trigger] lsn[i2].orders[j2]).order_id,
            lsn[i2].price,
            s2,
        ) by {
            // Map the surviving order back to its old coordinates.
            let io = if s2 == side && single && i2 >= li {
                i2 + 1
            } else {
                i2
            };
            let jo = if s2 == side && !single && i2 == li && j2 >= j {
                j2 + 1
            } else {
                j2
            };
            let lso = pick(s2, bids, asks);
            assert(lsn[i2].price == lso[io].price);
            assert(lsn[i2].orders[j2] == lso[io].orders[jo]);
            let oid = lso[io].orders[jo].order_id;
            assert(oid != id) by {
                if oid == id {
                    if s2 == side {
                        lemma_occurrence_unique(ix, bids, asks, s2, io, jo, side, li, j);
                        assert(io == li && jo == j);
                        if single {
                            assert(i2 >= li ==> io == i2 + 1);
                        }
                        assert(false);
                    } else {
                        lemma_occurrence_unique(ix, bids, asks, s2, io, jo, side, li, j);
                        assert(false);
                    }
                }
            }
            match s2 {
                Side::Buy => assert(has_entry(ix, oid, lso[io].price, s2)),
                Side::Sell => assert(has_entry(ix, oid, lso[io].price, s2)),
            }
            let ko = choose|ko: int|
                0 <= ko < ix.len() && (#[trigger] ix[ko]) == (IndexEntry {
                    order_id: oid,
                    price: lso[io].price,
                    side: s2,
                });
            assert(ko != k);
            let kn = if ko < k {
                ko
            } else {
                ko - 1
            };
            assert(ix2[kn] == ix[ko]);
        }
    }
}

/// Filling part of one resting order in place — same identity, a smaller
/// but still positive remaining quantity — keeps the book well formed.
pub proof fn lemma_shrink_order_book_wf(
    ix: Seq<IndexEntry>,
    bids: Seq<LevelView>,
    asks: Seq<LevelView>,
    side: Side,
    li: int,
    j: int,
    o2: Order,
)
    requires
        book_wf(bids, asks, ix),
        0 <= li < pick(side, bids, asks).len(),
        0 <= j < pick(side, bids, asks)[li].orders.len(),
        ({
            let o = pick(side, bids, asks)[li].orders[j];
            o2.order_id == o.order_id && o2.price == o.price && o2.side == o.side
                && o2.order_type == o.order_type && o2.initial_quantity == o.initial_quantity && 0
                < o2.remaining_quantity <= o.remaining_quantity
        }),
    ensures
        ({
            let ls = pick(side, bids, asks);
            let ls2 = ls.update(
                li,
                LevelView { price: ls[li].price, orders: ls[li].orders.update(j, o2) },
            );
            let b2 = put_side(side, bids, asks, ls2);
            book_wf(b2.bids, b2.asks, ix)
        }),
{
    let ls = pick(side, bids, asks);
    let q2 = ls[li].orders.update(j, o2);
    let ls2 = ls.update(li, LevelView { price: ls[li].price, orders: q2 });
    let b2 = put_side(side, bids, asks, ls2);
    assert(level_wf(ls[li], side));
    assert(level_wf(ls2[li], side)) by {
        assert(forall|j2: int|
            0 <= j2 < q2.len() && j2 != j ==> #[trigger] q2[j2] == ls[li].orders[j2]);
    }
    assert(side_wf(ls2, side));
    assert(uncrossed(b2.bids, b2.asks));
    // Ids are unchanged position by position, so the index fits as before.
    assert forall|id2: OrderId| #[trigger] queue_has(q2, id2) == queue_has(
        ls[li].orders,
        id2,
    ) by {
        if queue_has(ls[li].orders, id2) {
            let jw = choose|jw: int|
                0 <= jw < ls[li].orders.len() && (#[trigger] ls[li].orders[jw]).order_id == id2;
            assert(q2[jw].order_id == id2);
        }
        if queue_has(q2, id2) {
            let jw = choose|jw: int| 0 <= jw < q2.len() && (#[trigger] q2[jw]).order_id == id2;
            assert(ls[li].orders[jw].order_id == id2);
        }
    }
    assert forall|k: int| 0 <= k < ix.len() implies entry_resolves(
        #[trigger] ix[k],
        pick(ix[k].side, b2.bids, b2.asks),
    ) by {
        let e = ix[k];
        assert(entry_resolves(e, pick(e.side, bids, asks)));
        if e.side == side {
            let i = choose|i: int|
                0 <= i < ls.len() && (#[trigger] ls[i]).price == e.price && queue_has(
                    ls[i].orders,
                    e.order_id,
                );
            assert(ls2[i].price == e.price && queue_has(ls2[i].orders, e.order_id));
        }
    }
    assert(side_complete(ix, pick(side, b2.bids, b2.asks), side)) by {
        let lsn = pick(side, b2.bids, b2.asks);
        assert(lsn == ls2);
        assert forall|i2: int, j2: int|
            0 <= i2 < ls2.len() && 0 <= j2 < ls2[i2].orders.len() implies has_entry(
            ix,
            (#[trigger] ls2[i2].orders[j2]).order_id,
            ls2[i2].price,
            side,
        ) by {
            assert(ls2[i2].orders[j2].order_id == ls[i2].orders[j2].order_id);
            assert(ls2[i2].price == ls[i2].price);
            assert(has_entry(ix, ls[i2].orders[j2].order_id, ls[i2].price, side));
        }
    }
    match side {
        Side::Buy => {
            assert(side_complete(ix, b2.bids, Side::Buy));
            assert(b2.asks == asks);
        },
        Side::Sell => {
            assert(side_complete(ix, b2.asks, Side::Sell));
            assert(b2.bids == bids);
        },
    }
}

/// Admitting one resting order — onto its price's level or a fresh level at
/// position `pos` — and recording it in the index keeps the book well
/// formed, provided the order does not cross the other side.
pub proof fn lemma_insert_order_book_wf(
    ix: Seq<IndexEntry>,
    bids: Seq<LevelView>,
    asks: Seq<LevelView>,
    side: Side,
    o: Order,
    pos: int,
)
    requires
        book_wf(bids, asks, ix),
        o.side == side,
        o.order_type == OrderType::GoodToCancel,
        0 < o.price,
        0 < o.remaining_quantity <= o.initial_quantity,
        !idx_has(ix, o.order_id),
        0 <= pos <= pick(side, bids, asks).len(),
        forall|i: int|
            0 <= i < pos ==> price_before(
                side,
                (#[trigger] pick(side, bids, asks)[i]).price,
                o.price,
            ),
        pos < pick(side, bids, asks).len() ==> (pick(side, bids, asks)[pos].price == o.price
            || price_before(side, o.price, pick(side, bids, asks)[pos].price)),
        pick(opposite(side), bids, asks).len() > 0 ==> !crosses(
            side,
            o.price,
            pick(opposite(side), bids, asks)[0].price,
        ),
    ensures
        ({
            let ls = pick(side, bids, asks);
            let ls2 = if pos < ls.len() && ls[pos].price == o.price {
                ls.update(pos, LevelView { price: ls[pos].price, orders: ls[pos].orders.push(o) })
            } else {
                ls.insert(pos, LevelView { price: o.price, orders: seq![o] })
            };
            let b2 = put_side(side, bids, asks, ls2);
            let ix2 = ix.push(IndexEntry { order_id: o.order_id, price: o.price, side });
            book_wf(b2.bids, b2.asks, ix2) && (forall|id2: OrderId|
                #[trigger] side_has(side_insert(ls, o, side), id2) == (side_has(ls, id2) || id2
                    == o.order_id))
        }),
{
    let ls = pick(side, bids, asks);
    let other = pick(opposite(side), bids, asks);
    let onto = pos < ls.len() && ls[pos].price == o.price;
    let ls2 = if onto {
        ls.update(pos, LevelView { price: ls[pos].price, orders: ls[pos].orders.push(o) })
    } else {
        ls.insert(pos, LevelView { price: o.price, orders: seq![o] })
    };
    let e = IndexEntry { order_id: o.order_id, price: o.price, side };
    let ix2 = ix.push(e);
    let b2 = put_side(side, bids, asks, ls2);
    lemma_idx_has_iff_contains(ix, bids, asks, o.order_id);
    assert(!side_has(ls, o.order_id) && !side_has(other, o.order_id));
    if !onto {
        ls.insert_ensures(pos, LevelView { price: o.price, orders: seq![o] });
    }

    // Shape of the new side, and a map from new to old coordinates.
    if onto {
        assert(forall|i: int| 0 <= i < ls.len() && i != pos ==> #[trigger] ls2[i] == ls[i]);
        assert(ls2[pos].price == ls[pos].price);
        assert(forall|j2: int|
            0 <= j2 < ls[pos].orders.len() ==> #[trigger] ls2[pos].orders[j2]
                == ls[pos].orders[j2]);
        assert(ls2[pos].orders[ls[pos].orders.len() as int] == o);
    } else {
        assert(forall|i: int| 0 <= i < pos ==> #[trigger] ls2[i] == ls[i]);
        assert(forall|i: int| pos < i < ls2.len() ==> #[trigger] ls2[i] == ls[i - 1]);
        assert(ls2[pos] == (LevelView { price: o.price, orders: seq![o] }));
    }

    // Sorted and well formed.
    assert(side_sorted(ls2, side)) by {
        if onto {
        } else {
            assert forall|i: int, i2: int| 0 <= i < i2 < ls2.len() implies price_before(
                side,
                (#[trigger] ls2[i]).price,
                (#[trigger] ls2[i2]).price,
            ) by {
                if i == pos {
                    assert(price_before(side, o.price, ls[i2 - 1].price));
                } else if i2 == pos {
                    assert(price_before(side, ls[i].price, o.price));
                }
            }
        }
    }
    assert forall|i: int| 0 <= i < ls2.len() implies level_wf(#[trigger] ls2[i], side) by {
        if onto && i == pos {
            assert(level_wf(ls[pos], side));
            let q2 = ls2[pos].orders;
            assert forall|j1: int, j2: int| 0 <= j1 < j2 < q2.len() implies (
            #[trigger] q2[j1]).order_id != (#[trigger] q2[j2]).order_id by {
                if j2 == q2.len() - 1 {
                    assert(q2[j1] == ls[pos].orders[j1]);
                    if q2[j1].order_id == o.order_id {
                        assert(queue_has(ls[pos].orders, o.order_id));
                        assert(side_has(ls, o.order_id));
                    }
                }
            }
        } else if !onto && i == pos {
            assert(ls2[pos].orders.len() == 1);
        } else if !onto && i > pos {
            assert(level_wf(ls[i - 1], side));
        } else {
            assert(level_wf(ls[i], side));
        }
    }

    // Still uncrossed: the new order does not reach the other side's best.
    assert(uncrossed(b2.bids, b2.asks)) by {
        if other.len() > 0 {
            assert(!crosses(side, o.price, other[0].price));
            if pos == 0 && !onto {
                assert(ls2[0].price == o.price);
            } else {
                assert(ls2[0].price == ls[0].price);
            }
        }
    }

    // The extended index matches the extended book.
    assert(idx_distinct(ix2)) by {
        assert forall|k1: int, k2: int| 0 <= k1 < k2 < ix2.len() implies (
        #[trigger] ix2[k1]).order_id != (#[trigger] ix2[k2]).order_id by {
            if k2 == ix.len() {
                if ix[k1].order_id == o.order_id {
                    assert(idx_has(ix, o.order_id));
                }
            }
        }
    }
    assert forall|k: int| 0 <= k < ix2.len() implies entry_resolves(
        #[trigger] ix2[k],
        pick(ix2[k].side, b2.bids, b2.asks),
    ) by {
        if k == ix.len() {
            assert(ix2[k] == e);
            assert(ls2[pos].price == o.price);
            if onto {
                assert(ls2[pos].orders[ls[pos].orders.len() as int].order_id == o.order_id);
                assert(queue_has(ls2[pos].orders, o.order_id));
            } else {
                assert(ls2[pos].orders[0].order_id == o.order_id);
                assert(queue_has(ls2[pos].orders, o.order_id));
            }
            assert(entry_resolves(e, ls2));
        } else {
            let en = ix[k];
            assert(ix2[k] == en);
            assert(entry_resolves(en, pick(en.side, bids, asks)));
            if en.side == side {
                let i = choose|i: int|
                    0 <= i < ls.len() && (#[trigger] ls[i]).price == en.price && queue_has(
                        ls[i].orders,
                        en.order_id,
                    );
                let jw = choose|jw: int|
                    0 <= jw < ls[i].orders.len() && (#[trigger] ls[i].orders[jw]).order_id
                        == en.order_id;
                let iw = if !onto && i >= pos {
                    i + 1
                } else {
                    i
                };
                assert(ls2[iw].price == en.price);
                assert(ls2[iw].orders[jw].order_id == en.order_id);
                assert(queue_has(ls2[iw].orders, en.order_id));
                assert(entry_resolves(en, ls2));
            }
        }
    }
    assert(side_complete(ix2, pick(side, b2.bids, b2.asks), side)) by {
        assert forall|i2: int, j2: int|
            0 <= i2 < ls2.len() && 0 <= j2 < ls2[i2].orders.len() implies has_entry(
            ix2,
            (#[trigger] ls2[i2].orders[j2]).order_id,
            ls2[i2].price,
            side,
        ) by {
            if onto && i2 == pos && j2 == ls[pos].orders.len() {
                assert(ix2[ix.len() as int] == e);
            } else if !onto && i2 == pos {
                assert(ls2[i2].orders[j2] == o);
                assert(ix2[ix.len() as int] == e);
            } else {
                let io = if !onto && i2 > pos {
                    i2 - 1
                } else {
                    i2
                };
                assert(ls2[i2].orders[j2] == ls[io].orders[j2]);
                assert(ls2[i2].price == ls[io].price);
                match side {
                    Side::Buy => assert(has_entry(ix, ls[io].orders[j2].order_id, ls[io].price, side)),
                    Side::Sell => assert(has_entry(ix, ls[io].orders[j2].order_id, ls[io].price, side)),
                }
                let ko = choose|ko: int|
                    0 <= ko < ix.len() && (#[trigger] ix[ko]) == (IndexEntry {
                        order_id: ls[io].orders[j2].order_id,
                        price: ls[io].price,
                        side,
                    });
                assert(ix2[ko] == ix[ko]);
            }
        }
    }
    assert(side_complete(ix2, pick(opposite(side), b2.bids, b2.asks), opposite(side))) by {
        let lso = pick(opposite(side), b2.bids, b2.asks);
        assert(lso == other);
        assert forall|i2: int, j2: int|
            0 <= i2 < other.len() && 0 <= j2 < other[i2].orders.len() implies has_entry(
            ix2,
            (#[trigger] other[i2].orders[j2]).order_id,
            other[i2].price,
            opposite(side),
        ) by {
            match opposite(side) {
                Side::Buy => assert(has_entry(
                    ix,
                    other[i2].orders[j2].order_id,
                    other[i2].price,
                    opposite(side),
                )),
                Side::Sell => assert(has_entry(
                    ix,
                    other[i2].orders[j2].order_id,
                    other[i2].price,
                    opposite(side),
                )),
            }
            let ko = choose|ko: int|
                0 <= ko < ix.len() && (#[trigger] ix[ko]) == (IndexEntry {
                    order_id: other[i2].orders[j2].order_id,
                    price: other[i2].price,
                    side: opposite(side),
                });
            assert(ix2[ko] == ix[ko]);
        }
    }
    match side {
        Side::Buy => {
            assert(side_complete(ix2, b2.bids, Side::Buy));
            assert(side_complete(ix2, b2.asks, Side::Sell));
        },
        Side::Sell => {
            assert(side_complete(ix2, b2.asks, Side::Sell));
            assert(side_complete(ix2, b2.bids, Side::Buy));
        },
    }

    // New ids on the side: exactly the old ones plus the admitted order's.
    assert forall|id2: OrderId| #[trigger] side_has(ls2, id2) == (side_has(ls, id2) || id2
        == o.order_id) by {
        if side_has(ls, id2) {
            let i = choose|i: int|
                0 <= i < ls.len() && queue_has((#[trigger] ls[i]).orders, id2);
            let jw = choose|jw: int|
                0 <= jw < ls[i].orders.len() && (#[trigger] ls[i].orders[jw]).order_id == id2;
            let iw = if !onto && i >= pos {
                i + 1
            } else {
                i
            };
            assert(ls2[iw].orders[jw].order_id == id2);
            assert(queue_has(ls2[iw].orders, id2));
            assert(side_has(ls2, id2));
        }
        if id2 == o.order_id {
            if onto {
                assert(ls2[pos].orders[ls[pos].orders.len() as int].order_id == id2);
            } else {
                assert(ls2[pos].orders[0].order_id == id2);
            }
            assert(queue_has(ls2[pos].orders, id2));
            assert(side_has(ls2, id2));
        }
        if side_has(ls2, id2) && id2 != o.order_id {
            let i = choose|i: int|
                0 <= i < ls2.len() && queue_has((#[trigger] ls2[i]).orders, id2);
            let jw = choose|jw: int|
                0 <= jw < ls2[i].orders.len() && (#[trigger] ls2[i].orders[jw]).order_id == id2;
            if onto {
                if i == pos && jw == ls[pos].orders.len() {
                    assert(false);
                } else {
                    assert(ls2[i].orders[jw] == ls[i].orders[jw]);
                    assert(queue_has(ls[i].orders, id2));
                }
            } else {
                if i == pos {
                    assert(ls2[i].orders[jw] == o);
                    assert(false);
                } else {
                    let io = if i > pos {
                        i - 1
                    } else {
                        i
                    };
                    assert(ls2[i].orders[jw] == ls[io].orders[jw]);
                    assert(queue_has(ls[io].orders, id2));
                }
            }
            assert(side_has(ls, id2));
        }
    }
    crate::matching::lemma_side_insert_at(ls, o, side, pos);
    assert(side_insert(ls, o, side) == ls2);
    assert forall|id2: OrderId|
        #[trigger] side_has(side_insert(ls, o, side), id2) == (side_has(ls, id2) || id2
            == o.order_id) by {
        assert(side_has(ls2, id2) == (side_has(ls, id2) || id2 == o.order_id));
    }
}

/// A well-formed side that nowhere bears the id is unchanged by taking the
/// id out.
proof fn lemma_side_without_same(ls: Seq<LevelView>, order_id: OrderId, side: Side)
    requires
        side_wf(ls, side),
        !side_has(ls, order_id),
    ensures
        side_without(ls, order_id) == ls,
{
    assert forall|i: int| 0 <= i < ls.len() implies (#[trigger] ls[i]).orders.len() > 0 by {
        assert(level_wf(ls[i], side));
    }
    assert forall|i: int, j: int|
        0 <= i < ls.len() && 0 <= j < ls[i].orders.len() implies (
    #[trigger] ls[i].orders[j]).order_id != order_id by {
        if ls[i].orders[j].order_id == order_id {
            assert(queue_has(ls[i].orders, order_id));
            assert(side_has(ls, order_id));
        }
    }
    crate::matching::lemma_side_without_absent(ls, order_id);
}

/// After the only occurrence of an id leaves, the id is gone and every
/// other id keeps exactly the occurrences it had.
proof fn lemma_level_minus_ids(ls: Seq<LevelView>, li: int, j: int, order_id: OrderId)
    requires
        0 <= li < ls.len(),
        0 <= j < ls[li].orders.len(),
        ls[li].orders[j].order_id == order_id,
        forall|i2: int, j2: int|
            0 <= i2 < ls.len() && 0 <= j2 < ls[i2].orders.len() && (i2 != li || j2 != j)
                ==> (#[trigger] ls[i2].orders[j2]).order_id != order_id,
    ensures
        !side_has(level_minus(ls, li, j), order_id),
        forall|id2: OrderId|
            id2 != order_id ==> (#[trigger] side_has(level_minus(ls, li, j), id2) <==> side_has(
                ls,
                id2,
            )),
{
    let single = ls[li].orders.len() == 1;
    let ls2 = level_minus(ls, li, j);
    if single {
        ls.remove_ensures(li);
    } else {
        ls[li].orders.remove_ensures(j);
    }
    assert forall|id2: OrderId| #[trigger] side_has(ls2, id2) implies (id2 != order_id
        && side_has(ls, id2)) by {
        let i2 = choose|i2: int| 0 <= i2 < ls2.len() && queue_has((#[trigger] ls2[i2]).orders, id2);
        let j2 = choose|j2: int|
            0 <= j2 < ls2[i2].orders.len() && (#[trigger] ls2[i2].orders[j2]).order_id == id2;
        let io = if single && i2 >= li {
            i2 + 1
        } else {
            i2
        };
        let jo = if !single && i2 == li && j2 >= j {
            j2 + 1
        } else {
            j2
        };
        assert(ls2[i2].orders[j2] == ls[io].orders[jo]);
        assert(io != li || jo != j);
        assert(queue_has(ls[io].orders, id2));
        assert(side_has(ls, id2));
    }
    assert forall|id2: OrderId| id2 != order_id && side_has(ls, id2) implies side_has(
        ls2,
        id2,
    ) by {
        let i2 = choose|i2: int| 0 <= i2 < ls.len() && queue_has((#[trigger] ls[i2]).orders, id2);
        let j2 = choose|j2: int|
            0 <= j2 < ls[i2].orders.len() && (#[trigger] ls[i2].orders[j2]).order_id == id2;
        assert(i2 != li || j2 != j);
        if single {
            assert(i2 != li) by {
                if i2 == li {
                    assert(j2 == j);
                }
            }
            let iw = if i2 > li {
                i2 - 1
            } else {
                i2
            };
            assert(ls2[iw].orders == ls[i2].orders);
            assert(queue_has(ls2[iw].orders, id2));
        } else {
            if i2 == li {
                let jw = if j2 > j {
                    j2 - 1
                } else {
                    j2
                };
                assert(ls2[li].orders[jw] == ls[li].orders[j2]);
                assert(queue_has(ls2[li].orders, id2));
            } else {
                assert(ls2[i2].orders == ls[i2].orders);
                assert(queue_has(ls2[i2].orders, id2));
            }
        }
        assert(side_has(ls2, id2));
    }
}

/// Take the order with the given id off the level at the given price; the
/// level goes too when the order was alone on it. Returns where the order
/// stood.
fn remove_resting(levels: &mut Vec<PriceLevel>, price: Price, order_id: OrderId) -> (r: (
    usize,
    usize,
))
    requires
        ({
            let lv = levels_view(old(levels)@);
            exists|i: int|
                0 <= i < lv.len() && (#[trigger] lv[i]).price == price && queue_has(
                    lv[i].orders,
                    order_id,
                )
        }),
    ensures
        ({
            let lv = levels_view(old(levels)@);
            r.0 < lv.len() && r.1 < lv[r.0 as int].orders.len() && lv[r.0 as int].price == price
                && lv[r.0 as int].orders[r.1 as int].order_id == order_id && levels_view(
                final(levels)@,
            ) == level_minus(lv, r.0 as int, r.1 as int)
        }),
{
    let ghost lv = levels_view(old(levels)@);
    let mut i: usize = 0;
    let mut j: usize = 0;
    loop
        invariant_except_break
            *levels == *old(levels),
            i <= lv.len(),
            forall|m: int|
                0 <= m < i ==> !((#[trigger] lv[m]).price == price && queue_has(
                    lv[m].orders,
                    order_id,
                )),
            exists|m: int|
                0 <= m < lv.len() && (#[trigger] lv[m]).price == price && queue_has(
                    lv[m].orders,
                    order_id,
                ),
            lv == levels_view(old(levels)@),
        ensures
            *levels == *old(levels),
            i < lv.len() && j < lv[i as int].orders.len() && lv[i as int].price == price && lv[i as int].orders[j as int].order_id
                == order_id,
        decreases lv.len() - i,
    {
        if i >= levels.len() {
            proof {
                let m = choose|m: int|
                    0 <= m < lv.len() && (#[trigger] lv[m]).price == price && queue_has(
                        lv[m].orders,
                        order_id,
                    );
                assert(false);
            }
            break ;
        }
        if levels[i].price == price {
            let fj = levels[i].orders.find_by_id(order_id);
            match fj {
                Some(jj) => {
                    j = jj;
                    break ;
                },
                None => {
                    proof {
                        assert(!queue_has(lv[i as int].orders, order_id)) by {
                            if queue_has(lv[i as int].orders, order_id) {
                                let jw = choose|jw: int|
                                    0 <= jw < lv[i as int].orders.len() && (#[trigger] lv[i as int].orders[jw]).order_id
                                        == order_id;
                            }
                        }
                    }
                    i = i + 1;
                },
            }
        } else {
            i = i + 1;
        }
    }
    let mut lvl = levels.remove(i);
    lvl.orders.remove_at(j);
    if lvl.orders.len() > 0 {
        levels.insert(i, lvl);
        proof {
            assert(levels_view(levels@) =~= level_minus(lv, i as int, j as int));
        }
    } else {
        proof {
            assert(lv[i as int].orders.len() == 1);
            assert(levels_view(levels@) =~= level_minus(lv, i as int, j as int));
        }
    }
    (i, j)
}

/// Both sides seen from the incoming order: `own` is the side it would rest
/// on, `opp` the side it trades against.
pub open spec fn orient(side: Side, own: Seq<LevelView>, opp: Seq<LevelView>) -> BookView {
    match side {
        Side::Buy => BookView { bids: own, asks: opp },
        Side::Sell => BookView { bids: opp, asks: own },
    }
}

/// The position of the row bearing this id, if the index has one.
fn index_find_vec(ix: &Vec<IndexEntry>, order_id: OrderId) -> (r: Option<usize>)
    ensures
        match r {
            Some(k) => k < ix@.len() && ix@[k as int].order_id == order_id,
            None => !idx_has(ix@, order_id),
        },
{
    let mut k: usize = 0;
    while k < ix.len()
        invariant
            k <= ix@.len(),
            forall|m: int| 0 <= m < k ==> (#[trigger] ix@[m]).order_id != order_id,
        decreases ix@.len() - k,
    {
        if ix[k].order_id == order_id {
            return Some(k);
        }
        k = k + 1;
    }
    None
}

/// The trade one fill emits, as `make_trade` describes it.
fn make_trade_exec(agg: &Order, resting: &Order, qty: Quantity) -> (t: Trade)
    ensures
        t == crate::matching::make_trade(*agg, *resting, qty),
{
    match agg.side {
        Side::Buy => Trade {
            bid_trade: crate::order::TradeInfo {
                order_id: agg.order_id,
                price: resting.price,
                quantity: qty,
            },
            ask_trade: crate::order::TradeInfo {
                order_id: resting.order_id,
                price: resting.price,
                quantity: qty,
            },
        },
        Side::Sell => Trade {
            bid_trade: crate::order::TradeInfo {
                order_id: resting.order_id,
                price: resting.price,
                quantity: qty,
            },
            ask_trade: crate::order::TradeInfo {
                order_id: agg.order_id,
                price: resting.price,
                quantity: qty,
            },
        },
    }
}

/// Run the incoming order against the side it trades on, as `match_levels`
/// describes: fill at the front of the best crossed level until the order
/// is exhausted or nothing crosses any more, emitting one trade per fill
/// and unlinking every exhausted resting order from the index.
#[verifier::rlimit(100)]
fn walk_levels(
    levels: &mut Vec<PriceLevel>,
    ix: &mut Vec<IndexEntry>,
    aggressor: &mut Order,
    own: Ghost<Seq<LevelView>>,
) -> (trades: Vec<Trade>)
    requires
        ({
            let b = orient(old(aggressor).side, own@, levels_view(old(levels)@));
            book_wf(b.bids, b.asks, old(ix)@)
        }),
        old(aggressor).remaining_quantity > 0,
        old(aggressor).remaining_quantity <= old(aggressor).initial_quantity,
    ensures
        ({
            let (ts, opp2, rest) = match_levels(*old(aggressor), levels_view(old(levels)@));
            trades@ == ts && levels_view(final(levels)@) == opp2 && *final(aggressor) == rest
        }),
        ({
            let b2 = orient(old(aggressor).side, own@, levels_view(final(levels)@));
            book_wf(b2.bids, b2.asks, final(ix)@)
        }),
        final(aggressor).remaining_quantity > 0 ==> (levels_view(final(levels)@).len() == 0
            || !crosses(
            old(aggressor).side,
            old(aggressor).price,
            levels_view(final(levels)@)[0].price,
        )),
        forall|id2: OrderId|
            #[trigger] side_has(levels_view(final(levels)@), id2) ==> side_has(
                levels_view(old(levels)@),
                id2,
            ),
        final(aggressor).side == old(aggressor).side,
        final(aggressor).price == old(aggressor).price,
        final(aggressor).order_id == old(aggressor).order_id,
        final(aggressor).order_type == old(aggressor).order_type,
        final(aggressor).initial_quantity == old(aggressor).initial_quantity,
        final(aggressor).remaining_quantity <= old(aggressor).remaining_quantity,
{
    let ghost s = old(aggressor).side;
    let ghost ov = own@;
    let ghost lv0 = levels_view(old(levels)@);
    let mut trades: Vec<Trade> = Vec::new();
    loop
        invariant_except_break
            aggressor.side == s,
            aggressor.price == old(aggressor).price,
            aggressor.order_id == old(aggressor).order_id,
            aggressor.order_type == old(aggressor).order_type,
            aggressor.initial_quantity == old(aggressor).initial_quantity,
            aggressor.remaining_quantity <= old(aggressor).remaining_quantity,
            lv0 == levels_view(old(levels)@),
            ov == own@,
            s == old(aggressor).side,
            old(aggressor).remaining_quantity <= old(aggressor).initial_quantity,
            ({
                let b = orient(s, ov, levels_view(levels@));
                book_wf(b.bids, b.asks, ix@)
            }),
            ({
                let full = match_levels(*old(aggressor), lv0);
                let cur = match_levels(*aggressor, levels_view(levels@));
                full.0 == trades@ + cur.0 && full.1 == cur.1 && full.2 == cur.2
            }),
            forall|id2: OrderId|
                #[trigger] side_has(levels_view(levels@), id2) ==> side_has(lv0, id2),
        ensures
            aggressor.side == s && aggressor.price == old(aggressor).price && aggressor.order_id
                == old(aggressor).order_id && aggressor.order_type == old(aggressor).order_type
                && aggressor.initial_quantity == old(aggressor).initial_quantity,
            aggressor.remaining_quantity <= old(aggressor).remaining_quantity,
            lv0 == levels_view(old(levels)@),
            ov == own@,
            ({
                let b = orient(s, ov, levels_view(levels@));
                book_wf(b.bids, b.asks, ix@)
            }),
            ({
                let full = match_levels(*old(aggressor), lv0);
                full.0 == trades@ && full.1 == levels_view(levels@) && full.2 == *aggressor
            }),
            aggressor.remaining_quantity > 0 ==> (levels_view(levels@).len() == 0 || !crosses(
                s,
                aggressor.price,
                levels_view(levels@)[0].price,
            )),
            forall|id2: OrderId|
                #[trigger] side_has(levels_view(levels@), id2) ==> side_has(lv0, id2),
        decreases aggressor.remaining_quantity,
    {
        let ghost pre_agg = *aggressor;
        let ghost ls = levels_view(levels@);
        let ghost pre_ix = ix@;
        let ghost b = orient(s, ov, ls);
        if aggressor.remaining_quantity == 0 {
            break ;
        }
        if levels.len() == 0 {
            break ;
        }
        let lvl_price = levels[0].price;
        let does_cross = match aggressor.side {
            Side::Buy => aggressor.price >= lvl_price,
            Side::Sell => aggressor.price <= lvl_price,
        };
        if !does_cross {
            break ;
        }
        proof {
            assert(pick(opposite(s), b.bids, b.asks) == ls) by {
                match s {
                    Side::Buy => {},
                    Side::Sell => {},
                }
            }
            assert(level_wf(ls[0], opposite(s)));
        }
        let resting = levels[0].orders.front();
        let agg_snap: Order = *aggressor;
        let qty = if aggressor.remaining_quantity <= resting.remaining_quantity {
            aggressor.remaining_quantity
        } else {
            resting.remaining_quantity
        };
        aggressor.fill(qty);
        let mut resting2 = resting;
        resting2.fill(qty);
        let t = make_trade_exec(&agg_snap, &resting, qty);
        trades.push(t);
        proof {
            crate::matching::lemma_match_levels_step(pre_agg, ls);
        }
        if resting2.remaining_quantity == 0 {
            // The resting order is done: drop it from its level and from
            // the index; drop the level too when it is now empty.
            proof {
                assert(has_entry(pre_ix, resting.order_id, ls[0].price, opposite(s)));
            }
            let kf = index_find_vec(ix, resting.order_id);
            let kk = match kf {
                Some(kk) => kk,
                None => {
                    proof {
                        let kw = choose|kw: int|
                            0 <= kw < pre_ix.len() && (#[trigger] pre_ix[kw]) == (IndexEntry {
                                order_id: resting.order_id,
                                price: ls[0].price,
                                side: opposite(s),
                            });
                        assert(false);
                    }
                    0
                },
            };
            proof {
                let kw = choose|kw: int|
                    0 <= kw < pre_ix.len() && (#[trigger] pre_ix[kw]) == (IndexEntry {
                        order_id: resting.order_id,
                        price: ls[0].price,
                        side: opposite(s),
                    });
                assert(kk as int == kw || pre_ix[kk as int].order_id != pre_ix[kw].order_id);
                assert(pre_ix[kk as int] == (IndexEntry {
                    order_id: resting.order_id,
                    price: ls[0].price,
                    side: opposite(s),
                }));
                lemma_remove_order_book_wf(pre_ix, b.bids, b.asks, opposite(s), 0, 0, kk as int);
                assert forall|i2: int, j2: int|
                    0 <= i2 < ls.len() && 0 <= j2 < ls[i2].orders.len() && (i2 != 0 || j2
                        != 0) implies (#[trigger] ls[i2].orders[j2]).order_id
                    != resting.order_id by {
                    if ls[i2].orders[j2].order_id == resting.order_id {
                        lemma_occurrence_unique(
                            pre_ix,
                            b.bids,
                            b.asks,
                            opposite(s),
                            i2,
                            j2,
                            opposite(s),
                            0,
                            0,
                        );
                    }
                }
                lemma_level_minus_ids(ls, 0, 0, resting.order_id);
            }
            ix.remove(kk);
            let mut lvl = levels.remove(0);
            let _popped = lvl.orders.remove_at(0);
            if lvl.orders.len() > 0 {
                levels.insert(0, lvl);
            }
            proof {
                let ls2 = level_minus(ls, 0, 0);
                assert(levels_view(levels@) =~= ls2);
                assert(put_side(opposite(s), b.bids, b.asks, ls2) == orient(
                    s,
                    ov,
                    levels_view(levels@),
                )) by {
                    match s {
                        Side::Buy => {},
                        Side::Sell => {},
                    }
                }
                // The step of the walk matches what just happened.
                assert(ls[0].orders.remove(0) =~= ls[0].orders.drop_first());
                assert(ls.remove(0) =~= ls.drop_first());
                if ls[0].orders.len() > 1 {
                    assert(ls2 =~= ls.update(
                        0,
                        LevelView { price: ls[0].price, orders: ls[0].orders.drop_first() },
                    ));
                }
                let full = match_levels(*old(aggressor), lv0);
                let pre_run = match_levels(pre_agg, ls);
                let cur = match_levels(*aggressor, levels_view(levels@));
                assert(pre_run.0 == seq![t] + cur.0 && pre_run.1 == cur.1 && pre_run.2 == cur.2);
                assert(full.0 =~= trades@ + cur.0);
                assert forall|id2: OrderId|
                    #[trigger] side_has(levels_view(levels@), id2) implies side_has(
                    lv0,
                    id2,
                ) by {
                    assert(side_has(ls, id2));
                }
            }
        } else {
            // The incoming order is exhausted; the front order keeps its
            // place with what remains of it.
            proof {
                lemma_shrink_order_book_wf(pre_ix, b.bids, b.asks, opposite(s), 0, 0, resting2);
            }
            let mut lvl = levels.remove(0);
            let _popped = lvl.orders.remove_at(0);
            lvl.orders.push_front(resting2);
            levels.insert(0, lvl);
            proof {
                let q2 = ls[0].orders.update(0, resting2);
                let ls2 = ls.update(0, LevelView { price: ls[0].price, orders: q2 });
                assert(q2 =~= seq![resting2] + ls[0].orders.drop_first());
                assert(levels_view(levels@) =~= ls2);
                assert(put_side(opposite(s), b.bids, b.asks, ls2) == orient(
                    s,
                    ov,
                    levels_view(levels@),
                )) by {
                    match s {
                        Side::Buy => {},
                        Side::Sell => {},
                    }
                }
                let full = match_levels(*old(aggressor), lv0);
                let pre_run = match_levels(pre_agg, ls);
                let cur = match_levels(*aggressor, levels_view(levels@));
                assert(pre_run.0 == seq![t] + cur.0 && pre_run.1 == cur.1 && pre_run.2 == cur.2);
                assert(full.0 =~= trades@ + cur.0);
                assert forall|id2: OrderId|
                    #[trigger] side_has(levels_view(levels@), id2) implies side_has(
                    lv0,
                    id2,
                ) by {
                    if side_has(ls2, id2) {
                        let iw = choose|iw: int|
                            0 <= iw < ls2.len() && queue_has((#[trigger] ls2[iw]).orders, id2);
                        let jw = choose|jw: int|
                            0 <= jw < ls2[iw].orders.len() && (
                            #[trigger] ls2[iw].orders[jw]).order_id == id2;
                        assert(ls[iw].orders[jw].order_id == id2);
                        assert(queue_has(ls[iw].orders, id2));
                        assert(side_has(ls, id2));
                    }
                }
            }
        }
    }
    trades
}

/// Total resting quantity at one price over a side's levels.
pub open spec fn depth_at(ls: Seq<LevelView>, p: Price) -> int
    decreases ls.len(),
{
    if ls.len() == 0 {
        0
    } else {
        (if ls[0].price == p {
            queue_total(ls[0].orders)
        } else {
            0
        }) + depth_at(ls.drop_first(), p)
    }
}

proof fn lemma_depth_at_found(ls: Seq<LevelView>, p: Price, i0: int)
    requires
        0 <= i0 < ls.len(),
        ls[i0].price == p,
        forall|j: int| 0 <= j < ls.len() && j != i0 ==> (#[trigger] ls[j]).price != p,
    ensures
        depth_at(ls, p) == queue_total(ls[i0].orders),
    decreases ls.len(),
{
    assert(forall|k: int| 0 <= k < ls.len() - 1 ==> #[trigger] ls.drop_first()[k] == ls[k + 1]);
    if i0 == 0 {
        lemma_depth_at_none(ls.drop_first(), p);
    } else {
        lemma_depth_at_found(ls.drop_first(), p, i0 - 1);
    }
}

proof fn lemma_depth_at_none(ls: Seq<LevelView>, p: Price)
    requires
        forall|j: int| 0 <= j < ls.len() ==> (#[trigger] ls[j]).price != p,
    ensures
        depth_at(ls, p) == 0,
    decreases ls.len(),
{
    if ls.len() > 0 {
        assert(forall|k: int| 0 <= k < ls.len() - 1 ==> #[trigger] ls.drop_first()[k] == ls[k
            + 1]);
        lemma_depth_at_none(ls.drop_first(), p);
    }
}

/// Resting quantity at one price on one side, by scanning for its level.
fn side_depth(levels: &Vec<PriceLevel>, price: Price) -> (q: Quantity)
    requires
        forall|i: int, j: int|
            0 <= i < j < levels_view(levels@).len() ==> (#[trigger] levels_view(
                levels@,
            )[i]).price != (#[trigger] levels_view(levels@)[j]).price,
        side_total(levels_view(levels@)) <= u64::MAX,
    ensures
        q == depth_at(levels_view(levels@), price),
{
    let ghost lv = levels_view(levels@);
    let mut i: usize = 0;
    while i < levels.len()
        invariant
            i <= lv.len(),
            lv == levels_view(levels@),
            forall|m: int| 0 <= m < i ==> (#[trigger] lv[m]).price != price,
            forall|i2: int, j2: int|
                0 <= i2 < j2 < lv.len() ==> (#[trigger] lv[i2]).price != (
                #[trigger] lv[j2]).price,
            side_total(lv) <= u64::MAX,
        decreases lv.len() - i,
    {
        if levels[i].price == price {
            proof {
                crate::matching::lemma_level_total_le_side(lv, i as int);
                assert forall|j: int| 0 <= j < lv.len() && j != i implies (
                #[trigger] lv[j]).price != price by {
                    if j < i {
                        assert(lv[j].price != price);
                    }
                }
                lemma_depth_at_found(lv, price, i as int);
            }
            return levels[i].orders.total_quantity();
        }
        i = i + 1;
    }
    proof {
        lemma_depth_at_none(lv, price);
    }
    0
}

/// The level summaries for one side, best first.
fn level_infos(levels: &Vec<PriceLevel>) -> (r: Vec<LevelInfo>)
    requires
        side_total(levels_view(levels@)) <= u64::MAX,
    ensures
        r@.len() == levels_view(levels@).len(),
        forall|i: int|
            0 <= i < r@.len() ==> (#[trigger] r@[i]).price == levels_view(levels@)[i].price
                && r@[i].quantity == queue_total(levels_view(levels@)[i].orders),
{
    let ghost lv = levels_view(levels@);
    let mut out: Vec<LevelInfo> = Vec::new();
    let mut i: usize = 0;
    while i < levels.len()
        invariant
            i <= lv.len(),
            lv == levels_view(levels@),
            out@.len() == i,
            forall|m: int|
                0 <= m < i ==> (#[trigger] out@[m]).price == lv[m].price && out@[m].quantity
                    == queue_total(lv[m].orders),
            side_total(lv) <= u64::MAX,
        decreases lv.len() - i,
    {
        proof {
            crate::matching::lemma_level_total_le_side(lv, i as int);
        }
        let q = levels[i].orders.total_quantity();
        out.push(LevelInfo { price: levels[i].price, quantity: q });
        i = i + 1;
    }
    out
}

/// The order a modification asks to put in place of the old one. It keeps
/// the id, takes the new side, price and quantity, and is good-till-cancel —
/// the time-in-force a resting order always has.
pub open spec fn replacement_order(m: OrderModify) -> Order {
    Order {
        order_id: m.order_id,
        price: m.price,
        remaining_quantity: m.quantity,
        initial_quantity: m.quantity,
        order_type: OrderType::GoodToCancel,
        side: m.side,
    }
}

/// Rest an order on its own side: append it to its price's queue, or open a
/// fresh level in price order, and record it in the index.
fn insert_resting(
    levels: &mut Vec<PriceLevel>,
    ix: &mut Vec<IndexEntry>,
    o: Order,
    other: Ghost<Seq<LevelView>>,
)
    requires
        ({
            let b = orient(o.side, levels_view(old(levels)@), other@);
            book_wf(b.bids, b.asks, old(ix)@)
        }),
        o.order_type == OrderType::GoodToCancel,
        0 < o.price,
        0 < o.remaining_quantity <= o.initial_quantity,
        !idx_has(old(ix)@, o.order_id),
        other@.len() > 0 ==> !crosses(o.side, o.price, other@[0].price),
    ensures
        levels_view(final(levels)@) == side_insert(levels_view(old(levels)@), o, o.side),
        final(ix)@ == old(ix)@.push(
            IndexEntry { order_id: o.order_id, price: o.price, side: o.side },
        ),
        ({
            let b2 = orient(o.side, levels_view(final(levels)@), other@);
            book_wf(b2.bids, b2.asks, final(ix)@)
        }),
        forall|id2: OrderId|
            #[trigger] side_has(levels_view(final(levels)@), id2) == (side_has(
                levels_view(old(levels)@),
                id2,
            ) || id2 == o.order_id),
{
    let ghost lv = levels_view(old(levels)@);
    let ghost b = orient(o.side, lv, other@);
    let mut pos: usize = 0;
    loop
        invariant_except_break
            *levels == *old(levels),
            *ix == *old(ix),
            pos <= lv.len(),
            lv == levels_view(levels@),
            forall|i: int|
                0 <= i < pos ==> price_before(o.side, (#[trigger] lv[i]).price, o.price),
        ensures
            *levels == *old(levels),
            *ix == *old(ix),
            pos <= lv.len(),
            forall|i: int|
                0 <= i < pos ==> price_before(o.side, (#[trigger] lv[i]).price, o.price),
            pos < lv.len() ==> !price_before(o.side, lv[pos as int].price, o.price),
        decreases lv.len() - pos,
    {
        if pos >= levels.len() {
            break ;
        }
        let better = match o.side {
            Side::Buy => levels[pos].price > o.price,
            Side::Sell => levels[pos].price < o.price,
        };
        if !better {
            break ;
        }
        pos = pos + 1;
    }
    proof {
        assert(pos < lv.len() ==> (lv[pos as int].price == o.price || price_before(
            o.side,
            o.price,
            lv[pos as int].price,
        ))) by {
            if pos < lv.len() {
                match o.side {
                    Side::Buy => {},
                    Side::Sell => {},
                }
            }
        }
        crate::matching::lemma_side_insert_at(lv, o, o.side, pos as int);
        assert(pick(o.side, b.bids, b.asks) == lv && pick(opposite(o.side), b.bids, b.asks)
            == other@) by {
            match o.side {
                Side::Buy => {},
                Side::Sell => {},
            }
        }
        lemma_insert_order_book_wf(old(ix)@, b.bids, b.asks, o.side, o, pos as int);
    }
    if pos < levels.len() && levels[pos].price == o.price {
        let mut lvl = levels.remove(pos);
        lvl.orders.push_back(o);
        levels.insert(pos, lvl);
        proof {
            assert(levels_view(levels@) =~= lv.update(
                pos as int,
                LevelView { price: lv[pos as int].price, orders: lv[pos as int].orders.push(o) },
            ));
        }
    } else {
        let mut ol = OrderList::new();
        ol.push_back(o);
        levels.insert(pos, PriceLevel { price: o.price, orders: ol });
        proof {
            assert(Seq::<Order>::empty().push(o) =~= seq![o]);
            assert(levels_view(levels@) =~= lv.insert(
                pos as int,
                LevelView { price: o.price, orders: seq![o] },
            ));
        }
    }
    ix.push(IndexEntry { order_id: o.order_id, price: o.price, side: o.side });
    proof {
        let ls2 = side_insert(lv, o, o.side);
        assert(put_side(o.side, b.bids, b.asks, ls2) == orient(o.side, ls2, other@)) by {
            match o.side {
                Side::Buy => {},
                Side::Sell => {},
            }
        }
        lemma_insert_order_book_wf(old(ix)@, b.bids, b.asks, o.side, o, pos as int);
        let lsp = pick(o.side, b.bids, b.asks);
        let ls2e = if (pos as int) < lsp.len() && lsp[pos as int].price == o.price {
            lsp.update(
                pos as int,
                LevelView { price: lsp[pos as int].price, orders: lsp[pos as int].orders.push(o) },
            )
        } else {
            lsp.insert(pos as int, LevelView { price: o.price, orders: seq![o] })
        };
        assert(lsp == lv) by {
            match o.side {
                Side::Buy => {},
                Side::Sell => {},
            }
        }
        assert(ls2 == ls2e);
        assert forall|id2: OrderId|
            #[trigger] side_has(levels_view(levels@), id2) == (side_has(lv, id2) || id2
                == o.order_id) by {
            assert(side_has(side_insert(pick(o.side, b.bids, b.asks), o, o.side), id2) == (
            side_has(pick(o.side, b.bids, b.asks), id2) || id2 == o.order_id));
            assert(levels_view(levels@) == side_insert(pick(o.side, b.bids, b.asks), o, o.side));
        }
    }
}

/// The limit order book for one instrument.
#[derive(Debug)]
pub struct OrderBook {
    pub bids: Vec<PriceLevel>,
    pub asks: Vec<PriceLevel>,
    pub index: Vec<IndexEntry>,
}

impl OrderBook {
    pub open spec fn bids_v(&self) -> Seq<LevelView> {
        levels_view(self.bids@)
    }

    pub open spec fn asks_v(&self) -> Seq<LevelView> {
        levels_view(self.asks@)
    }

    pub open spec fn side_v(&self, side: Side) -> Seq<LevelView> {
        match side {
            Side::Buy => self.bids_v(),
            Side::Sell => self.asks_v(),
        }
    }

    pub open spec fn book_v(&self) -> BookView {
        BookView { bids: self.bids_v(), asks: self.asks_v() }
    }

    /// The book's invariant: both sides well formed, never crossed, the
    /// index a bijection with the resting orders, and each side's total
    /// resting quantity within the machine range.
    pub open spec fn inv(&self) -> bool {
        book_wf(self.bids_v(), self.asks_v(), self.index@) && side_total(self.bids_v())
            <= u64::MAX && side_total(self.asks_v()) <= u64::MAX
    }

    /// Whether an order with the id is resting anywhere in the book.
    pub open spec fn contains_id(&self, order_id: OrderId) -> bool {
        side_has(self.bids_v(), order_id) || side_has(self.asks_v(), order_id)
    }

    /// Whether an order at this price and side would trade at once.
    pub open spec fn spec_can_match(&self, price: Price, side: Side) -> bool {
        match side {
            Side::Buy => self.asks_v().len() > 0 && price >= self.asks_v()[0].price,
            Side::Sell => self.bids_v().len() > 0 && price <= self.bids_v()[0].price,
        }
    }

    pub fn new() -> (b: OrderBook)
        ensures
            b.inv(),
            b.bids_v() == Seq::<LevelView>::empty(),
            b.asks_v() == Seq::<LevelView>::empty(),
            b.index@ == Seq::<IndexEntry>::empty(),
    {
        let b = OrderBook { bids: Vec::new(), asks: Vec::new(), index: Vec::new() };
        proof {
            assert(b.bids_v() =~= Seq::<LevelView>::empty());
            assert(b.asks_v() =~= Seq::<LevelView>::empty());
        }
        b
    }

    /// How many orders are resting in the book: the index holds one row
    /// per resting order.
    pub fn orderbook_size(&self) -> (n: usize)
        ensures
            n == self.index@.len(),
            self.inv() ==> n as int == side_count(self.bids_v()) + side_count(self.asks_v()),
    {
        proof {
            if self.inv() {
                lemma_index_counts_orders(self.index@, self.bids_v(), self.asks_v());
            }
        }
        self.index.len()
    }

    /// Whether an order at this price and side would trade at once:
    /// a buy must reach the best ask, a sell must reach down to the best bid.
    pub fn can_match(&self, price: Price, side: Side) -> (r: bool)
        requires
            self.inv(),
        ensures
            r == self.spec_can_match(price, side),
    {
        match side {
            Side::Buy => {
                if self.asks.len() == 0 {
                    false
                } else {
                    price >= self.asks[0].price
                }
            },
            Side::Sell => {
                if self.bids.len() == 0 {
                    false
                } else {
                    price <= self.bids[0].price
                }
            },
        }
    }

    /// The index position of the row for this id, if the order is known.
    fn index_find(&self, order_id: OrderId) -> (r: Option<usize>)
        ensures
            match r {
                Some(k) => k < self.index@.len() && self.index@[k as int].order_id == order_id,
                None => !idx_has(self.index@, order_id),
            },
    {
        let mut k: usize = 0;
        while k < self.index.len()
            invariant
                k <= self.index@.len(),
                forall|m: int| 0 <= m < k ==> (#[trigger] self.index@[m]).order_id != order_id,
            decreases self.index@.len() - k,
        {
            if self.index[k].order_id == order_id {
                return Some(k);
            }
            k = k + 1;
        }
        None
    }

    /// Remove an order from the book: it leaves its level and its index
    /// row, and an emptied level is dropped. Returns `NotFound`, changing
    /// nothing, when no resting order bears the id. Never emits trades.
    pub fn cancel_order(&mut self, order_id: OrderId) -> (r: CancelResult)
        requires
            old(self).inv(),
        ensures
            final(self).inv(),
            r == (if old(self).contains_id(order_id) {
                CancelResult::Cancelled
            } else {
                CancelResult::NotFound
            }),
            final(self).bids_v() == side_without(old(self).bids_v(), order_id),
            final(self).asks_v() == side_without(old(self).asks_v(), order_id),
            !final(self).contains_id(order_id),
            forall|id2: OrderId|
                id2 != order_id ==> (#[trigger] final(self).contains_id(id2) <==> old(
                    self,
                ).contains_id(id2)),
    {
        proof {
            lemma_idx_has_iff_contains(
                self.index@,
                self.bids_v(),
                self.asks_v(),
                order_id,
            );
        }
        let found = self.index_find(order_id);
        match found {
            None => {
                proof {
                    assert(!old(self).contains_id(order_id));
                    lemma_side_without_same(self.bids_v(), order_id, Side::Buy);
                    lemma_side_without_same(self.asks_v(), order_id, Side::Sell);
                }
                CancelResult::NotFound
            },
            Some(k) => {
                let ghost prev = *self;
                let e = self.index[k];
                let side = e.side;
                proof {
                    assert(idx_has(prev.index@, order_id));
                    assert(entry_resolves(e, pick(side, prev.bids_v(), prev.asks_v())));
                }
                self.index.remove(k);
                let lij: (usize, usize) = match side {
                    Side::Buy => remove_resting(&mut self.bids, e.price, order_id),
                    Side::Sell => remove_resting(&mut self.asks, e.price, order_id),
                };
                proof {
                    let li = lij.0 as int;
                    let j = lij.1 as int;
                    let bv = prev.bids_v();
                    let av = prev.asks_v();
                    let ls = pick(side, bv, av);
                    assert(e == prev.index@[k as int]);
                    assert(ls[li].price == e.price && ls[li].orders[j].order_id == order_id);
                    lemma_remove_order_book_wf(prev.index@, bv, av, side, li, j, k as int);
                    let b2 = put_side(side, bv, av, level_minus(ls, li, j));
                    assert(self.bids_v() == b2.bids && self.asks_v() == b2.asks);
                    assert(self.index@ == prev.index@.remove(k as int));

                    // Totals can only have gone down.
                    assert(level_wf(ls[li], side));
                    crate::level::lemma_queue_total_remove(ls[li].orders, j);
                    if ls[li].orders.len() == 1 {
                        crate::matching::lemma_side_total_remove(ls, li);
                    } else {
                        crate::matching::lemma_side_total_update(
                            ls,
                            li,
                            LevelView { price: ls[li].price, orders: ls[li].orders.remove(j) },
                        );
                    }
                    crate::matching::lemma_side_total_nonneg(level_minus(ls, li, j));

                    // The cancelled id was resting only there; every other
                    // id keeps exactly its occurrences.
                    assert forall|i2: int, j2: int|
                        0 <= i2 < ls.len() && 0 <= j2 < ls[i2].orders.len() && (i2 != li || j2
                            != j) implies (#[trigger] ls[i2].orders[j2]).order_id != order_id by {
                        if ls[i2].orders[j2].order_id == order_id {
                            lemma_occurrence_unique(
                                prev.index@,
                                bv,
                                av,
                                side,
                                i2,
                                j2,
                                side,
                                li,
                                j,
                            );
                        }
                    }
                    let other = pick(opposite(side), bv, av);
                    assert forall|i2: int, j2: int|
                        0 <= i2 < other.len() && 0 <= j2
                            < other[i2].orders.len() implies (#[trigger] other[i2].orders[j2]).order_id
                        != order_id by {
                        if other[i2].orders[j2].order_id == order_id {
                            lemma_occurrence_unique(
                                prev.index@,
                                bv,
                                av,
                                opposite(side),
                                i2,
                                j2,
                                side,
                                li,
                                j,
                            );
                        }
                    }
                    assert forall|i2: int| 0 <= i2 < ls.len() implies (#[trigger] ls[i2]).orders.len()
                        > 0 by {
                        assert(level_wf(ls[i2], side));
                    }
                    crate::matching::lemma_side_without_unique(ls, order_id, li, j);
                    assert forall|i2: int| 0 <= i2 < other.len() implies (
                    #[trigger] other[i2]).orders.len() > 0 by {
                        assert(level_wf(other[i2], opposite(side)));
                    }
                    crate::matching::lemma_side_without_absent(other, order_id);
                    assert(!side_has(other, order_id)) by {
                        if side_has(other, order_id) {
                            let i2 = choose|i2: int|
                                0 <= i2 < other.len() && queue_has(
                                    (#[trigger] other[i2]).orders,
                                    order_id,
                                );
                            let j2 = choose|j2: int|
                                0 <= j2 < other[i2].orders.len() && (
                                #[trigger] other[i2].orders[j2]).order_id == order_id;
                        }
                    }
                    lemma_level_minus_ids(ls, li, j, order_id);
                    match side {
                        Side::Buy => {
                            assert(self.bids_v() == side_without(bv, order_id));
                            assert(self.asks_v() == side_without(av, order_id));
                        },
                        Side::Sell => {
                            assert(self.asks_v() == side_without(av, order_id));
                            assert(self.bids_v() == side_without(bv, order_id));
                        },
                    }
                }
                CancelResult::Cancelled
            },
        }
    }

    /// Admit an order and run the matching pass at once.
    ///
    /// A duplicate id is rejected, as is a fill-and-kill order that could
    /// not trade immediately; either rejection leaves the book untouched.
    /// Otherwise the order fills against the opposite side as far as its
    /// limit crosses, the trades are returned in order, and any residue
    /// rests on its own side — unless the order is fill-and-kill, whose
    /// residue is cancelled before this call returns, so such an order is
    /// never left in the book.
    pub fn add_order(&mut self, order: Order) -> (r: Result<Vec<Trade>, OrderBookError>)
        requires
            old(self).inv(),
            0 < order.price,
            0 < order.initial_quantity,
            order.remaining_quantity == order.initial_quantity,
            side_total(old(self).side_v(order.side)) + order.initial_quantity <= u64::MAX,
        ensures
            final(self).inv(),
            old(self).contains_id(order.order_id) ==> r == Err::<Vec<Trade>, OrderBookError>(
                OrderBookError::DuplicateOrderId,
            ) && final(self).book_v() == old(self).book_v() && final(self).index@ == old(
                self,
            ).index@,
            (!old(self).contains_id(order.order_id) && order.order_type == OrderType::FillAndKill
                && !old(self).spec_can_match(order.price, order.side)) ==> r == Err::<
                Vec<Trade>,
                OrderBookError,
            >(OrderBookError::NotMarketable) && final(self).book_v() == old(self).book_v()
                && final(self).index@ == old(self).index@,
            (!old(self).contains_id(order.order_id) && (order.order_type
                == OrderType::GoodToCancel || old(self).spec_can_match(order.price, order.side)))
                ==> ({
                let (ts, b2) = spec_submit(old(self).book_v(), order);
                r is Ok && r->Ok_0@ == ts && final(self).book_v() == b2
            }),
            order.order_type == OrderType::FillAndKill && !old(self).contains_id(order.order_id)
                ==> !final(self).contains_id(order.order_id),
    {
        proof {
            lemma_idx_has_iff_contains(
                self.index@,
                self.bids_v(),
                self.asks_v(),
                order.order_id,
            );
        }
        let dup = self.index_find(order.order_id);
        if dup.is_some() {
            return Err(OrderBookError::DuplicateOrderId);
        }
        let fak = match order.order_type {
            OrderType::FillAndKill => true,
            OrderType::GoodToCancel => false,
        };
        if fak && !self.can_match(order.price, order.side) {
            return Err(OrderBookError::NotMarketable);
        }
        let ghost pre = *self;
        let ghost oppv = pre.side_v(opposite(order.side));
        let ghost ownv = pre.side_v(order.side);
        let mut agg = order;
        proof {
            assert(orient(order.side, ownv, oppv) == pre.book_v()) by {
                match order.side {
                    Side::Buy => {},
                    Side::Sell => {},
                }
            }
            assert(!side_has(oppv, order.order_id) && !side_has(ownv, order.order_id)) by {
                match order.side {
                    Side::Buy => {},
                    Side::Sell => {},
                }
            }
        }
        let ghost own_g = ownv;
        let trades = match order.side {
            Side::Buy => walk_levels(&mut self.asks, &mut self.index, &mut agg, Ghost(own_g)),
            Side::Sell => walk_levels(&mut self.bids, &mut self.index, &mut agg, Ghost(own_g)),
        };
        proof {
            assert(self.side_v(order.side) == ownv && orient(
                order.side,
                ownv,
                self.side_v(opposite(order.side)),
            ) == self.book_v()) by {
                match order.side {
                    Side::Buy => {},
                    Side::Sell => {},
                }
            }
            crate::matching::lemma_match_levels_conserves(order, oppv);
            crate::matching::lemma_side_total_nonneg(
                self.side_v(opposite(order.side)),
            );
        }
        let rest_gtc = match agg.order_type {
            OrderType::GoodToCancel => true,
            OrderType::FillAndKill => false,
        };
        if agg.remaining_quantity > 0 && rest_gtc {
            proof {
                let (ts, opp2, rest) = match_levels(order, oppv);
                assert(agg == rest);
                lemma_idx_has_iff_contains(
                    self.index@,
                    self.bids_v(),
                    self.asks_v(),
                    order.order_id,
                );
                assert(!side_has(self.side_v(opposite(order.side)), order.order_id));
                assert(!idx_has(self.index@, order.order_id)) by {
                    match order.side {
                        Side::Buy => {},
                        Side::Sell => {},
                    }
                }
            }
            let ghost opp2_g = self.side_v(opposite(order.side));
            match order.side {
                Side::Buy => insert_resting(&mut self.bids, &mut self.index, agg, Ghost(opp2_g)),
                Side::Sell => insert_resting(&mut self.asks, &mut self.index, agg, Ghost(opp2_g)),
            }
            proof {
                let (ts, opp2, rest) = match_levels(order, oppv);
                let ls2 = side_insert(ownv, rest, order.side);
                assert(self.side_v(order.side) == ls2 && self.side_v(opposite(order.side))
                    == opp2) by {
                    match order.side {
                        Side::Buy => {},
                        Side::Sell => {},
                    }
                }
                // The residue's total keeps the side within range.
                crate::matching::lemma_side_insert_total(ownv, rest, order.side);
                assert(orient(order.side, ls2, opp2) == self.book_v()) by {
                    match order.side {
                        Side::Buy => {},
                        Side::Sell => {},
                    }
                }
                assert(side_total(self.bids_v()) <= u64::MAX && side_total(self.asks_v())
                    <= u64::MAX) by {
                    match order.side {
                        Side::Buy => {},
                        Side::Sell => {},
                    }
                }
                let sub = spec_submit(pre.book_v(), order);
                assert(sub.0 == trades@ && sub.1 == self.book_v()) by {
                    match order.side {
                        Side::Buy => {},
                        Side::Sell => {},
                    }
                }
            }
        } else {
            proof {
                let (ts, opp2, rest) = match_levels(order, oppv);
                assert(rest.remaining_quantity == 0 || rest.order_type
                    == OrderType::FillAndKill);
                assert(side_total(self.bids_v()) <= u64::MAX && side_total(self.asks_v())
                    <= u64::MAX) by {
                    match order.side {
                        Side::Buy => {},
                        Side::Sell => {},
                    }
                }
                assert(!self.contains_id(order.order_id)) by {
                    match order.side {
                        Side::Buy => {},
                        Side::Sell => {},
                    }
                }
                let sub = spec_submit(pre.book_v(), order);
                assert(sub.0 == trades@ && sub.1 == self.book_v()) by {
                    match order.side {
                        Side::Buy => {},
                        Side::Sell => {},
                    }
                }
            }
        }
        Ok(trades)
    }

    /// Replace a resting order: cancel it, then submit a fresh
    /// good-till-cancel order with the same id and the modification's side,
    /// price and quantity. The order loses its place in the queue. When no
    /// resting order bears the id, nothing changes and no trades come back.
    pub fn match_order(&mut self, order_modify: OrderModify) -> (r: Vec<Trade>)
        requires
            old(self).inv(),
            0 < order_modify.price,
            0 < order_modify.quantity,
            side_total(old(self).side_v(order_modify.side)) + order_modify.quantity <= u64::MAX,
        ensures
            final(self).inv(),
            !old(self).contains_id(order_modify.order_id) ==> r@ == Seq::<Trade>::empty()
                && final(self).book_v() == old(self).book_v(),
            old(self).contains_id(order_modify.order_id) ==> ({
                let mid = BookView {
                    bids: side_without(old(self).bids_v(), order_modify.order_id),
                    asks: side_without(old(self).asks_v(), order_modify.order_id),
                };
                let (ts, b2) = spec_submit(mid, replacement_order(order_modify));
                r@ == ts && final(self).book_v() == b2
            }),
    {
        let ghost pre = *self;
        let cr = self.cancel_order(order_modify.order_id);
        match cr {
            CancelResult::NotFound => {
                proof {
                    lemma_side_without_same(pre.bids_v(), order_modify.order_id, Side::Buy);
                    lemma_side_without_same(pre.asks_v(), order_modify.order_id, Side::Sell);
                }
                Vec::new()
            },
            CancelResult::Cancelled => {
                proof {
                    crate::matching::lemma_side_without_total(
                        pre.side_v(order_modify.side),
                        order_modify.order_id,
                    );
                    assert(self.side_v(order_modify.side) == side_without(
                        pre.side_v(order_modify.side),
                        order_modify.order_id,
                    )) by {
                        match order_modify.side {
                            Side::Buy => {},
                            Side::Sell => {},
                        }
                    }
                }
                let o2 = Order::new(
                    order_modify.order_id,
                    order_modify.price,
                    order_modify.quantity,
                    OrderType::GoodToCancel,
                    order_modify.side,
                );
                let res = self.add_order(o2);
                match res {
                    Ok(ts) => ts,
                    Err(_) => {
                        proof {
                            assert(false);
                        }
                        Vec::new()
                    },
                }
            },
        }
    }

    /// A snapshot of the book: for each occupied level its price and the
    /// sum of the remaining quantities resting there, bids best (highest)
    /// first, asks best (lowest) first.
    pub fn get_orderbook_level_infos(&self) -> (r: OrderBookLevelInfos)
        requires
            self.inv(),
        ensures
            r.bids@.len() == self.bids_v().len(),
            r.asks@.len() == self.asks_v().len(),
            forall|i: int|
                0 <= i < r.bids@.len() ==> (#[trigger] r.bids@[i]).price == self.bids_v()[i].price
                    && r.bids@[i].quantity == queue_total(self.bids_v()[i].orders),
            forall|i: int|
                0 <= i < r.asks@.len() ==> (#[trigger] r.asks@[i]).price == self.asks_v()[i].price
                    && r.asks@[i].quantity == queue_total(self.asks_v()[i].orders),
    {
        OrderBookLevelInfos { bids: level_infos(&self.bids), asks: level_infos(&self.asks) }
    }

    /// Total remaining quantity resting at a price, both sides counted;
    /// zero when no order rests there. Under the book's invariant at most
    /// one side occupies any price.
    pub fn get_volume_at_price(&self, price: Price) -> (q: Quantity)
        requires
            self.inv(),
        ensures
            q == depth_at(self.bids_v(), price) + depth_at(self.asks_v(), price),
    {
        proof {
            assert(forall|i: int, j: int|
                0 <= i < j < self.bids_v().len() ==> (#[trigger] self.bids_v()[i]).price != (
                #[trigger] self.bids_v()[j]).price);
            assert(forall|i: int, j: int|
                0 <= i < j < self.asks_v().len() ==> (#[trigger] self.asks_v()[i]).price != (
                #[trigger] self.asks_v()[j]).price);
        }
        let qb = side_depth(&self.bids, price);
        let qa = side_depth(&self.asks, price);
        proof {
            // The book is never crossed, so no price is occupied on both
            // sides at once: one of the two summands is zero.
            let bv = self.bids_v();
            let av = self.asks_v();
            if exists|i: int| 0 <= i < bv.len() && (#[trigger] bv[i]).price == price {
                let i = choose|i: int| 0 <= i < bv.len() && (#[trigger] bv[i]).price == price;
                assert forall|j: int| 0 <= j < av.len() implies (#[trigger] av[j]).price
                    != price by {
                    if av[j].price == price {
                        assert(price_before(Side::Buy, bv[0].price, bv[i].price) || i == 0);
                        assert(price_before(Side::Sell, av[0].price, av[j].price) || j == 0);
                        assert(bv[0].price >= price && av[0].price <= price);
                    }
                }
                lemma_depth_at_none(av, price);
                crate::matching::lemma_level_total_le_side(bv, i);
                assert forall|j: int| 0 <= j < bv.len() && j != i implies (
                #[trigger] bv[j]).price != price by {}
                lemma_depth_at_found(bv, price, i);
            } else {
                lemma_depth_at_none(bv, price);
                crate::matching::lemma_side_total_nonneg(av);
            }
        }
        qb + qa
    }

    /// The best (highest) bid price and best (lowest) ask price, when both
    /// sides are occupied.
    pub fn get_best_bid_ask(&self) -> (r: Option<(Price, Price)>)
        requires
            self.inv(),
        ensures
            match r {
                Some(pair) => self.bids_v().len() > 0 && self.asks_v().len() > 0 && pair.0
                    == self.bids_v()[0].price && pair.1 == self.asks_v()[0].price && pair.0
                    < pair.1,
                None => self.bids_v().len() == 0 || self.asks_v().len() == 0,
            },
    {
        if self.bids.len() > 0 && self.asks.len() > 0 {
            Some((self.bids[0].price, self.asks[0].price))
        } else {
            None
        }
    }
}

} // verus!
