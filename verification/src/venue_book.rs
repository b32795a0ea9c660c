//! A deterministic view of a venue-published order book, fed by two
//! independent streams: a best-bid/ask ticker and incremental depth
//! snapshots reconciled under a monotonic update sequence.
//!
//! Prices and quantities arrive as wire decimal strings and are converted
//! at the boundary by `fixed_point`; the book itself holds integers only.

use vstd::prelude::*;
use crate::order::{Price, Quantity};

verus! {

/// A best-bid/ask ticker message, already decoded to integer units.
#[derive(Debug, Clone)]
pub struct BookTickerUpdate {
    pub update_id: u64,
    pub symbol: String,
    pub best_bid_price: Price,
    pub best_bid_quantity: Quantity,
    pub best_ask_price: Price,
    pub best_ask_quantity: Quantity,
}

/// A depth message: a sequence number and the changed levels per side,
/// already decoded to integer units. A zero quantity deletes its level.
#[derive(Debug, Clone)]
pub struct DepthUpdate {
    pub last_update_id: u64,
    pub bids: Vec<(Price, Quantity)>,
    pub asks: Vec<(Price, Quantity)>,
}

/// The outcome of a depth update: applied, or dropped as stale. A stale
/// update is not an error; it simply has no effect.
#[derive(Debug, PartialEq, Eq, Clone, Copy, Structural)]
pub enum DepthOutcome {
    Applied,
    Stale,
}

/// The price-to-quantity map a side's sorted entries denote.
pub open spec fn entries_map(s: Seq<(Price, Quantity)>) -> Map<int, Quantity>
    decreases s.len(),
{
    if s.len() == 0 {
        Map::<int, Quantity>::empty()
    } else {
        entries_map(s.drop_last()).insert(s.last().0 as int, s.last().1)
    }
}

/// A well-formed side: strictly ascending prices, no zero quantity.
pub open spec fn entries_wf(s: Seq<(Price, Quantity)>) -> bool {
    (forall|i: int, j: int| 0 <= i < j < s.len() ==> (#[trigger] s[i]).0 < (#[trigger] s[j]).0)
        && (forall|i: int| 0 <= i < s.len() ==> (#[trigger] s[i]).1 > 0)
}

/// One price set to a quantity: a zero quantity removes the key, any other
/// overwrites or creates it.
pub open spec fn map_apply(m: Map<int, Quantity>, p: Price, q: Quantity) -> Map<int, Quantity> {
    if q == 0 {
        m.remove(p as int)
    } else {
        m.insert(p as int, q)
    }
}

/// A whole side of a depth message folded in, first entry first.
pub open spec fn map_apply_all(m: Map<int, Quantity>, us: Seq<(Price, Quantity)>) -> Map<
    int,
    Quantity,
>
    decreases us.len(),
{
    if us.len() == 0 {
        m
    } else {
        map_apply(map_apply_all(m, us.drop_last()), us.last().0, us.last().1)
    }
}

/// Every entry is in the denoted map.
proof fn lemma_entries_map_contains(s: Seq<(Price, Quantity)>, i: int)
    requires
        0 <= i < s.len(),
        forall|i2: int, j2: int|
            0 <= i2 < j2 < s.len() ==> (#[trigger] s[i2]).0 < (#[trigger] s[j2]).0,
    ensures
        entries_map(s).dom().contains(s[i].0 as int),
        entries_map(s)[s[i].0 as int] == s[i].1,
    decreases s.len(),
{
    if i == s.len() - 1 {
    } else {
        lemma_entries_map_contains(s.drop_last(), i);
        assert(s.drop_last()[i] == s[i]);
        assert(s[i].0 < s.last().0);
    }
}

/// The denoted map's domain is exactly the entries' price set.
proof fn lemma_entries_map_dom(s: Seq<(Price, Quantity)>, p: int)
    requires
        forall|i2: int, j2: int|
            0 <= i2 < j2 < s.len() ==> (#[trigger] s[i2]).0 < (#[trigger] s[j2]).0,
    ensures
        entries_map(s).dom().contains(p) <==> exists|i: int|
            0 <= i < s.len() && (#[trigger] s[i]).0 == p,
    decreases s.len(),
{
    if s.len() > 0 {
        lemma_entries_map_dom(s.drop_last(), p);
        if entries_map(s).dom().contains(p) {
            if p == s.last().0 as int {
                assert(s[s.len() - 1].0 == p);
            } else {
                let i = choose|i: int| 0 <= i < s.drop_last().len() && (#[trigger] s.drop_last()[i]).0 == p;
                assert(s[i].0 == p);
            }
        }
        if exists|i: int| 0 <= i < s.len() && (#[trigger] s[i]).0 == p {
            let i = choose|i: int| 0 <= i < s.len() && (#[trigger] s[i]).0 == p;
            if i < s.len() - 1 {
                assert(s.drop_last()[i] == s[i]);
            }
        }
    }
}

/// Overwriting the entry at `i` denotes a map insert of its price.
proof fn lemma_entries_map_update(s: Seq<(Price, Quantity)>, i: int, q: Quantity)
    requires
        0 <= i < s.len(),
        forall|i2: int, j2: int|
            0 <= i2 < j2 < s.len() ==> (#[trigger] s[i2]).0 < (#[trigger] s[j2]).0,
    ensures
        entries_map(s.update(i, (s[i].0, q))) =~= entries_map(s).insert(s[i].0 as int, q),
    decreases s.len(),
{
    let s2 = s.update(i, (s[i].0, q));
    if i == s.len() - 1 {
        assert(s2.drop_last() =~= s.drop_last());
        assert(s2.last() == (s[i].0, q));
    } else {
        lemma_entries_map_update(s.drop_last(), i, q);
        assert(s2.drop_last() =~= s.drop_last().update(i, (s[i].0, q)));
        assert(s2.last() == s.last());
        assert(s.drop_last()[i] == s[i]);
        assert(s[i].0 < s.last().0);
        assert(entries_map(s2) =~= entries_map(s.drop_last()).insert(s[i].0 as int, q).insert(
            s.last().0 as int,
            s.last().1,
        ));
        assert(entries_map(s).insert(s[i].0 as int, q) =~= entries_map(s.drop_last()).insert(
            s.last().0 as int,
            s.last().1,
        ).insert(s[i].0 as int, q));
    }
}

/// Inserting a fresh entry at `i` denotes a map insert of its price.
proof fn lemma_entries_map_insert(s: Seq<(Price, Quantity)>, i: int, p: Price, q: Quantity)
    requires
        0 <= i <= s.len(),
        forall|i2: int| 0 <= i2 < s.len() ==> (#[trigger] s[i2]).0 != p,
    ensures
        entries_map(s.insert(i, (p, q))) =~= entries_map(s).insert(p as int, q),
    decreases s.len(),
{
    let s2 = s.insert(i, (p, q));
    s.insert_ensures(i, (p, q));
    if i == s.len() {
        assert(s2.drop_last() =~= s);
        assert(s2.last() == (p, q));
    } else {
        lemma_entries_map_insert(s.drop_last(), i, p, q);
        assert(s2.drop_last() =~= s.drop_last().insert(i, (p, q)));
        assert(s2.last() == s.last());
        assert(entries_map(s2) =~= entries_map(s.drop_last()).insert(p as int, q).insert(
            s.last().0 as int,
            s.last().1,
        ));
        assert(s.last().0 != p);
        assert(entries_map(s).insert(p as int, q) =~= entries_map(s.drop_last()).insert(
            s.last().0 as int,
            s.last().1,
        ).insert(p as int, q));
    }
}

/// Removing the entry at `i` denotes a map remove of its price.
proof fn lemma_entries_map_remove(s: Seq<(Price, Quantity)>, i: int)
    requires
        0 <= i < s.len(),
        forall|i2: int, j2: int|
            0 <= i2 < j2 < s.len() ==> (#[trigger] s[i2]).0 < (#[trigger] s[j2]).0,
    ensures
        entries_map(s.remove(i)) =~= entries_map(s).remove(s[i].0 as int),
    decreases s.len(),
{
    let s2 = s.remove(i);
    s.remove_ensures(i);
    if i == s.len() - 1 {
        assert(s2 =~= s.drop_last());
        lemma_entries_map_dom(s.drop_last(), s[i].0 as int);
        assert(forall|i2: int|
            0 <= i2 < s.drop_last().len() ==> (#[trigger] s.drop_last()[i2]).0 != s[i].0);
        assert(entries_map(s.drop_last()) =~= entries_map(s.drop_last()).remove(s[i].0 as int));
    } else {
        lemma_entries_map_remove(s.drop_last(), i);
        assert(s2.drop_last() =~= s.drop_last().remove(i));
        assert(s2.last() == s.last());
        assert(s.drop_last()[i] == s[i]);
        assert(s[i].0 < s.last().0);
        assert(entries_map(s2) =~= entries_map(s.drop_last()).remove(s[i].0 as int).insert(
            s.last().0 as int,
            s.last().1,
        ));
        assert(entries_map(s).remove(s[i].0 as int) =~= entries_map(s.drop_last()).insert(
            s.last().0 as int,
            s.last().1,
        ).remove(s[i].0 as int));
    }
}

/// A price no entry bears is not in the denoted map.
proof fn lemma_entries_map_absent(s: Seq<(Price, Quantity)>, p: Price)
    requires
        forall|i2: int, j2: int|
            0 <= i2 < j2 < s.len() ==> (#[trigger] s[i2]).0 < (#[trigger] s[j2]).0,
        forall|i: int| 0 <= i < s.len() ==> (#[trigger] s[i]).0 != p,
    ensures
        !entries_map(s).dom().contains(p as int),
        entries_map(s).remove(p as int) =~= entries_map(s),
{
    lemma_entries_map_dom(s, p as int);
    if entries_map(s).dom().contains(p as int) {
        let i = choose|i: int| 0 <= i < s.len() && (#[trigger] s[i]).0 == p as int;
    }
}

/// Set one price on a sorted side: overwrite its entry or splice a new one
/// in, keeping the order.
fn upsert_entry(v: &mut Vec<(Price, Quantity)>, p: Price, q: Quantity)
    requires
        entries_wf(old(v)@),
        q > 0,
    ensures
        entries_wf(final(v)@),
        entries_map(final(v)@) == entries_map(old(v)@).insert(p as int, q),
{
    let ghost s = old(v)@;
    let mut pos: usize = 0;
    while pos < v.len() && v[pos].0 < p
        invariant
            pos <= s.len(),
            s == v@,
            entries_wf(s),
            forall|i: int| 0 <= i < pos ==> (#[trigger] s[i]).0 < p,
        decreases s.len() - pos,
    {
        pos = pos + 1;
    }
    if pos < v.len() && v[pos].0 == p {
        v.set(pos, (p, q));
        proof {
            assert(v@ =~= s.update(pos as int, (s[pos as int].0, q)));
            lemma_entries_map_update(s, pos as int, q);
        }
    } else {
        v.insert(pos, (p, q));
        proof {
            assert(forall|i: int| 0 <= i < s.len() ==> (#[trigger] s[i]).0 != p) by {
                assert(forall|i: int|
                    pos <= i < s.len() ==> (#[trigger] s[i]).0 >= s[pos as int].0 || pos as int
                        == i);
            }
            lemma_entries_map_insert(s, pos as int, p, q);
            s.insert_ensures(pos as int, (p, q));
        }
    }
}

/// Clear one price from a sorted side, if present.
fn remove_entry(v: &mut Vec<(Price, Quantity)>, p: Price)
    requires
        entries_wf(old(v)@),
    ensures
        entries_wf(final(v)@),
        entries_map(final(v)@) == entries_map(old(v)@).remove(p as int),
{
    let ghost s = old(v)@;
    let mut pos: usize = 0;
    while pos < v.len() && v[pos].0 < p
        invariant
            pos <= s.len(),
            s == v@,
            entries_wf(s),
            forall|i: int| 0 <= i < pos ==> (#[trigger] s[i]).0 < p,
        decreases s.len() - pos,
    {
        pos = pos + 1;
    }
    if pos < v.len() && v[pos].0 == p {
        v.remove(pos);
        proof {
            lemma_entries_map_remove(s, pos as int);
            s.remove_ensures(pos as int);
        }
    } else {
        proof {
            assert(forall|i: int| 0 <= i < s.len() ==> (#[trigger] s[i]).0 != p) by {
                assert(forall|i: int|
                    pos <= i < s.len() ==> (#[trigger] s[i]).0 >= s[pos as int].0 || pos as int
                        == i);
            }
            lemma_entries_map_absent(s, p);
        }
    }
}

/// Fold one side of a depth message into a sorted side, entry by entry.
fn apply_entries(v: &mut Vec<(Price, Quantity)>, us: &Vec<(Price, Quantity)>)
    requires
        entries_wf(old(v)@),
    ensures
        entries_wf(final(v)@),
        entries_map(final(v)@) == map_apply_all(entries_map(old(v)@), us@),
{
    let ghost m0 = entries_map(old(v)@);
    let mut i: usize = 0;
    while i < us.len()
        invariant
            i <= us@.len(),
            entries_wf(v@),
            entries_map(v@) == map_apply_all(m0, us@.take(i as int)),
        decreases us@.len() - i,
    {
        let (p, q) = us[i];
        proof {
            assert(us@.take(i + 1).drop_last() =~= us@.take(i as int));
            assert(us@.take(i + 1).last() == us@[i as int]);
        }
        if q == 0 {
            remove_entry(v, p);
        } else {
            upsert_entry(v, p, q);
        }
        i = i + 1;
    }
    proof {
        assert(us@.take(us@.len() as int) =~= us@);
    }
}

/// The venue book for one symbol: the two sorted sides and the sequence
/// number of the last depth update folded in.
#[derive(Debug)]
pub struct OrderBook {
    pub symbol: String,
    pub bids: Vec<(Price, Quantity)>,
    pub asks: Vec<(Price, Quantity)>,
    pub last_update_id: u64,
}

impl OrderBook {
    /// No zero-quantity entry; each side strictly sorted by price.
    pub open spec fn inv(&self) -> bool {
        entries_wf(self.bids@) && entries_wf(self.asks@)
    }

    pub open spec fn bids_m(&self) -> Map<int, Quantity> {
        entries_map(self.bids@)
    }

    pub open spec fn asks_m(&self) -> Map<int, Quantity> {
        entries_map(self.asks@)
    }

    pub fn new(symbol: String) -> (b: OrderBook)
        ensures
            b.inv(),
            b.symbol@ == symbol@,
            b.bids@ == Seq::<(Price, Quantity)>::empty(),
            b.asks@ == Seq::<(Price, Quantity)>::empty(),
            b.last_update_id == 0,
    {
        OrderBook { symbol, bids: Vec::new(), asks: Vec::new(), last_update_id: 0 }
    }

    /// Fold in a ticker message: the reported best bid and best ask each
    /// overwrite their price's entry, a zero quantity clearing it. The
    /// ticker stream is authoritative for the top of book and runs
    /// independently of the depth sequence, so `last_update_id` is not
    /// consulted and not advanced.
    pub fn update_book_ticker(&mut self, data: &BookTickerUpdate)
        requires
            old(self).inv(),
        ensures
            final(self).inv(),
            final(self).bids_m() == map_apply(
                old(self).bids_m(),
                data.best_bid_price,
                data.best_bid_quantity,
            ),
            final(self).asks_m() == map_apply(
                old(self).asks_m(),
                data.best_ask_price,
                data.best_ask_quantity,
            ),
            final(self).last_update_id == old(self).last_update_id,
            final(self).symbol == old(self).symbol,
    {
        if data.best_bid_quantity == 0 {
            remove_entry(&mut self.bids, data.best_bid_price);
        } else {
            upsert_entry(&mut self.bids, data.best_bid_price, data.best_bid_quantity);
        }
        if data.best_ask_quantity == 0 {
            remove_entry(&mut self.asks, data.best_ask_price);
        } else {
            upsert_entry(&mut self.asks, data.best_ask_price, data.best_ask_quantity);
        }
    }

    /// Fold in a depth message. One with a sequence at or below the last
    /// applied one is dropped whole, leaving the book untouched; a fresh
    /// one has each level upserted — or removed, on a zero quantity — and
    /// advances `last_update_id` to its sequence.
    pub fn update_depth(&mut self, data: &DepthUpdate) -> (r: DepthOutcome)
        requires
            old(self).inv(),
        ensures
            final(self).inv(),
            final(self).symbol == old(self).symbol,
            final(self).last_update_id >= old(self).last_update_id,
            data.last_update_id <= old(self).last_update_id ==> r == DepthOutcome::Stale
                && final(self).bids@ == old(self).bids@ && final(self).asks@ == old(self).asks@
                && final(self).last_update_id == old(self).last_update_id,
            data.last_update_id > old(self).last_update_id ==> r == DepthOutcome::Applied
                && final(self).bids_m() == map_apply_all(old(self).bids_m(), data.bids@)
                && final(self).asks_m() == map_apply_all(old(self).asks_m(), data.asks@)
                && final(self).last_update_id == data.last_update_id,
            final(self).venue_v() == spec_apply_depth(old(self).venue_v(), data@),
    {
        if data.last_update_id <= self.last_update_id {
            return DepthOutcome::Stale;
        }
        apply_entries(&mut self.bids, &data.bids);
        apply_entries(&mut self.asks, &data.asks);
        self.last_update_id = data.last_update_id;
        DepthOutcome::Applied
    }

    /// The best (highest) bid and best (lowest) ask with their quantities,
    /// when both sides are occupied.
    pub fn get_best_bid_ask(&self) -> (r: Option<((Price, Quantity), (Price, Quantity))>)
        requires
            self.inv(),
        ensures
            match r {
                Some(pair) => self.bids@.len() > 0 && self.asks@.len() > 0 && pair.0
                    == self.bids@.last() && pair.1 == self.asks@[0] && (forall|p: int|
                    self.bids_m().dom().contains(p) ==> p <= pair.0.0) && (forall|p: int|
                    self.asks_m().dom().contains(p) ==> p >= pair.1.0),
                None => self.bids@.len() == 0 || self.asks@.len() == 0,
            },
    {
        if self.bids.len() > 0 && self.asks.len() > 0 {
            let bb = self.bids[self.bids.len() - 1];
            let ba = self.asks[0];
            proof {
                assert forall|p: int| self.bids_m().dom().contains(p) implies p
                    <= self.bids@.last().0 by {
                    lemma_entries_map_dom(self.bids@, p);
                    let i = choose|i: int|
                        0 <= i < self.bids@.len() && (#[trigger] self.bids@[i]).0 == p;
                }
                assert forall|p: int| self.asks_m().dom().contains(p) implies p
                    >= self.asks@[0].0 by {
                    lemma_entries_map_dom(self.asks@, p);
                    let i = choose|i: int|
                        0 <= i < self.asks@.len() && (#[trigger] self.asks@[i]).0 == p;
                }
            }
            Some((bb, ba))
        } else {
            None
        }
    }

    /// The quantity a side's denoted map holds at a price, zero if absent.
    pub open spec fn spec_volume(m: Map<int, Quantity>, p: Price) -> int {
        if m.dom().contains(p as int) {
            m[p as int] as int
        } else {
            0
        }
    }

    /// Total published quantity at a price, both sides counted; a missing
    /// entry counts as zero. A price normally rests on one side only, but
    /// the two feeds are independent, so both are consulted.
    pub fn get_volume_at_price(&self, price: Price) -> (q: Quantity)
        requires
            self.inv(),
            Self::spec_volume(self.bids_m(), price) + Self::spec_volume(self.asks_m(), price)
                <= u64::MAX,
        ensures
            q == Self::spec_volume(self.bids_m(), price) + Self::spec_volume(
                self.asks_m(),
                price,
            ),
    {
        let qb = side_volume(&self.bids, price);
        let qa = side_volume(&self.asks, price);
        qb + qa
    }
}

/// The whole state a depth stream acts on.
pub struct VenueView {
    pub bids: Map<int, Quantity>,
    pub asks: Map<int, Quantity>,
    pub last_update_id: int,
}

/// One depth message, at the spec level.
pub struct DepthView {
    pub last_update_id: int,
    pub bids: Seq<(Price, Quantity)>,
    pub asks: Seq<(Price, Quantity)>,
}

impl View for DepthUpdate {
    type V = DepthView;

    open spec fn view(&self) -> DepthView {
        DepthView {
            last_update_id: self.last_update_id as int,
            bids: self.bids@,
            asks: self.asks@,
        }
    }
}

impl OrderBook {
    pub open spec fn venue_v(&self) -> VenueView {
        VenueView {
            bids: self.bids_m(),
            asks: self.asks_m(),
            last_update_id: self.last_update_id as int,
        }
    }
}

/// What one depth message does to the state: nothing when stale, else both
/// sides folded in and the sequence advanced.
pub open spec fn spec_apply_depth(v: VenueView, u: DepthView) -> VenueView {
    if u.last_update_id <= v.last_update_id {
        v
    } else {
        VenueView {
            bids: map_apply_all(v.bids, u.bids),
            asks: map_apply_all(v.asks, u.asks),
            last_update_id: u.last_update_id,
        }
    }
}

/// A stream of depth messages folded in, first message first.
pub open spec fn apply_depth_seq(v: VenueView, us: Seq<DepthView>) -> VenueView
    decreases us.len(),
{
    if us.len() == 0 {
        v
    } else {
        apply_depth_seq(spec_apply_depth(v, us[0]), us.drop_first())
    }
}

/// The subsequence of messages that are fresh when their turn comes: each
/// exceeds every sequence applied before it.
pub open spec fn fresh_only(last: int, us: Seq<DepthView>) -> Seq<DepthView>
    decreases us.len(),
{
    if us.len() == 0 {
        us
    } else if us[0].last_update_id <= last {
        fresh_only(last, us.drop_first())
    } else {
        seq![us[0]] + fresh_only(us[0].last_update_id, us.drop_first())
    }
}

/// A depth stream applied in the order received leaves the same state as
/// applying only the messages whose sequence exceeds the highest one
/// applied before them: stale messages are idempotently dropped.
pub proof fn lemma_apply_depth_order(v: VenueView, us: Seq<DepthView>)
    ensures
        apply_depth_seq(v, us) == apply_depth_seq(v, fresh_only(v.last_update_id, us)),
    decreases us.len(),
{
    if us.len() > 0 {
        if us[0].last_update_id <= v.last_update_id {
            assert(spec_apply_depth(v, us[0]) == v);
            lemma_apply_depth_order(v, us.drop_first());
        } else {
            let v2 = spec_apply_depth(v, us[0]);
            lemma_apply_depth_order(v2, us.drop_first());
            let f = seq![us[0]] + fresh_only(us[0].last_update_id, us.drop_first());
            assert(f[0] == us[0]);
            assert(f.drop_first() =~= fresh_only(us[0].last_update_id, us.drop_first()));
            assert(v2.last_update_id == us[0].last_update_id);
        }
    }
}

/// The quantity one sorted side holds at a price, zero if absent.
fn side_volume(v: &Vec<(Price, Quantity)>, price: Price) -> (q: Quantity)
    requires
        entries_wf(v@),
    ensures
        q == OrderBook::spec_volume(entries_map(v@), price),
{
    let mut i: usize = 0;
    while i < v.len()
        invariant
            i <= v@.len(),
            entries_wf(v@),
            forall|m: int| 0 <= m < i ==> (#[trigger] v@[m]).0 != price,
        decreases v@.len() - i,
    {
        if v[i].0 == price {
            proof {
                lemma_entries_map_contains(v@, i as int);
            }
            return v[i].1;
        }
        i = i + 1;
    }
    proof {
        lemma_entries_map_absent(v@, price);
    }
    0
}

} // verus!
