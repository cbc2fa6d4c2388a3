//! A limit order book with price-time priority.
use std::collections::HashMap;
use std::collections::VecDeque;

use vstd::prelude::*;

use crate::ladder::{
    best_price, better, ladder_find, ladder_insert, ladder_remove, ladder_wf, lemma_insert_find,
    lemma_insert_wf, lemma_remove_find, lemma_remove_wf, opposite, queue_find, queue_remove, sweep,
    can_match, crosses, ladder_after_fill, front_trade, level_wf, sat_sub, lemma_insert_front,
    lemma_insert_remove, lemma_sweep_bounded, lemma_sweep_stops, lemma_remove_front, no_better,
    ladder_qty, lemma_insert_qty, level_at, lemma_insert_appends, lemma_sweep_qty, traded_qty, lemma_after_fill_wf, found_qty,
    lemma_remove_qty, LevelView, Sweep,
};
use crate::index::{
    id_only_at, id_other, indexed_at, ladder_all, ladder_distinct, lemma_all_combine,
    lemma_all_weaken, lemma_find_resting, lemma_insert_all, lemma_insert_distinct, lemma_remove_all,
    lemma_remove_distinct, lemma_sweep_indexed,
};
use crate::types::{Order, OrderId, Price, Qty, Side, Trade};

verus! {

broadcast use vstd::std_specs::hash::group_hash_axioms;

/// Where a resting order can be found by its identity.
pub open spec fn locs_valid(locs: Map<u64, (Price, Side)>, side: Side, l: Seq<LevelView>) -> bool {
    forall|id: u64|
        #[trigger] locs.contains_key(id) && locs[id].1 == side ==> ladder_find(
            l,
            locs[id].0.0,
            id,
        ) is Some
}

/// The mathematical model of the book.
pub ghost struct BookView {
    /// Bid levels, highest price first.
    pub bids: Seq<LevelView>,
    /// Ask levels, lowest price first.
    pub asks: Seq<LevelView>,
    /// For each tracked order identity, the price and side of its level.
    pub locations: Map<u64, (Price, Side)>,
}

impl BookView {
    pub open spec fn ladder(self, side: Side) -> Seq<LevelView> {
        match side {
            Side::Buy => self.bids,
            Side::Sell => self.asks,
        }
    }

    pub open spec fn with_ladder(self, side: Side, l: Seq<LevelView>) -> BookView {
        match side {
            Side::Buy => BookView { bids: l, ..self },
            Side::Sell => BookView { asks: l, ..self },
        }
    }

    pub open spec fn wf(self) -> bool {
        &&& ladder_wf(Side::Buy, self.bids)
        &&& ladder_wf(Side::Sell, self.asks)
        &&& locs_valid(self.locations, Side::Buy, self.bids)
        &&& locs_valid(self.locations, Side::Sell, self.asks)
    }

    /// The book after `o` rests at the back of the queue at its price and side.
    pub open spec fn add(self, o: Order) -> BookView {
        BookView {
            locations: self.locations.insert(o.id.0, (o.price, o.side)),
            ..self.with_ladder(o.side, ladder_insert(self.ladder(o.side), o))
        }
    }

    /// The order that a cancel of `id` takes out, if any.
    pub open spec fn canceled(self, id: u64) -> Option<Order> {
        if self.locations.contains_key(id) {
            let (p, s) = self.locations[id];
            ladder_find(self.ladder(s), p.0, id)
        } else {
            None
        }
    }

    /// The book after a cancel of `id`.
    pub open spec fn cancel(self, id: u64) -> BookView {
        if self.locations.contains_key(id) {
            let (p, s) = self.locations[id];
            BookView {
                locations: self.locations.remove(id),
                ..self.with_ladder(s, ladder_remove(self.ladder(s), p.0, id))
            }
        } else {
            self
        }
    }

    /// The sweep of `taker`, matching in direction `dir`, over the opposite ladder.
    pub open spec fn sweep_of(self, dir: Side, taker: Order) -> Sweep {
        sweep(self.ladder(opposite(dir)), dir, taker)
    }

    /// The book after the sweep of `taker`, before anything of it rests.
    pub open spec fn swept(self, dir: Side, taker: Order) -> BookView {
        let s = self.sweep_of(dir, taker);
        BookView {
            locations: self.locations.remove_keys(s.filled),
            ..self.with_ladder(opposite(dir), s.ladder)
        }
    }

    /// The book after `taker` is matched in direction `dir` and what is left of
    /// it rests.
    pub open spec fn matched(self, dir: Side, taker: Order) -> BookView {
        let s = self.sweep_of(dir, taker);
        let swept = self.swept(dir, taker);
        if s.remaining > 0 {
            swept.add(Order { qty: Qty(s.remaining), ..taker })
        } else {
            swept
        }
    }

    /// Total quantity resting on the book.
    pub open spec fn resting_qty(self) -> int {
        ladder_qty(self.bids) + ladder_qty(self.asks)
    }

    /// The full invariant of a book built by rests of fresh identities, cancels
    /// and matching: well formed; every resting order has quantity left and is
    /// indexed under its identity at its price and side; no level holds an
    /// identity twice. With the index a function, identities are then distinct
    /// across the whole book, and every resting order can be canceled.
    pub open spec fn indexed(self) -> bool {
        &&& self.wf()
        &&& ladder_all(self.bids, indexed_at(self.locations, Side::Buy))
        &&& ladder_all(self.asks, indexed_at(self.locations, Side::Sell))
        &&& ladder_distinct(self.bids)
        &&& ladder_distinct(self.asks)
    }

    /// The book is not crossed: the best bid is below the best ask.
    pub open spec fn uncrossed(self) -> bool {
        self.bids.len() > 0 && self.asks.len() > 0 ==> self.bids[0].price < self.asks[0].price
    }
}

/// Resting an order keeps the book well formed.
pub proof fn lemma_add_wf(b: BookView, o: Order)
    requires
        b.wf(),
    ensures
        b.add(o).wf(),
{
    let r = b.add(o);
    lemma_insert_wf(b.ladder(o.side), o);
    assert forall|id: u64|
        #[trigger] r.locations.contains_key(id) implies ladder_find(
        r.ladder(r.locations[id].1),
        r.locations[id].0.0,
        id,
    ) is Some by {
        lemma_insert_find(b.ladder(o.side), o, r.locations[id].0.0, id);
        if id != o.id.0 {
            assert(b.locations.contains_key(id));
        }
    }
}

/// Canceling keeps the book well formed, and succeeds on every tracked identity.
pub proof fn lemma_cancel_wf(b: BookView, id: u64)
    requires
        b.wf(),
    ensures
        b.cancel(id).wf(),
        b.canceled(id) is Some <==> b.locations.contains_key(id),
{
    if b.locations.contains_key(id) {
        let (p, s) = b.locations[id];
        let r = b.cancel(id);
        lemma_remove_wf(s, b.ladder(s), p.0, id);
        assert forall|id2: u64|
            #[trigger] r.locations.contains_key(id2) implies ladder_find(
            r.ladder(r.locations[id2].1),
            r.locations[id2].0.0,
            id2,
        ) is Some by {
            assert(b.locations.contains_key(id2));
            if r.locations[id2].1 == s {
                lemma_remove_find(b.ladder(s), p.0, id, r.locations[id2].0.0, id2);
            }
        }
    }
}

/// Submitting an order never leaves the book crossed when it was not: what
/// rests of the taker is beyond the best opposite price that remains.
pub proof fn lemma_submit_keeps_uncrossed(b: BookView, taker: Order)
    requires
        b.wf(),
        b.uncrossed(),
    ensures
        b.matched(taker.side, taker).uncrossed(),
{
    let dir = taker.side;
    let side = opposite(dir);
    let l = b.ladder(side);
    let s = b.sweep_of(dir, taker);
    lemma_sweep_stops(side, l, dir, taker);
    if l.len() > 0 {
        assert forall|k: int| 0 <= k < l.len() implies no_better(side, l[0].price, #[trigger] l[k].price) by {
            if k > 0 {
                assert(better(side, l[0].price, l[k].price));
            }
        }
        lemma_sweep_bounded(side, l, dir, taker, l[0].price);
    }
    if s.remaining > 0 {
        let rest = Order { qty: Qty(s.remaining), ..taker };
        lemma_insert_front(b.ladder(dir), rest);
    }
    if s.ladder.len() > 0 {
        assert(no_better(side, l[0].price, s.ladder[0].price));
    }
}

/// Matching conserves quantity: the book afterwards holds what it held, less
/// what traded, plus what rests of the taker.
pub proof fn lemma_matched_qty(b: BookView, dir: Side, taker: Order)
    ensures
        b.matched(dir, taker).resting_qty() == b.resting_qty() - traded_qty(
            b.sweep_of(dir, taker).trades,
        ) + b.sweep_of(dir, taker).remaining,
{
    let s = b.sweep_of(dir, taker);
    lemma_sweep_qty(b.ladder(opposite(dir)), dir, taker);
    let rest = Order { qty: Qty(s.remaining), ..taker };
    let swept = BookView {
        locations: b.locations.remove_keys(s.filled),
        ..b.with_ladder(opposite(dir), s.ladder)
    };
    lemma_insert_qty(swept.ladder(taker.side), rest);
}

/// A cancel takes exactly the canceled order's quantity off the book.
pub proof fn lemma_cancel_qty(b: BookView, id: u64)
    ensures
        b.cancel(id).resting_qty() == b.resting_qty() - found_qty(b.canceled(id)),
{
    if b.locations.contains_key(id) {
        let (p, s) = b.locations[id];
        lemma_remove_qty(b.ladder(s), p.0, id);
    }
}

/// Canceling never leaves the book crossed when it was not.
pub proof fn lemma_cancel_keeps_uncrossed(b: BookView, id: u64)
    requires
        b.wf(),
        b.uncrossed(),
    ensures
        b.cancel(id).uncrossed(),
{
    if b.locations.contains_key(id) {
        let (p, s) = b.locations[id];
        lemma_remove_front(s, b.ladder(s), p.0, id);
    }
}

/// No two resting orders of a fully indexed book share an identity.
pub proof fn lemma_indexed_ids_distinct(
    b: BookView,
    s1: Side,
    i1: int,
    k1: int,
    s2: Side,
    i2: int,
    k2: int,
)
    requires
        b.indexed(),
        0 <= i1 < b.ladder(s1).len(),
        0 <= k1 < b.ladder(s1)[i1].orders.len(),
        0 <= i2 < b.ladder(s2).len(),
        0 <= k2 < b.ladder(s2)[i2].orders.len(),
        b.ladder(s1)[i1].orders[k1].id == b.ladder(s2)[i2].orders[k2].id,
    ensures
        s1 == s2 && i1 == i2 && k1 == k2,
{
    let l1 = b.ladder(s1);
    let l2 = b.ladder(s2);
    assert(ladder_all(l1, indexed_at(b.locations, s1)));
    assert(ladder_all(l2, indexed_at(b.locations, s2)));
    assert(indexed_at(b.locations, s1)(l1[i1].price, l1[i1].orders[k1]));
    assert(indexed_at(b.locations, s2)(l2[i2].price, l2[i2].orders[k2]));
    if i1 != i2 {
        if i1 < i2 {
            assert(better(s1, l1[i1].price, l1[i2].price));
        } else {
            assert(better(s1, l1[i2].price, l1[i1].price));
        }
    }
    assert(ladder_distinct(l1));
    assert(crate::index::queue_distinct(l1[i1].orders));
    if k1 < k2 {
        assert(l1[i1].orders[k1].id != l1[i1].orders[k2].id);
    } else if k2 < k1 {
        assert(l1[i1].orders[k2].id != l1[i1].orders[k1].id);
    }
}

/// In a fully indexed book every resting order can be canceled: its identity
/// is indexed, and a cancel of it takes out exactly that order.
pub proof fn lemma_resting_can_be_canceled(b: BookView, side: Side, i: int, k: int)
    requires
        b.indexed(),
        0 <= i < b.ladder(side).len(),
        0 <= k < b.ladder(side)[i].orders.len(),
    ensures
        b.locations.contains_key(b.ladder(side)[i].orders[k].id.0),
        b.canceled(b.ladder(side)[i].orders[k].id.0) == Some(b.ladder(side)[i].orders[k]),
{
    let l = b.ladder(side);
    assert(ladder_all(l, indexed_at(b.locations, side)));
    assert(indexed_at(b.locations, side)(l[i].price, l[i].orders[k]));
    assert(ladder_distinct(l));
    assert(ladder_wf(side, l));
    lemma_find_resting(side, l, i, k);
}

/// Resting an order of a fresh identity and with quantity keeps the book fully
/// indexed.
pub proof fn lemma_add_keeps_indexed(b: BookView, o: Order)
    requires
        b.indexed(),
        !b.locations.contains_key(o.id.0),
        o.qty.0 > 0,
    ensures
        b.add(o).indexed(),
{
    let r = b.add(o);
    let locs = b.locations;
    let locs2 = r.locations;
    lemma_add_wf(b, o);
    let s = o.side;
    let other = opposite(s);
    assert(ladder_all(b.ladder(s), indexed_at(locs, s)));
    assert(ladder_all(b.ladder(other), indexed_at(locs, other)));
    assert(ladder_distinct(b.ladder(s)));
    assert(ladder_distinct(b.ladder(other)));
    assert forall|p: i64, x: Order| #[trigger] indexed_at(locs, s)(p, x) implies indexed_at(locs2, s)(p, x) && id_other(o.id.0)(p, x) by {}
    assert forall|p: i64, x: Order| #[trigger] indexed_at(locs, other)(p, x) implies indexed_at(locs2, other)(p, x) by {}
    lemma_all_weaken(b.ladder(s), indexed_at(locs, s), indexed_at(locs2, s));
    lemma_all_weaken(b.ladder(s), indexed_at(locs, s), id_other(o.id.0));
    lemma_all_weaken(b.ladder(other), indexed_at(locs, other), indexed_at(locs2, other));
    assert(indexed_at(locs2, s)(o.price.0, o));
    lemma_insert_all(b.ladder(s), o, indexed_at(locs2, s));
    lemma_insert_distinct(b.ladder(s), o);
    assert(r.ladder(s) == ladder_insert(b.ladder(s), o));
    assert(r.ladder(other) == b.ladder(other));
}

/// A cancel keeps the book fully indexed.
pub proof fn lemma_cancel_keeps_indexed(b: BookView, id: u64)
    requires
        b.indexed(),
    ensures
        b.cancel(id).indexed(),
{
    lemma_cancel_wf(b, id);
    if b.locations.contains_key(id) {
        let (p, s) = b.locations[id];
        let other = opposite(s);
        let locs = b.locations;
        let locs2 = locs.remove(id);
        let r = b.cancel(id);
        let l = b.ladder(s);
        assert(ladder_all(l, indexed_at(locs, s)));
        assert(ladder_all(b.ladder(other), indexed_at(locs, other)));
        assert(ladder_distinct(l));
        assert(ladder_distinct(b.ladder(other)));
        assert forall|q: i64, x: Order| #[trigger] indexed_at(locs, s)(q, x) implies id_only_at(id, p.0)(q, x) by {}
        lemma_all_weaken(l, indexed_at(locs, s), id_only_at(id, p.0));
        lemma_remove_distinct(s, l, p.0, id);
        lemma_remove_all(l, p.0, id, indexed_at(locs, s));
        let rl = ladder_remove(l, p.0, id);
        assert forall|q: i64, x: Order| #[trigger] indexed_at(locs, s)(q, x) && id_other(id)(q, x) implies indexed_at(locs2, s)(q, x) by {}
        lemma_all_combine(rl, indexed_at(locs, s), id_other(id), indexed_at(locs2, s));
        assert forall|q: i64, x: Order| #[trigger] indexed_at(locs, other)(q, x) implies indexed_at(locs2, other)(q, x) by {}
        lemma_all_weaken(b.ladder(other), indexed_at(locs, other), indexed_at(locs2, other));
        assert(r.ladder(s) == rl);
        assert(r.ladder(other) == b.ladder(other));
    }
}

/// A sweep keeps every tracked identity findable.
proof fn lemma_sweep_locs_valid(
    side: Side,
    l: Seq<LevelView>,
    dir: Side,
    t: Order,
    locs: Map<u64, (Price, Side)>,
)
    requires
        ladder_wf(side, l),
        locs_valid(locs, side, l),
    ensures
        locs_valid(locs.remove_keys(sweep(l, dir, t).filled), side, sweep(l, dir, t).ladder),
    decreases l.len(), (if l.len() > 0 {
        l[0].orders.len()
    } else {
        0
    }), t.qty.0,
{
    let s = sweep(l, dir, t);
    if can_match(l, dir, t) {
        let m = l[0].orders[0];
        let next_taker = Order { qty: Qty(sat_sub(t.qty.0, m.qty.0)), ..t };
        let after = ladder_after_fill(l, t);
        let left = sat_sub(m.qty.0, t.qty.0);
        let loc2 = if left > 0 {
            locs
        } else {
            locs.remove(m.id.0)
        };
        lemma_fill_wf(side, l, dir, t, locs);
        lemma_sweep_locs_valid(side, after, dir, next_taker, loc2);
        let rest = sweep(after, dir, next_taker);
        if left == 0 {
            assert(locs.remove_keys(s.filled) =~= loc2.remove_keys(rest.filled));
        }
    } else {
        assert(locs.remove_keys(s.filled) =~= locs);
    }
}

/// Matching keeps the book well formed.
pub proof fn lemma_matched_wf(b: BookView, dir: Side, t: Order)
    requires
        b.wf(),
    ensures
        b.matched(dir, t).wf(),
{
    let side = opposite(dir);
    let l = b.ladder(side);
    let locs = b.locations;
    let s = b.sweep_of(dir, t);
    let swept = BookView {
        locations: locs.remove_keys(s.filled),
        ..b.with_ladder(side, s.ladder)
    };
    lemma_sweep_stops(side, l, dir, t);
    lemma_sweep_locs_valid(side, l, dir, t, locs);
    lemma_locs_valid_remove_keys(locs, dir, b.ladder(dir), s.filled);
    assert(swept.ladder(side) == s.ladder);
    assert(swept.ladder(dir) == b.ladder(dir));
    assert(swept.wf());
    if s.remaining > 0 {
        lemma_add_wf(swept, Order { qty: Qty(s.remaining), ..t });
    }
}

/// Matching a taker of a fresh identity keeps the book fully indexed: filled
/// makers leave the index, emptied levels go, and what rests of the taker is
/// indexed.
pub proof fn lemma_matched_keeps_indexed(b: BookView, dir: Side, t: Order)
    requires
        b.indexed(),
        !b.locations.contains_key(t.id.0),
    ensures
        b.matched(dir, t).indexed(),
{
    let s = b.sweep_of(dir, t);
    lemma_swept_indexed(b, dir, t);
    if s.remaining > 0 {
        lemma_add_keeps_indexed(b.swept(dir, t), Order { qty: Qty(s.remaining), ..t });
    }
}

/// The sweep alone keeps the book fully indexed.
proof fn lemma_swept_indexed(b: BookView, dir: Side, t: Order)
    requires
        b.indexed(),
    ensures
        b.swept(dir, t).indexed(),
        b.swept(dir, t).locations.dom().subset_of(b.locations.dom()),
{
    let side = opposite(dir);
    let l = b.ladder(side);
    let locs = b.locations;
    let s = b.sweep_of(dir, t);
    let locs2 = locs.remove_keys(s.filled);
    let swept = b.swept(dir, t);
    assert(ladder_all(l, indexed_at(locs, side)));
    assert(ladder_all(b.ladder(dir), indexed_at(locs, dir)));
    assert(ladder_distinct(l));
    assert(ladder_distinct(b.ladder(dir)));
    lemma_sweep_indexed(side, l, dir, t, locs);
    lemma_sweep_stops(side, l, dir, t);
    lemma_sweep_locs_valid(side, l, dir, t, locs);
    lemma_locs_valid_remove_keys(locs, dir, b.ladder(dir), s.filled);
    assert forall|q: i64, x: Order| #[trigger] indexed_at(locs, dir)(q, x) implies indexed_at(locs2, dir)(q, x) by {
        if s.filled.contains(x.id.0) {
            assert(locs[x.id.0].1 == side);
        }
    }
    lemma_all_weaken(b.ladder(dir), indexed_at(locs, dir), indexed_at(locs2, dir));
    assert(swept.ladder(side) == s.ladder);
    assert(swept.ladder(dir) == b.ladder(dir));
    assert(swept.indexed());
}

/// What is left of a taker of fresh identity rests as the taker itself, at its
/// own limit price and on its own side, with the quantity that did not trade;
/// when all of it traded, nothing of it is tracked.
pub proof fn lemma_matched_rests_taker(b: BookView, dir: Side, t: Order)
    requires
        b.indexed(),
        !b.locations.contains_key(t.id.0),
    ensures
        ({
            let after = b.matched(dir, t);
            let r = t.qty.0 - traded_qty(b.sweep_of(dir, t).trades);
            &&& r > 0 ==> ladder_find(after.ladder(t.side), t.price.0, t.id.0) == Some(
                Order { qty: Qty(r as u64), ..t },
            )
            &&& r > 0 ==> after.locations.contains_key(t.id.0) && after.locations[t.id.0] == (
            t.price,
            t.side,
            )
            &&& r <= 0 ==> !after.locations.contains_key(t.id.0)
        }),
{
    let s = b.sweep_of(dir, t);
    let swept = b.swept(dir, t);
    crate::ladder::lemma_sweep_accounting(b.ladder(opposite(dir)), dir, t);
    lemma_swept_indexed(b, dir, t);
    assert(!swept.locations.contains_key(t.id.0));
    if s.remaining > 0 {
        let rest = Order { qty: Qty(s.remaining), ..t };
        let l = swept.ladder(t.side);
        assert(ladder_all(l, indexed_at(swept.locations, t.side)));
        if ladder_find(l, t.price.0, t.id.0) is Some {
            crate::index::lemma_find_all(l, t.price.0, t.id.0, indexed_at(swept.locations, t.side));
        }
        assert(ladder_wf(t.side, l));
        lemma_insert_remove(l, rest);
    }
}

/// Resting an order puts it at the back of the queue at its price on its side
/// (or opens that level with it alone), leaves every other queue and the other
/// side as they were, and indexes it at its price and side.
pub proof fn lemma_add_appends(b: BookView, o: Order)
    requires
        b.wf(),
    ensures
        level_at(b.add(o).ladder(o.side), o.price.0) == Some(
            match level_at(b.ladder(o.side), o.price.0) {
                Some(q) => q.push(o),
                None => seq![o],
            },
        ),
        forall|p: i64|
            p != o.price.0 ==> #[trigger] level_at(b.add(o).ladder(o.side), p) == level_at(
                b.ladder(o.side),
                p,
            ),
        b.add(o).ladder(opposite(o.side)) == b.ladder(opposite(o.side)),
        b.add(o).locations[o.id.0] == (o.price, o.side),
{
    lemma_insert_appends(b.ladder(o.side), o);
}

/// Canceling an order just rested, whose identity the book neither tracked nor
/// held at that price, returns it and gives back the book as it was.
pub proof fn lemma_add_then_cancel(b: BookView, o: Order)
    requires
        b.wf(),
        !b.locations.contains_key(o.id.0),
        ladder_find(b.ladder(o.side), o.price.0, o.id.0) is None,
    ensures
        b.add(o).canceled(o.id.0) == Some(o),
        b.add(o).cancel(o.id.0) == b,
{
    lemma_insert_remove(b.ladder(o.side), o);
    assert(b.add(o).locations.remove(o.id.0) =~= b.locations);
}

/// One price level of the book.
struct Level {
    price: Price,
    orders: VecDeque<Order>,
}

impl View for Level {
    type V = LevelView;

    closed spec fn view(&self) -> LevelView {
        LevelView { price: self.price.0, orders: self.orders@ }
    }
}

spec fn ladder_view(v: Seq<Level>) -> Seq<LevelView> {
    Seq::new(v.len(), |i: int| v[i]@)
}

fn better_exec(side: Side, a: i64, b: i64) -> (r: bool)
    ensures
        r == better(side, a, b),
{
    match side {
        Side::Buy => a > b,
        Side::Sell => a < b,
    }
}

/// The order book: bids and asks, each a ladder of price levels with FIFO
/// queues, and an index from order identity to price and side.
pub struct OrderBook {
    bids: Vec<Level>,
    asks: Vec<Level>,
    locations: HashMap<u64, (Price, Side)>,
}

impl View for OrderBook {
    type V = BookView;

    closed spec fn view(&self) -> BookView {
        BookView {
            bids: ladder_view(self.bids@),
            asks: ladder_view(self.asks@),
            locations: self.locations@,
        }
    }
}

proof fn lemma_insert_step(l: Seq<LevelView>, o: Order, i: int)
    requires
        0 <= i < l.len(),
        better(o.side, l[i].price, o.price.0),
    ensures
        ladder_insert(l.skip(i), o) == seq![l[i]] + ladder_insert(l.skip(i + 1), o),
{
    assert(l.skip(i).drop_first() =~= l.skip(i + 1));
}

/// Adds `o` to the back of its level in ladder `levels`.
fn insert_level(levels: &mut Vec<Level>, o: Order)
    ensures
        ladder_view(final(levels)@) == ladder_insert(ladder_view(old(levels)@), o),
{
    let ghost l = ladder_view(levels@);
    let mut i: usize = 0;
    proof {
        assert(l.take(0) + l.skip(0) =~= l);
        assert(l.skip(0) =~= l);
        assert(l.take(0) + ladder_insert(l, o) =~= ladder_insert(l, o));
    }
    while i < levels.len() && better_exec(o.side, levels[i].price.0, o.price.0)
        invariant
            i <= levels.len(),
            l == ladder_view(levels@),
            ladder_insert(l, o) == l.take(i as int) + ladder_insert(l.skip(i as int), o),
        decreases levels.len() - i,
    {
        proof {
            lemma_insert_step(l, o, i as int);
            assert(l.take(i as int + 1) =~= l.take(i as int).push(l[i as int]));
        }
        i = i + 1;
    }
    if i < levels.len() && levels[i].price.0 == o.price.0 {
        levels[i].orders.push_back(o);
        proof {
            assert(l.skip(i as int)[0] == l[i as int]);
            assert(ladder_view(levels@) =~= l.update(
                i as int,
                LevelView { price: l[i as int].price, orders: l[i as int].orders.push(o) },
            ));
            assert(l.take(i as int) + l.skip(i as int).update(
                0,
                LevelView { price: l[i as int].price, orders: l[i as int].orders.push(o) },
            ) =~= ladder_view(levels@));
        }
    } else {
        let mut q: VecDeque<Order> = VecDeque::new();
        q.push_back(o);
        let lv = Level { price: o.price, orders: q };
        levels.insert(i, lv);
        proof {
            let nl = LevelView { price: o.price.0, orders: seq![o] };
            assert(lv@ == nl);
            if i < l.len() {
                assert(l.skip(i as int)[0] == l[i as int]);
            }
            assert(ladder_view(levels@) =~= l.insert(i as int, nl));
            assert(l.take(i as int) + (seq![nl] + l.skip(i as int)) =~= l.insert(i as int, nl));
        }
    }
}

proof fn lemma_remove_level_step(l: Seq<LevelView>, p: i64, id: u64, i: int)
    requires
        0 <= i < l.len(),
        l[i].price != p,
    ensures
        ladder_remove(l.skip(i), p, id) == seq![l[i]] + ladder_remove(l.skip(i + 1), p, id),
        ladder_find(l.skip(i), p, id) == ladder_find(l.skip(i + 1), p, id),
{
    assert(l.skip(i).drop_first() =~= l.skip(i + 1));
}

proof fn lemma_remove_queue_step(q: Seq<Order>, id: u64, i: int)
    requires
        0 <= i < q.len(),
        q[i].id.0 != id,
    ensures
        queue_remove(q.skip(i), id) == seq![q[i]] + queue_remove(q.skip(i + 1), id),
        queue_find(q.skip(i), id) == queue_find(q.skip(i + 1), id),
{
    assert(q.skip(i).drop_first() =~= q.skip(i + 1));
}

/// Takes the oldest order of identity `id` out of the level at `price`.
fn remove_from_ladder(levels: &mut Vec<Level>, side: Side, price: Price, id: OrderId) -> (r: Option<
    Order,
>)
    requires
        ladder_wf(side, ladder_view(old(levels)@)),
    ensures
        ladder_view(final(levels)@) == ladder_remove(ladder_view(old(levels)@), price.0, id.0),
        r == ladder_find(ladder_view(old(levels)@), price.0, id.0),
{
    let ghost l = ladder_view(levels@);
    let mut i: usize = 0;
    proof {
        assert(l.skip(0) =~= l);
        assert(l.take(0) + ladder_remove(l, price.0, id.0) =~= ladder_remove(l, price.0, id.0));
    }
    while i < levels.len() && levels[i].price.0 != price.0
        invariant
            i <= levels.len(),
            l == ladder_view(levels@),
            ladder_remove(l, price.0, id.0) == l.take(i as int) + ladder_remove(
                l.skip(i as int),
                price.0,
                id.0,
            ),
            ladder_find(l, price.0, id.0) == ladder_find(l.skip(i as int), price.0, id.0),
        decreases levels.len() - i,
    {
        proof {
            lemma_remove_level_step(l, price.0, id.0, i as int);
            assert(l.take(i as int + 1) =~= l.take(i as int).push(l[i as int]));
        }
        i = i + 1;
    }
    if i == levels.len() {
        proof {
            assert(l.take(i as int) + l.skip(i as int) =~= l);
        }
        return None;
    }
    let ghost q = l[i as int].orders;
    proof {
        assert(l.skip(i as int)[0] == l[i as int]);
        assert(q == levels@[i as int].orders@);
        assert(q.skip(0) =~= q);
        assert(q.take(0) + queue_remove(q, id.0) =~= queue_remove(q, id.0));
    }
    let mut pos: usize = 0;
    while pos < levels[i].orders.len() && levels[i].orders[pos].id.0 != id.0
        invariant
            i < levels.len(),
            l == ladder_view(levels@),
            q == levels@[i as int].orders@,
            pos <= q.len(),
            queue_remove(q, id.0) == q.take(pos as int) + queue_remove(q.skip(pos as int), id.0),
            queue_find(q, id.0) == queue_find(q.skip(pos as int), id.0),
        decreases q.len() - pos,
    {
        proof {
            lemma_remove_queue_step(q, id.0, pos as int);
            assert(q.take(pos as int + 1) =~= q.take(pos as int).push(q[pos as int]));
        }
        pos = pos + 1;
    }
    let r = levels[i].orders.remove(pos);
    proof {
        if pos < q.len() {
            assert(q.skip(pos as int)[0] == q[pos as int]);
            assert(q.skip(pos as int).drop_first() =~= q.skip(pos as int + 1));
            assert(q.take(pos as int) + q.skip(pos as int + 1) =~= q.remove(pos as int));
        } else {
            assert(q.take(pos as int) + q.skip(pos as int) =~= q);
        }
        assert(levels@[i as int].orders@ == queue_remove(q, id.0));
    }
    if levels[i].orders.len() == 0 {
        levels.remove(i);
        proof {
            assert(ladder_view(levels@) =~= l.take(i as int) + l.skip(i as int).drop_first());
        }
    } else {
        proof {
            let nl = LevelView { price: price.0, orders: queue_remove(q, id.0) };
            assert(ladder_view(levels@) =~= l.update(i as int, nl));
            assert(l.take(i as int) + l.skip(i as int).update(0, nl) =~= l.update(i as int, nl));
        }
    }
    r
}

/// One execution against the oldest best order keeps the ladder well formed,
/// and every order still tracked findable.
proof fn lemma_fill_wf(
    side: Side,
    l: Seq<LevelView>,
    dir: Side,
    t: Order,
    loc: Map<u64, (Price, Side)>,
)
    requires
        ladder_wf(side, l),
        locs_valid(loc, side, l),
        can_match(l, dir, t),
    ensures
        ladder_wf(side, ladder_after_fill(l, t)),
        locs_valid(
            if sat_sub(l[0].orders[0].qty.0, t.qty.0) > 0 {
                loc
            } else {
                loc.remove(l[0].orders[0].id.0)
            },
            side,
            ladder_after_fill(l, t),
        ),
{
    let m = l[0].orders[0];
    let q = l[0].orders;
    let a = ladder_after_fill(l, t);
    let left = sat_sub(m.qty.0, t.qty.0);
    let loc2 = if left > 0 {
        loc
    } else {
        loc.remove(m.id.0)
    };
    lemma_after_fill_wf(side, l, t);
    if left > 0 || q.len() > 1 {
        assert(a.drop_first() =~= l.drop_first());
        if left > 0 {
            assert(q.update(0, Order { qty: Qty(left), ..m }).drop_first() =~= q.drop_first());
        }
    }
    assert forall|id: u64| #[trigger] loc2.contains_key(id) && loc2[id].1 == side implies ladder_find(
        a,
        loc2[id].0.0,
        id,
    ) is Some by {
        assert(loc.contains_key(id));
        let p = loc2[id].0.0;
        assert(ladder_find(l, p, id) is Some);
        if left == 0 && q.len() == 1 && p == l[0].price {
            assert(q.drop_first().len() == 0);
            assert(queue_find(q.drop_first(), id) is None);
        }
    }
}

/// Removing identities from the index keeps the rest findable.
proof fn lemma_locs_valid_remove_keys(
    loc: Map<u64, (Price, Side)>,
    side: Side,
    l: Seq<LevelView>,
    gone: Set<u64>,
)
    requires
        locs_valid(loc, side, l),
    ensures
        locs_valid(loc.remove_keys(gone), side, l),
{
    assert forall|id: u64| #[trigger] loc.remove_keys(gone).contains_key(id) && loc.remove_keys(
        gone,
    )[id].1 == side implies ladder_find(l, loc.remove_keys(gone)[id].0.0, id) is Some by {
        assert(loc.contains_key(id));
    }
}

fn crosses_exec(dir: Side, limit: i64, p: i64) -> (r: bool)
    ensures
        r == crosses(dir, limit, p),
{
    match dir {
        Side::Buy => limit >= p,
        Side::Sell => limit <= p,
    }
}

/// Matches `incoming` in direction `dir` against the ladder `levels` of the
/// other side, by price-time priority; returns the executions and what is left
/// of the taker.
fn sweep_ladder(
    levels: &mut Vec<Level>,
    locations: &mut HashMap<u64, (Price, Side)>,
    dir: Side,
    incoming: Order,
) -> (res: (Vec<Trade>, Order))
    requires
        ladder_wf(opposite(dir), ladder_view(old(levels)@)),
        locs_valid(old(locations)@, opposite(dir), ladder_view(old(levels)@)),
    ensures
        ({
            let s = sweep(ladder_view(old(levels)@), dir, incoming);
            &&& res.0@ == s.trades
            &&& ladder_view(final(levels)@) == s.ladder
            &&& final(locations)@ == old(locations)@.remove_keys(s.filled)
            &&& res.1 == Order { qty: Qty(s.remaining), ..incoming }
        }),
        ladder_wf(opposite(dir), ladder_view(final(levels)@)),
        locs_valid(final(locations)@, opposite(dir), ladder_view(final(levels)@)),
{
    let ghost side = opposite(dir);
    let ghost s0 = sweep(ladder_view(levels@), dir, incoming);
    let ghost loc0 = locations@;
    let ghost mut filled: Set<u64> = Set::empty();
    let mut trades: Vec<Trade> = Vec::new();
    let mut taker = incoming;
    proof {
        assert(trades@ + s0.trades =~= s0.trades);
        assert(filled.union(s0.filled) =~= s0.filled);
        assert(loc0.remove_keys(filled) =~= loc0);
    }
    while taker.qty.0 > 0
        invariant
            ladder_wf(side, ladder_view(levels@)),
            locs_valid(locations@, side, ladder_view(levels@)),
            side == opposite(dir),
            locations@ == loc0.remove_keys(filled),
            taker == (Order { qty: taker.qty, ..incoming }),
            s0.trades == trades@ + sweep(ladder_view(levels@), dir, taker).trades,
            s0.ladder == sweep(ladder_view(levels@), dir, taker).ladder,
            s0.remaining == sweep(ladder_view(levels@), dir, taker).remaining,
            s0.filled == filled.union(sweep(ladder_view(levels@), dir, taker).filled),
        ensures
            !can_match(ladder_view(levels@), dir, taker),
        decreases levels@.len(), (if levels@.len() > 0 {
            levels@[0]@.orders.len()
        } else {
            0
        }), taker.qty.0,
    {
        if levels.len() == 0 {
            break;
        }
        let price = levels[0].price;
        if !crosses_exec(dir, taker.price.0, price.0) {
            break;
        }
        let ghost l = ladder_view(levels@);
        let ghost t = taker;
        let ghost loc = locations@;
        proof {
            assert(l[0] == levels@[0]@);
            assert(level_wf(side, l[0]));
            assert(can_match(l, dir, taker));
            lemma_fill_wf(side, l, dir, taker, loc);
        }
        let mut maker = levels[0].orders.pop_front().unwrap();
        let fill = if taker.qty.0 <= maker.qty.0 {
            taker.qty
        } else {
            maker.qty
        };
        let trade = Trade {
            taker: taker.id,
            maker: maker.id,
            taker_side: taker.side,
            price,
            qty: fill,
        };
        trades.push(trade);
        let maker_qty = maker.qty;
        let taker_qty = taker.qty;
        maker.qty = match maker_qty.checked_sub(taker_qty) {
            Some(q) => q,
            None => Qty::default(),
        };
        taker.qty = match taker_qty.checked_sub(maker_qty) {
            Some(q) => q,
            None => Qty::default(),
        };
        if maker.qty.0 > 0 {
            levels[0].orders.push_front(maker);
        } else {
            locations.remove(&maker.id.0);
            proof {
                filled = filled.insert(maker.id.0);
            }
        }
        if levels[0].orders.len() == 0 {
            levels.remove(0);
        }
        proof {
            let m = l[0].orders[0];
            assert(trade == front_trade(l, t));
            let rest = sweep(ladder_after_fill(l, t), dir, taker);
            if sat_sub(m.qty.0, t.qty.0) > 0 {
                assert(levels@[0]@.orders =~= l[0].orders.update(0, maker));
                assert(ladder_view(levels@) =~= ladder_after_fill(l, t));
            } else if l[0].orders.len() == 1 {
                assert(ladder_view(levels@) =~= ladder_after_fill(l, t));
                assert(filled.union(rest.filled) =~= filled.remove(m.id.0).union(
                    rest.filled.insert(m.id.0),
                ));
            } else {
                assert(levels@[0]@.orders =~= l[0].orders.drop_first());
                assert(ladder_view(levels@) =~= ladder_after_fill(l, t));
            }
            assert(trades@ + rest.trades =~= trades@.drop_last() + (seq![trade] + rest.trades));
            assert(locations@ =~= loc0.remove_keys(filled));
        }
    }
    (trades, taker)
}

impl OrderBook {
    pub open spec fn wf(&self) -> bool {
        self@.wf()
    }

    pub fn new() -> (b: OrderBook)
        ensures
            b.wf(),
            b@.indexed(),
            b@.bids.len() == 0,
            b@.asks.len() == 0,
            b@.locations.is_empty(),
    {
        let b = OrderBook { bids: Vec::new(), asks: Vec::new(), locations: HashMap::new() };
        proof {
            assert(b@.bids =~= Seq::<LevelView>::empty());
            assert(b@.asks =~= Seq::<LevelView>::empty());
        }
        b
    }

    /// The highest bid price, if any.
    pub fn best_bid(&self) -> (r: Option<Price>)
        ensures
            r == best_price(self@.bids),
            self.wf() ==> (r matches Some(p) ==> forall|k: int|
                0 <= k < self@.bids.len() ==> #[trigger] self@.bids[k].price <= p.0),
    {
        proof {
            if self.wf() && self@.bids.len() > 0 {
                assert forall|k: int| 0 <= k < self@.bids.len() implies #[trigger] self@.bids[k].price
                    <= self@.bids[0].price by {
                    if k > 0 {
                        assert(better(Side::Buy, self@.bids[0].price, self@.bids[k].price));
                    }
                }
                assert(self.bids@[0]@.price == self.bids[0].price.0);
            }
        }
        if self.bids.len() > 0 {
            Some(self.bids[0].price)
        } else {
            None
        }
    }

    /// The lowest ask price, if any.
    pub fn best_ask(&self) -> (r: Option<Price>)
        ensures
            r == best_price(self@.asks),
            self.wf() ==> (r matches Some(p) ==> forall|k: int|
                0 <= k < self@.asks.len() ==> #[trigger] self@.asks[k].price >= p.0),
    {
        proof {
            if self.wf() && self@.asks.len() > 0 {
                assert forall|k: int| 0 <= k < self@.asks.len() implies #[trigger] self@.asks[k].price
                    >= self@.asks[0].price by {
                    if k > 0 {
                        assert(better(Side::Sell, self@.asks[0].price, self@.asks[k].price));
                    }
                }
                assert(self.asks@[0]@.price == self.asks[0].price.0);
            }
        }
        if self.asks.len() > 0 {
            Some(self.asks[0].price)
        } else {
            None
        }
    }

    /// Rests `order` at the back of the queue at its price on its side, without
    /// matching.
    pub fn add(&mut self, order: Order)
        requires
            old(self).wf(),
        ensures
            final(self).wf(),
            final(self)@ == old(self)@.add(order),
    {
        proof {
            lemma_add_wf(self@, order);
        }
        match order.side {
            Side::Buy => insert_level(&mut self.bids, order),
            Side::Sell => insert_level(&mut self.asks, order),
        }
        self.locations.insert(order.id.0, (order.price, order.side));
    }

    /// Takes order `order_id` out of the book, returning it; `None` when the
    /// book does not track that identity.
    pub fn cancel(&mut self, order_id: OrderId) -> (r: Option<Order>)
        requires
            old(self).wf(),
        ensures
            final(self).wf(),
            r == old(self)@.canceled(order_id.0),
            r is Some <==> old(self)@.locations.contains_key(order_id.0),
            final(self)@ == old(self)@.cancel(order_id.0),
    {
        proof {
            lemma_cancel_wf(self@, order_id.0);
        }
        let ghost before = self@;
        let (price, side) = match self.locations.remove(&order_id.0) {
            Some(loc) => loc,
            None => {
                proof {
                    assert(self@.locations =~= before.locations);
                }
                return None;
            },
        };
        match side {
            Side::Buy => remove_from_ladder(&mut self.bids, side, price, order_id),
            Side::Sell => remove_from_ladder(&mut self.asks, side, price, order_id),
        }
    }

    /// Matches `incoming` as a buyer against the asks, best price first and
    /// oldest first within a price, each execution at the maker's price; what
    /// is left of it then rests.
    pub fn buy_match(&mut self, incoming: Order) -> (trades: Vec<Trade>)
        requires
            old(self).wf(),
        ensures
            final(self).wf(),
            trades@ == old(self)@.sweep_of(Side::Buy, incoming).trades,
            final(self)@ == old(self)@.matched(Side::Buy, incoming),
    {
        let (trades, taker) = sweep_ladder(&mut self.asks, &mut self.locations, Side::Buy, incoming);
        proof {
            lemma_locs_valid_remove_keys(
                old(self)@.locations,
                Side::Buy,
                self@.bids,
                old(self)@.sweep_of(Side::Buy, incoming).filled,
            );
        }
        if taker.qty.0 > 0 {
            self.add(taker);
        }
        trades
    }

    /// Matches `incoming` as a seller against the bids, best price first and
    /// oldest first within a price, each execution at the maker's price; what
    /// is left of it then rests.
    pub fn sell_match(&mut self, incoming: Order) -> (trades: Vec<Trade>)
        requires
            old(self).wf(),
        ensures
            final(self).wf(),
            trades@ == old(self)@.sweep_of(Side::Sell, incoming).trades,
            final(self)@ == old(self)@.matched(Side::Sell, incoming),
    {
        let (trades, taker) = sweep_ladder(&mut self.bids, &mut self.locations, Side::Sell, incoming);
        proof {
            lemma_locs_valid_remove_keys(
                old(self)@.locations,
                Side::Sell,
                self@.asks,
                old(self)@.sweep_of(Side::Sell, incoming).filled,
            );
        }
        if taker.qty.0 > 0 {
            self.add(taker);
        }
        trades
    }

    /// Matches `taker` against the other side, then rests what is left of it.
    pub fn submit(&mut self, taker: Order) -> (trades: Vec<Trade>)
        requires
            old(self).wf(),
        ensures
            final(self).wf(),
            trades@ == old(self)@.sweep_of(taker.side, taker).trades,
            final(self)@ == old(self)@.matched(taker.side, taker),
    {
        match taker.side {
            Side::Buy => self.buy_match(taker),
            Side::Sell => self.sell_match(taker),
        }
    }

    /// Whether `cancel` can find order `id`.
    pub fn can_cancel(&self, id: OrderId) -> (r: bool)
        ensures
            r == self@.locations.contains_key(id.0),
    {
        self.locations.contains_key(&id.0)
    }
}

impl Default for OrderBook {
    fn default() -> (b: OrderBook)
        ensures
            b.wf(),
            b@.indexed(),
            b@.bids.len() == 0,
            b@.asks.len() == 0,
            b@.locations.is_empty(),
    {
        OrderBook::new()
    }
}

} // verus!
