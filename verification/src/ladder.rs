//! The mathematical model of one side of the book: a ladder of price levels,
//! best level first, each level a FIFO queue of resting orders.
use vstd::prelude::*;

use crate::types::{Order, Price, Qty, Side, Trade};

verus! {

/// One price level: its price and its orders, oldest first.
pub ghost struct LevelView {
    pub price: i64,
    pub orders: Seq<Order>,
}

/// The side that a taker of `side` trades against.
pub open spec fn opposite(side: Side) -> Side {
    match side {
        Side::Buy => Side::Sell,
        Side::Sell => Side::Buy,
    }
}

/// On a ladder of `side`, a level at price `a` has priority over one at `b`:
/// higher bids come first, lower asks come first.
pub open spec fn better(side: Side, a: i64, b: i64) -> bool {
    match side {
        Side::Buy => a > b,
        Side::Sell => a < b,
    }
}

/// A taker matching in direction `dir` with limit `limit` may trade at `p`:
/// a buyer pays at most its limit, a seller receives at least its limit.
pub open spec fn crosses(dir: Side, limit: i64, p: i64) -> bool {
    match dir {
        Side::Buy => limit >= p,
        Side::Sell => limit <= p,
    }
}

pub open spec fn level_wf(side: Side, lv: LevelView) -> bool {
    &&& lv.orders.len() > 0
    &&& forall|k: int|
        0 <= k < lv.orders.len() ==> (#[trigger] lv.orders[k]).price.0 == lv.price
            && lv.orders[k].side == side
}

/// A well-formed ladder: strictly ordered by priority (so prices are distinct),
/// no empty level, every order rests at its own price and on this side.
pub open spec fn ladder_wf(side: Side, l: Seq<LevelView>) -> bool {
    &&& forall|i: int, j: int| 0 <= i < j < l.len() ==> better(side, l[i].price, l[j].price)
    &&& forall|i: int| 0 <= i < l.len() ==> level_wf(side, #[trigger] l[i])
}

/// The ladder after `o` joins the back of the queue at its price, opening a new
/// level at the right place when there is none.
pub open spec fn ladder_insert(l: Seq<LevelView>, o: Order) -> Seq<LevelView>
    decreases l.len(),
{
    if l.len() == 0 {
        seq![LevelView { price: o.price.0, orders: seq![o] }]
    } else if l[0].price == o.price.0 {
        l.update(0, LevelView { price: l[0].price, orders: l[0].orders.push(o) })
    } else if better(o.side, o.price.0, l[0].price) {
        seq![LevelView { price: o.price.0, orders: seq![o] }] + l
    } else {
        seq![l[0]] + ladder_insert(l.drop_first(), o)
    }
}

/// The oldest order with identity `id` in a queue.
pub open spec fn queue_find(q: Seq<Order>, id: u64) -> Option<Order>
    decreases q.len(),
{
    if q.len() == 0 {
        None
    } else if q[0].id.0 == id {
        Some(q[0])
    } else {
        queue_find(q.drop_first(), id)
    }
}

/// The queue without its oldest order with identity `id`.
pub open spec fn queue_remove(q: Seq<Order>, id: u64) -> Seq<Order>
    decreases q.len(),
{
    if q.len() == 0 {
        q
    } else if q[0].id.0 == id {
        q.drop_first()
    } else {
        seq![q[0]] + queue_remove(q.drop_first(), id)
    }
}

/// The oldest order with identity `id` at the level of price `p`.
pub open spec fn ladder_find(l: Seq<LevelView>, p: i64, id: u64) -> Option<Order>
    decreases l.len(),
{
    if l.len() == 0 {
        None
    } else if l[0].price == p {
        queue_find(l[0].orders, id)
    } else {
        ladder_find(l.drop_first(), p, id)
    }
}

/// The ladder without the oldest order with identity `id` at price `p`; a level
/// left empty is dropped.
pub open spec fn ladder_remove(l: Seq<LevelView>, p: i64, id: u64) -> Seq<LevelView>
    decreases l.len(),
{
    if l.len() == 0 {
        l
    } else if l[0].price == p {
        let q = queue_remove(l[0].orders, id);
        if q.len() == 0 {
            l.drop_first()
        } else {
            l.update(0, LevelView { price: p, orders: q })
        }
    } else {
        seq![l[0]] + ladder_remove(l.drop_first(), p, id)
    }
}

pub open spec fn min_u64(a: u64, b: u64) -> u64 {
    if a <= b {
        a
    } else {
        b
    }
}

/// Subtraction that stops at zero.
pub open spec fn sat_sub(a: u64, b: u64) -> u64 {
    if a >= b {
        (a - b) as u64
    } else {
        0
    }
}

/// The outcome of sweeping a ladder with a taker.
pub ghost struct Sweep {
    /// The executions, in the order they happen.
    pub trades: Seq<Trade>,
    /// The ladder afterwards.
    pub ladder: Seq<LevelView>,
    /// What is left of the taker's quantity.
    pub remaining: u64,
    /// The identities of the makers that were filled completely and left.
    pub filled: Set<u64>,
}

/// The trade of `taker` against the oldest order of the best level.
pub open spec fn front_trade(l: Seq<LevelView>, taker: Order) -> Trade {
    let maker = l[0].orders[0];
    Trade {
        taker: taker.id,
        maker: maker.id,
        taker_side: taker.side,
        price: Price(l[0].price),
        qty: Qty(min_u64(taker.qty.0, maker.qty.0)),
    }
}

/// Whether the sweep goes on: the taker has quantity left and the best level
/// is within its limit.
pub open spec fn can_match(l: Seq<LevelView>, dir: Side, taker: Order) -> bool {
    &&& taker.qty.0 > 0
    &&& l.len() > 0
    &&& l[0].orders.len() > 0
    &&& crosses(dir, taker.price.0, l[0].price)
}

/// The ladder after one execution against its oldest best order: the maker
/// keeps its place with less quantity, or leaves (and its level too, if emptied).
pub open spec fn ladder_after_fill(l: Seq<LevelView>, taker: Order) -> Seq<LevelView> {
    let maker = l[0].orders[0];
    let left = sat_sub(maker.qty.0, taker.qty.0);
    if left > 0 {
        l.update(
            0,
            LevelView {
                price: l[0].price,
                orders: l[0].orders.update(0, Order { qty: Qty(left), ..maker }),
            },
        )
    } else if l[0].orders.len() == 1 {
        l.drop_first()
    } else {
        l.update(0, LevelView { price: l[0].price, orders: l[0].orders.drop_first() })
    }
}

/// Price-time priority matching of `taker` against ladder `l`, the taker
/// matching in direction `dir` (a buyer sweeps the asks, a seller the bids).
/// Every execution is at the maker's price, for the smaller of the two
/// quantities; the sweep stops when the taker is done, the ladder is empty, or
/// the best level is beyond the taker's limit.
pub open spec fn sweep(l: Seq<LevelView>, dir: Side, taker: Order) -> Sweep
    decreases l.len(), (if l.len() > 0 { l[0].orders.len() } else { 0 }), taker.qty.0,
{
    if can_match(l, dir, taker) {
        let maker = l[0].orders[0];
        let trade = front_trade(l, taker);
        let next_taker = Order { qty: Qty(sat_sub(taker.qty.0, maker.qty.0)), ..taker };
        let rest = sweep(ladder_after_fill(l, taker), dir, next_taker);
        Sweep {
            trades: seq![trade] + rest.trades,
            ladder: rest.ladder,
            remaining: rest.remaining,
            filled: if sat_sub(maker.qty.0, taker.qty.0) > 0 {
                rest.filled
            } else {
                rest.filled.insert(maker.id.0)
            },
        }
    } else {
        Sweep { trades: seq![], ladder: l, remaining: taker.qty.0, filled: Set::empty() }
    }
}

/// The best price of a ladder.
pub open spec fn best_price(l: Seq<LevelView>) -> Option<Price> {
    if l.len() > 0 {
        Some(Price(l[0].price))
    } else {
        None
    }
}

/// Sum of the quantities of a sequence of trades.
pub open spec fn traded_qty(trades: Seq<Trade>) -> int
    decreases trades.len(),
{
    if trades.len() == 0 {
        0
    } else {
        trades[0].qty.0 + traded_qty(trades.drop_first())
    }
}

/// Every level of the inserted ladder is beaten by `b` when every level of the
/// old ladder and the new order are.
pub proof fn lemma_insert_bounded(l: Seq<LevelView>, o: Order, b: i64)
    requires
        forall|k: int| 0 <= k < l.len() ==> better(o.side, b, #[trigger] l[k].price),
        better(o.side, b, o.price.0),
    ensures
        forall|k: int|
            0 <= k < ladder_insert(l, o).len() ==> better(
                o.side,
                b,
                #[trigger] ladder_insert(l, o)[k].price,
            ),
    decreases l.len(),
{
    if l.len() > 0 && l[0].price != o.price.0 && !better(o.side, o.price.0, l[0].price) {
        lemma_insert_bounded(l.drop_first(), o, b);
        let r = ladder_insert(l.drop_first(), o);
        assert forall|k: int| 0 <= k < ladder_insert(l, o).len() implies better(
            o.side,
            b,
            #[trigger] ladder_insert(l, o)[k].price,
        ) by {
            if k > 0 {
                assert(ladder_insert(l, o)[k] == r[k - 1]);
            }
        }
    }
}

/// Inserting an order of the ladder's side keeps the ladder well formed.
pub proof fn lemma_insert_wf(l: Seq<LevelView>, o: Order)
    requires
        ladder_wf(o.side, l),
    ensures
        ladder_wf(o.side, ladder_insert(l, o)),
    decreases l.len(),
{
    let r = ladder_insert(l, o);
    if l.len() == 0 {
    } else if l[0].price == o.price.0 {
        assert(level_wf(o.side, r[0]));
    } else if better(o.side, o.price.0, l[0].price) {
        assert forall|i: int, j: int| 0 <= i < j < r.len() implies better(
            o.side,
            r[i].price,
            r[j].price,
        ) by {
            if i > 0 {
                assert(r[i] == l[i - 1]);
            }
            assert(r[j] == l[j - 1]);
            if j - 1 > 0 {
                assert(better(o.side, l[0].price, l[j - 1].price));
            }
        }
        assert forall|i: int| 0 <= i < r.len() implies level_wf(o.side, #[trigger] r[i]) by {
            if i > 0 {
                assert(r[i] == l[i - 1]);
            }
        }
    } else {
        let t = l.drop_first();
        lemma_insert_wf(t, o);
        let rt = ladder_insert(t, o);
        lemma_insert_bounded(t, o, l[0].price);
        assert forall|i: int, j: int| 0 <= i < j < r.len() implies better(
            o.side,
            r[i].price,
            r[j].price,
        ) by {
            assert(r[j] == rt[j - 1]);
            if i > 0 {
                assert(r[i] == rt[i - 1]);
            }
        }
        assert forall|i: int| 0 <= i < r.len() implies level_wf(o.side, #[trigger] r[i]) by {
            if i > 0 {
                assert(r[i] == rt[i - 1]);
            }
        }
    }
}

pub proof fn lemma_queue_find_push(q: Seq<Order>, o: Order, id: u64)
    ensures
        queue_find(q, id) is Some ==> queue_find(q.push(o), id) == queue_find(q, id),
        queue_find(q, id) is None ==> queue_find(q.push(o), id) == (if o.id.0 == id {
            Some(o)
        } else {
            None::<Order>
        }),
    decreases q.len(),
{
    if q.len() > 0 {
        assert(q.push(o).drop_first() =~= q.drop_first().push(o));
        lemma_queue_find_push(q.drop_first(), o, id);
    } else {
        assert(q.push(o).drop_first().len() == 0);
        assert(queue_find(q.push(o).drop_first(), id) is None);
        assert(q.push(o)[0] == o);
    }
}

/// Inserting keeps every order findable, and makes the new one findable.
pub proof fn lemma_insert_find(l: Seq<LevelView>, o: Order, p: i64, id: u64)
    requires
        ladder_wf(o.side, l),
    ensures
        ladder_find(l, p, id) is Some ==> ladder_find(ladder_insert(l, o), p, id) is Some,
        ladder_find(ladder_insert(l, o), o.price.0, o.id.0) is Some,
    decreases l.len(),
{
    let r = ladder_insert(l, o);
    if l.len() == 0 {
    } else if l[0].price == o.price.0 {
        lemma_queue_find_push(l[0].orders, o, id);
        lemma_queue_find_push(l[0].orders, o, o.id.0);
        assert(r.drop_first() =~= l.drop_first());
    } else if better(o.side, o.price.0, l[0].price) {
        assert(r.drop_first() =~= l);
        if p == o.price.0 {
            lemma_find_absent_price(l, o.side, p, id);
        }
    } else {
        lemma_insert_find(l.drop_first(), o, p, id);
        assert(r.drop_first() =~= ladder_insert(l.drop_first(), o));
    }
}

/// A price beaten by the best level of a well-formed ladder has no level.
pub proof fn lemma_find_absent_price(l: Seq<LevelView>, side: Side, p: i64, id: u64)
    requires
        ladder_wf(side, l),
        l.len() > 0 ==> better(side, p, l[0].price),
    ensures
        ladder_find(l, p, id) is None,
    decreases l.len(),
{
    if l.len() > 0 {
        let t = l.drop_first();
        if t.len() > 0 {
            assert(better(side, l[0].price, l[1].price));
        }
        lemma_find_absent_price(t, side, p, id);
    }
}

pub proof fn lemma_queue_remove_keeps(q: Seq<Order>, id: u64, price: i64, side: Side)
    requires
        forall|k: int|
            0 <= k < q.len() ==> (#[trigger] q[k]).price.0 == price && q[k].side == side,
    ensures
        forall|k: int|
            0 <= k < queue_remove(q, id).len() ==> (#[trigger] queue_remove(q, id)[k]).price.0
                == price && queue_remove(q, id)[k].side == side,
        queue_remove(q, id).len() >= q.len() - 1,
    decreases q.len(),
{
    if q.len() > 0 && q[0].id.0 != id {
        lemma_queue_remove_keeps(q.drop_first(), id, price, side);
        let r = queue_remove(q, id);
        assert forall|k: int| 0 <= k < r.len() implies (#[trigger] r[k]).price.0 == price
            && r[k].side == side by {
            if k > 0 {
                assert(r[k] == queue_remove(q.drop_first(), id)[k - 1]);
            }
        }
    }
}

pub proof fn lemma_queue_remove_other(q: Seq<Order>, id: u64, other: u64)
    requires
        id != other,
    ensures
        queue_find(queue_remove(q, id), other) == queue_find(q, other),
    decreases q.len(),
{
    if q.len() > 0 {
        if q[0].id.0 != id {
            let r = queue_remove(q, id);
            assert(r.drop_first() =~= queue_remove(q.drop_first(), id));
        }
        lemma_queue_remove_other(q.drop_first(), id, other);
    }
}

/// Every level of the reduced ladder is beaten by `b` when every old level is.
pub proof fn lemma_remove_bounded(side: Side, l: Seq<LevelView>, p: i64, id: u64, b: i64)
    requires
        forall|k: int| 0 <= k < l.len() ==> better(side, b, #[trigger] l[k].price),
    ensures
        forall|k: int|
            0 <= k < ladder_remove(l, p, id).len() ==> better(
                side,
                b,
                #[trigger] ladder_remove(l, p, id)[k].price,
            ),
    decreases l.len(),
{
    if l.len() > 0 && l[0].price != p {
        lemma_remove_bounded(side, l.drop_first(), p, id, b);
        let r = ladder_remove(l, p, id);
        assert forall|k: int| 0 <= k < r.len() implies better(side, b, #[trigger] r[k].price) by {
            if k > 0 {
                assert(r[k] == ladder_remove(l.drop_first(), p, id)[k - 1]);
            }
        }
    }
}

/// Taking an order out keeps the ladder well formed.
pub proof fn lemma_remove_wf(side: Side, l: Seq<LevelView>, p: i64, id: u64)
    requires
        ladder_wf(side, l),
    ensures
        ladder_wf(side, ladder_remove(l, p, id)),
    decreases l.len(),
{
    let r = ladder_remove(l, p, id);
    if l.len() == 0 {
    } else if l[0].price == p {
        let q = queue_remove(l[0].orders, id);
        assert(level_wf(side, l[0]));
        lemma_queue_remove_keeps(l[0].orders, id, p, side);
        if q.len() == 0 {
            assert forall|i: int, j: int| 0 <= i < j < r.len() implies better(
                side,
                r[i].price,
                r[j].price,
            ) by {
                assert(r[i] == l[i + 1]);
                assert(r[j] == l[j + 1]);
            }
            assert forall|i: int| 0 <= i < r.len() implies level_wf(side, #[trigger] r[i]) by {
                assert(r[i] == l[i + 1]);
            }
        } else {
            assert(level_wf(side, r[0]));
            assert forall|i: int| 0 <= i < r.len() implies level_wf(side, #[trigger] r[i]) by {
                if i > 0 {
                    assert(r[i] == l[i]);
                }
            }
        }
    } else {
        let t = l.drop_first();
        lemma_remove_wf(side, t, p, id);
        lemma_remove_bounded(side, t, p, id, l[0].price);
        let rt = ladder_remove(t, p, id);
        assert forall|i: int, j: int| 0 <= i < j < r.len() implies better(
            side,
            r[i].price,
            r[j].price,
        ) by {
            assert(r[j] == rt[j - 1]);
            if i > 0 {
                assert(r[i] == rt[i - 1]);
            }
        }
        assert forall|i: int| 0 <= i < r.len() implies level_wf(side, #[trigger] r[i]) by {
            if i > 0 {
                assert(r[i] == rt[i - 1]);
            }
        }
    }
}

/// Taking out an order of identity `id` keeps every order of another identity
/// findable.
pub proof fn lemma_remove_find(l: Seq<LevelView>, p: i64, id: u64, p2: i64, id2: u64)
    requires
        id != id2,
        ladder_find(l, p2, id2) is Some,
    ensures
        ladder_find(ladder_remove(l, p, id), p2, id2) is Some,
    decreases l.len(),
{
    let r = ladder_remove(l, p, id);
    if l.len() == 0 {
    } else if l[0].price == p {
        let q = queue_remove(l[0].orders, id);
        lemma_queue_remove_other(l[0].orders, id, id2);
        if q.len() == 0 {
            if p2 == p {
                assert(queue_find(q, id2) is None);
            }
        } else {
            assert(r.drop_first() =~= l.drop_first());
        }
    } else if l[0].price != p2 {
        lemma_remove_find(l.drop_first(), p, id, p2, id2);
        assert(r.drop_first() =~= ladder_remove(l.drop_first(), p, id));
    }
}

/// `p` is no better than `b` on a ladder of `side`.
pub open spec fn no_better(side: Side, b: i64, p: i64) -> bool {
    p == b || better(side, b, p)
}

/// Quantity is conserved by a sweep: what the trades execute plus what is left
/// of the taker is the taker's quantity. Every trade names the taker and its
/// side, and is within the taker's limit.
pub proof fn lemma_sweep_accounting(l: Seq<LevelView>, dir: Side, taker: Order)
    ensures
        traded_qty(sweep(l, dir, taker).trades) + sweep(l, dir, taker).remaining == taker.qty.0,
        sweep(l, dir, taker).remaining <= taker.qty.0,
        forall|k: int|
            0 <= k < sweep(l, dir, taker).trades.len() ==> {
                let tr = #[trigger] sweep(l, dir, taker).trades[k];
                &&& tr.taker == taker.id
                &&& tr.taker_side == taker.side
                &&& crosses(dir, taker.price.0, tr.price.0)
            },
    decreases l.len(), (if l.len() > 0 {
        l[0].orders.len()
    } else {
        0
    }), taker.qty.0,
{
    if can_match(l, dir, taker) {
        let maker = l[0].orders[0];
        let next_taker = Order { qty: Qty(sat_sub(taker.qty.0, maker.qty.0)), ..taker };
        let after = ladder_after_fill(l, taker);
        lemma_sweep_accounting(after, dir, next_taker);
        let s = sweep(l, dir, taker);
        let rest = sweep(after, dir, next_taker);
        assert(s.trades.drop_first() =~= rest.trades);
        assert forall|k: int| 0 <= k < s.trades.len() implies {
            let tr = #[trigger] s.trades[k];
            &&& tr.taker == taker.id
            &&& tr.taker_side == taker.side
            &&& crosses(dir, taker.price.0, tr.price.0)
        } by {
            if k > 0 {
                assert(s.trades[k] == rest.trades[k - 1]);
            }
        }
    }
}

/// A fill only lowers or removes the best level, so a bound on every level
/// price survives it.
pub proof fn lemma_fill_bounded(side: Side, l: Seq<LevelView>, taker: Order, b: i64)
    requires
        l.len() > 0,
        l[0].orders.len() > 0,
        forall|k: int| 0 <= k < l.len() ==> no_better(side, b, #[trigger] l[k].price),
    ensures
        forall|k: int|
            0 <= k < ladder_after_fill(l, taker).len() ==> no_better(
                side,
                b,
                #[trigger] ladder_after_fill(l, taker)[k].price,
            ),
{
    let a = ladder_after_fill(l, taker);
    assert forall|k: int| 0 <= k < a.len() implies no_better(side, b, #[trigger] a[k].price) by {
        if a.len() < l.len() {
            assert(a[k] == l[k + 1]);
        } else {
            assert(a[k].price == l[k].price);
        }
    }
}

/// A bound on every level price of the ladder bounds every trade price and
/// every level price of the ladder left by a sweep.
pub proof fn lemma_sweep_bounded(side: Side, l: Seq<LevelView>, dir: Side, taker: Order, b: i64)
    requires
        forall|k: int| 0 <= k < l.len() ==> no_better(side, b, #[trigger] l[k].price),
    ensures
        forall|k: int|
            0 <= k < sweep(l, dir, taker).trades.len() ==> no_better(
                side,
                b,
                (#[trigger] sweep(l, dir, taker).trades[k]).price.0,
            ),
        forall|k: int|
            0 <= k < sweep(l, dir, taker).ladder.len() ==> no_better(
                side,
                b,
                (#[trigger] sweep(l, dir, taker).ladder[k]).price,
            ),
    decreases l.len(), (if l.len() > 0 {
        l[0].orders.len()
    } else {
        0
    }), taker.qty.0,
{
    if can_match(l, dir, taker) {
        let maker = l[0].orders[0];
        let next_taker = Order { qty: Qty(sat_sub(taker.qty.0, maker.qty.0)), ..taker };
        let after = ladder_after_fill(l, taker);
        lemma_fill_bounded(side, l, taker, b);
        lemma_sweep_bounded(side, after, dir, next_taker, b);
        let s = sweep(l, dir, taker);
        let rest = sweep(after, dir, next_taker);
        assert forall|k: int| 0 <= k < s.trades.len() implies no_better(
            side,
            b,
            (#[trigger] s.trades[k]).price.0,
        ) by {
            if k > 0 {
                assert(s.trades[k] == rest.trades[k - 1]);
            }
        }
    }
}

/// Executions walk the ladder from its best price outward: no trade is at a
/// better price than an earlier one.
pub proof fn lemma_sweep_price_order(side: Side, l: Seq<LevelView>, dir: Side, taker: Order)
    requires
        ladder_wf(side, l),
    ensures
        forall|i: int, j: int|
            0 <= i < j < sweep(l, dir, taker).trades.len() ==> no_better(
                side,
                (#[trigger] sweep(l, dir, taker).trades[i]).price.0,
                (#[trigger] sweep(l, dir, taker).trades[j]).price.0,
            ),
    decreases l.len(), (if l.len() > 0 {
        l[0].orders.len()
    } else {
        0
    }), taker.qty.0,
{
    if can_match(l, dir, taker) {
        let maker = l[0].orders[0];
        let next_taker = Order { qty: Qty(sat_sub(taker.qty.0, maker.qty.0)), ..taker };
        let after = ladder_after_fill(l, taker);
        lemma_after_fill_wf(side, l, taker);
        lemma_sweep_price_order(side, after, dir, next_taker);
        lemma_fill_bounded(side, l, taker, l[0].price);
        lemma_sweep_bounded(side, after, dir, next_taker, l[0].price);
        let s = sweep(l, dir, taker);
        let rest = sweep(after, dir, next_taker);
        assert forall|i: int, j: int| 0 <= i < j < s.trades.len() implies no_better(
            side,
            (#[trigger] s.trades[i]).price.0,
            (#[trigger] s.trades[j]).price.0,
        ) by {
            assert(s.trades[j] == rest.trades[j - 1]);
            if i > 0 {
                assert(s.trades[i] == rest.trades[i - 1]);
            }
        }
    } else {
    }
}

/// A fill keeps the ladder well formed.
pub proof fn lemma_after_fill_wf(side: Side, l: Seq<LevelView>, taker: Order)
    requires
        ladder_wf(side, l),
        l.len() > 0,
    ensures
        ladder_wf(side, ladder_after_fill(l, taker)),
{
    let m = l[0].orders[0];
    let q = l[0].orders;
    let a = ladder_after_fill(l, taker);
    let left = sat_sub(m.qty.0, taker.qty.0);
    assert(level_wf(side, l[0]));
    if left > 0 || q.len() > 1 {
        assert(level_wf(side, a[0]));
        assert forall|i: int| 0 <= i < a.len() implies level_wf(side, #[trigger] a[i]) by {
            if i > 0 {
                assert(a[i] == l[i]);
            }
        }
    } else {
        assert forall|i: int, j: int| 0 <= i < j < a.len() implies better(
            side,
            a[i].price,
            a[j].price,
        ) by {
            assert(a[i] == l[i + 1]);
            assert(a[j] == l[j + 1]);
        }
        assert forall|i: int| 0 <= i < a.len() implies level_wf(side, #[trigger] a[i]) by {
            assert(a[i] == l[i + 1]);
        }
    }
}

/// A sweep stops with quantity left only when the best level that remains is
/// beyond the taker's limit.
pub proof fn lemma_sweep_stops(side: Side, l: Seq<LevelView>, dir: Side, taker: Order)
    requires
        ladder_wf(side, l),
    ensures
        sweep(l, dir, taker).remaining > 0 && sweep(l, dir, taker).ladder.len() > 0 ==> !crosses(
            dir,
            taker.price.0,
            sweep(l, dir, taker).ladder[0].price,
        ),
        ladder_wf(side, sweep(l, dir, taker).ladder),
    decreases l.len(), (if l.len() > 0 {
        l[0].orders.len()
    } else {
        0
    }), taker.qty.0,
{
    if can_match(l, dir, taker) {
        let maker = l[0].orders[0];
        let next_taker = Order { qty: Qty(sat_sub(taker.qty.0, maker.qty.0)), ..taker };
        lemma_after_fill_wf(side, l, taker);
        lemma_sweep_stops(side, ladder_after_fill(l, taker), dir, next_taker);
    } else if l.len() > 0 {
        assert(level_wf(side, l[0]));
    }
}

/// The best level after an insert.
pub proof fn lemma_insert_front(l: Seq<LevelView>, o: Order)
    ensures
        ladder_insert(l, o).len() > 0,
        ladder_insert(l, o)[0].price == (if l.len() == 0 || better(o.side, o.price.0, l[0].price) {
            o.price.0
        } else {
            l[0].price
        }),
{
}

pub proof fn lemma_queue_push_remove(q: Seq<Order>, o: Order)
    requires
        queue_find(q, o.id.0) is None,
    ensures
        queue_remove(q.push(o), o.id.0) == q,
        queue_find(q.push(o), o.id.0) == Some(o),
    decreases q.len(),
{
    lemma_queue_find_push(q, o, o.id.0);
    if q.len() > 0 {
        assert(q.push(o).drop_first() =~= q.drop_first().push(o));
        lemma_queue_push_remove(q.drop_first(), o);
        assert(seq![q[0]] + q.drop_first() =~= q);
    } else {
        assert(q.push(o).drop_first() =~= q);
    }
}

/// Taking out an order just inserted, whose identity was not resting at its
/// price, gives back the ladder.
pub proof fn lemma_insert_remove(l: Seq<LevelView>, o: Order)
    requires
        ladder_wf(o.side, l),
        ladder_find(l, o.price.0, o.id.0) is None,
    ensures
        ladder_remove(ladder_insert(l, o), o.price.0, o.id.0) == l,
        ladder_find(ladder_insert(l, o), o.price.0, o.id.0) == Some(o),
    decreases l.len(),
{
    let p = o.price.0;
    let id = o.id.0;
    let r = ladder_insert(l, o);
    if l.len() == 0 {
        assert(seq![o].drop_first().len() == 0);
        assert(r.drop_first() =~= l);
    } else if l[0].price == p {
        assert(level_wf(o.side, l[0]));
        lemma_queue_push_remove(l[0].orders, o);
        assert(l.update(0, LevelView { price: p, orders: l[0].orders }) =~= l);
    } else if better(o.side, p, l[0].price) {
        assert(seq![o].drop_first().len() == 0);
        assert(r.drop_first() =~= l);
    } else {
        let t = l.drop_first();
        lemma_insert_remove(t, o);
        assert(r.drop_first() =~= ladder_insert(t, o));
        assert(seq![l[0]] + t =~= l);
    }
}

/// Taking an order out never improves the best level.
pub proof fn lemma_remove_front(side: Side, l: Seq<LevelView>, p: i64, id: u64)
    requires
        ladder_wf(side, l),
    ensures
        ladder_remove(l, p, id).len() > 0 ==> l.len() > 0 && no_better(
            side,
            l[0].price,
            ladder_remove(l, p, id)[0].price,
        ),
{
    if l.len() > 1 {
        assert(better(side, l[0].price, l[1].price));
    }
}

/// Total quantity of a queue.
pub open spec fn queue_qty(q: Seq<Order>) -> int
    decreases q.len(),
{
    if q.len() == 0 {
        0
    } else {
        q[0].qty.0 + queue_qty(q.drop_first())
    }
}

/// Total quantity resting on a ladder.
pub open spec fn ladder_qty(l: Seq<LevelView>) -> int
    decreases l.len(),
{
    if l.len() == 0 {
        0
    } else {
        queue_qty(l[0].orders) + ladder_qty(l.drop_first())
    }
}

pub proof fn lemma_queue_qty_push(q: Seq<Order>, o: Order)
    ensures
        queue_qty(q.push(o)) == queue_qty(q) + o.qty.0,
    decreases q.len(),
{
    if q.len() > 0 {
        assert(q.push(o).drop_first() =~= q.drop_first().push(o));
        lemma_queue_qty_push(q.drop_first(), o);
    } else {
        assert(q.push(o).drop_first() =~= q);
    }
}

/// Resting an order adds its quantity to the ladder.
pub proof fn lemma_insert_qty(l: Seq<LevelView>, o: Order)
    ensures
        ladder_qty(ladder_insert(l, o)) == ladder_qty(l) + o.qty.0,
    decreases l.len(),
{
    let r = ladder_insert(l, o);
    let one = seq![o];
    assert(one.drop_first() =~= Seq::<Order>::empty());
    assert(queue_qty(one.drop_first()) == 0);
    assert(queue_qty(one) == o.qty.0);
    if l.len() == 0 {
        assert(r.drop_first() =~= l);
        assert(ladder_qty(r) == queue_qty(r[0].orders) + ladder_qty(r.drop_first()));
    } else if l[0].price == o.price.0 {
        lemma_queue_qty_push(l[0].orders, o);
        assert(r.drop_first() =~= l.drop_first());
        assert(ladder_qty(r) == queue_qty(r[0].orders) + ladder_qty(r.drop_first()));
    } else if better(o.side, o.price.0, l[0].price) {
        assert(r.drop_first() =~= l);
        assert(ladder_qty(r) == queue_qty(r[0].orders) + ladder_qty(r.drop_first()));
    } else {
        lemma_insert_qty(l.drop_first(), o);
        assert(r.drop_first() =~= ladder_insert(l.drop_first(), o));
    }
}

/// One execution moves exactly the traded quantity off the ladder.
pub proof fn lemma_fill_qty(l: Seq<LevelView>, dir: Side, taker: Order)
    requires
        can_match(l, dir, taker),
    ensures
        ladder_qty(ladder_after_fill(l, taker)) + front_trade(l, taker).qty.0 == ladder_qty(l),
{
    let q = l[0].orders;
    let m = q[0];
    let a = ladder_after_fill(l, taker);
    let left = sat_sub(m.qty.0, taker.qty.0);
    assert(queue_qty(q) == m.qty.0 + queue_qty(q.drop_first()));
    assert(ladder_qty(l) == queue_qty(q) + ladder_qty(l.drop_first()));
    if left > 0 {
        let q2 = q.update(0, Order { qty: Qty(left), ..m });
        assert(q2.drop_first() =~= q.drop_first());
        assert(a.drop_first() =~= l.drop_first());
        assert(a[0].orders == q2);
        assert(queue_qty(q2) == left + queue_qty(q2.drop_first()));
        assert(ladder_qty(a) == queue_qty(q2) + ladder_qty(a.drop_first()));
    } else if q.len() == 1 {
        assert(q.drop_first().len() == 0);
        assert(queue_qty(q.drop_first()) == 0);
        assert(a == l.drop_first());
    } else {
        assert(a.drop_first() =~= l.drop_first());
        assert(a[0].orders == q.drop_first());
        assert(ladder_qty(a) == queue_qty(q.drop_first()) + ladder_qty(a.drop_first()));
    }
}

/// A sweep conserves quantity on the ladder: what it leaves plus what it
/// trades is what rested before.
pub proof fn lemma_sweep_qty(l: Seq<LevelView>, dir: Side, taker: Order)
    ensures
        ladder_qty(sweep(l, dir, taker).ladder) + traded_qty(sweep(l, dir, taker).trades)
            == ladder_qty(l),
    decreases l.len(), (if l.len() > 0 {
        l[0].orders.len()
    } else {
        0
    }), taker.qty.0,
{
    if can_match(l, dir, taker) {
        let maker = l[0].orders[0];
        let next_taker = Order { qty: Qty(sat_sub(taker.qty.0, maker.qty.0)), ..taker };
        let after = ladder_after_fill(l, taker);
        lemma_fill_qty(l, dir, taker);
        lemma_sweep_qty(after, dir, next_taker);
        let s = sweep(l, dir, taker);
        assert(s.trades.drop_first() =~= sweep(after, dir, next_taker).trades);
    }
}

/// The quantity of an order found, zero when none is.
pub open spec fn found_qty(o: Option<Order>) -> int {
    match o {
        Some(o) => o.qty.0 as int,
        None => 0,
    }
}

pub proof fn lemma_queue_remove_qty(q: Seq<Order>, id: u64)
    ensures
        queue_qty(queue_remove(q, id)) == queue_qty(q) - found_qty(queue_find(q, id)),
    decreases q.len(),
{
    if q.len() > 0 && q[0].id.0 != id {
        let r = queue_remove(q, id);
        assert(r.drop_first() =~= queue_remove(q.drop_first(), id));
        lemma_queue_remove_qty(q.drop_first(), id);
    }
}

/// Taking an order out removes exactly its quantity from the ladder.
pub proof fn lemma_remove_qty(l: Seq<LevelView>, p: i64, id: u64)
    ensures
        ladder_qty(ladder_remove(l, p, id)) == ladder_qty(l) - found_qty(ladder_find(l, p, id)),
    decreases l.len(),
{
    let r = ladder_remove(l, p, id);
    if l.len() == 0 {
    } else if l[0].price == p {
        let q = queue_remove(l[0].orders, id);
        lemma_queue_remove_qty(l[0].orders, id);
        if q.len() == 0 {
            assert(queue_qty(q) == 0);
        } else {
            assert(r.drop_first() =~= l.drop_first());
            assert(ladder_qty(r) == queue_qty(q) + ladder_qty(r.drop_first()));
        }
    } else {
        lemma_remove_qty(l.drop_first(), p, id);
        assert(r.drop_first() =~= ladder_remove(l.drop_first(), p, id));
        assert(ladder_qty(r) == queue_qty(r[0].orders) + ladder_qty(r.drop_first()));
    }
}

/// A fill keeps nothing findable that was not findable before.
pub proof fn lemma_fill_find_back(side: Side, l: Seq<LevelView>, dir: Side, taker: Order, p: i64, id: u64)
    requires
        ladder_wf(side, l),
        can_match(l, dir, taker),
        ladder_find(ladder_after_fill(l, taker), p, id) is Some,
    ensures
        ladder_find(l, p, id) is Some,
{
    let q = l[0].orders;
    let m = q[0];
    let a = ladder_after_fill(l, taker);
    let left = sat_sub(m.qty.0, taker.qty.0);
    if left > 0 {
        let q2 = q.update(0, Order { qty: Qty(left), ..m });
        assert(q2.drop_first() =~= q.drop_first());
        assert(a.drop_first() =~= l.drop_first());
    } else if q.len() == 1 {
        if p == l[0].price && l.len() > 1 {
            assert(better(side, l[0].price, l[1].price));
            lemma_find_absent_price(l.drop_first(), side, p, id);
        } else if p == l[0].price {
            assert(a.len() == 0);
        }
    } else {
        assert(a.drop_first() =~= l.drop_first());
    }
}

/// Every execution of a sweep is against an order that rested, before the
/// sweep, at the execution's price: a fill is at its maker's price. The first
/// execution is against the oldest order of the best level.
pub proof fn lemma_sweep_makers(side: Side, l: Seq<LevelView>, dir: Side, taker: Order)
    requires
        ladder_wf(side, l),
    ensures
        forall|k: int|
            0 <= k < sweep(l, dir, taker).trades.len() ==> ladder_find(
                l,
                (#[trigger] sweep(l, dir, taker).trades[k]).price.0,
                sweep(l, dir, taker).trades[k].maker.0,
            ) is Some,
        sweep(l, dir, taker).trades.len() > 0 ==> sweep(l, dir, taker).trades[0].maker
            == l[0].orders[0].id && sweep(l, dir, taker).trades[0].price.0 == l[0].price,
    decreases l.len(), (if l.len() > 0 {
        l[0].orders.len()
    } else {
        0
    }), taker.qty.0,
{
    if can_match(l, dir, taker) {
        let maker = l[0].orders[0];
        let next_taker = Order { qty: Qty(sat_sub(taker.qty.0, maker.qty.0)), ..taker };
        let after = ladder_after_fill(l, taker);
        lemma_after_fill_wf(side, l, taker);
        lemma_sweep_makers(side, after, dir, next_taker);
        let s = sweep(l, dir, taker);
        let rest = sweep(after, dir, next_taker);
        assert forall|k: int| 0 <= k < s.trades.len() implies ladder_find(
            l,
            (#[trigger] s.trades[k]).price.0,
            s.trades[k].maker.0,
        ) is Some by {
            if k > 0 {
                assert(s.trades[k] == rest.trades[k - 1]);
                lemma_fill_find_back(side, l, dir, taker, s.trades[k].price.0, s.trades[k].maker.0);
            } else {
                assert(s.trades[0] == front_trade(l, taker));
                assert(queue_find(l[0].orders, maker.id.0) == Some(maker));
            }
        }
    }
}

/// The orders of the first level at price `p`, if there is one.
pub open spec fn level_at(l: Seq<LevelView>, p: i64) -> Option<Seq<Order>>
    decreases l.len(),
{
    if l.len() == 0 {
        None
    } else if l[0].price == p {
        Some(l[0].orders)
    } else {
        level_at(l.drop_first(), p)
    }
}

proof fn lemma_level_absent(side: Side, l: Seq<LevelView>, p: i64)
    requires
        ladder_wf(side, l),
        l.len() > 0 ==> better(side, p, l[0].price),
    ensures
        level_at(l, p) is None,
    decreases l.len(),
{
    if l.len() > 0 {
        let t = l.drop_first();
        if t.len() > 0 {
            assert(better(side, l[0].price, l[1].price));
        }
        assert forall|i: int, j: int| 0 <= i < j < t.len() implies better(side, t[i].price, t[j].price) by {
            assert(t[i] == l[i + 1] && t[j] == l[j + 1]);
        }
        assert forall|i: int| 0 <= i < t.len() implies level_wf(side, #[trigger] t[i]) by {
            assert(t[i] == l[i + 1]);
        }
        lemma_level_absent(side, t, p);
    }
}

/// Resting an order appends it to the back of the queue at its price (or opens
/// that level with it alone), and leaves every other price's queue as it was.
pub proof fn lemma_insert_appends(l: Seq<LevelView>, o: Order)
    requires
        ladder_wf(o.side, l),
    ensures
        level_at(ladder_insert(l, o), o.price.0) == Some(
            match level_at(l, o.price.0) {
                Some(q) => q.push(o),
                None => seq![o],
            },
        ),
        forall|p: i64| p != o.price.0 ==> #[trigger] level_at(ladder_insert(l, o), p) == level_at(l, p),
    decreases l.len(),
{
    let r = ladder_insert(l, o);
    if l.len() == 0 {
        assert(r.drop_first().len() == 0);
        assert forall|p: i64| p != o.price.0 implies #[trigger] level_at(r, p) == level_at(l, p) by {
            assert(level_at(r.drop_first(), p) is None);
        }
    } else if l[0].price == o.price.0 {
        assert(r.drop_first() =~= l.drop_first());
        assert forall|p: i64| p != o.price.0 implies #[trigger] level_at(r, p) == level_at(l, p) by {
            assert(level_at(r, p) == level_at(r.drop_first(), p));
        }
    } else if better(o.side, o.price.0, l[0].price) {
        assert(r.drop_first() =~= l);
        lemma_level_absent(o.side, l, o.price.0);
        assert forall|p: i64| p != o.price.0 implies #[trigger] level_at(r, p) == level_at(l, p) by {
            assert(level_at(r, p) == level_at(r.drop_first(), p));
        }
    } else {
        let t = l.drop_first();
        assert forall|i: int, j: int| 0 <= i < j < t.len() implies better(o.side, t[i].price, t[j].price) by {
            assert(t[i] == l[i + 1] && t[j] == l[j + 1]);
        }
        assert forall|i: int| 0 <= i < t.len() implies level_wf(o.side, #[trigger] t[i]) by {
            assert(t[i] == l[i + 1]);
        }
        lemma_insert_appends(t, o);
        assert(r.drop_first() =~= ladder_insert(t, o));
        assert forall|p: i64| p != o.price.0 implies #[trigger] level_at(r, p) == level_at(l, p) by {
            if p != l[0].price {
                assert(level_at(r, p) == level_at(ladder_insert(t, o), p));
                assert(level_at(ladder_insert(t, o), p) == level_at(t, p));
            }
        }
    }
}

} // verus!
