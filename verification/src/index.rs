//! Identities on a ladder: which orders rest under which identity, and how
//! inserting, removing and filling keep identities distinct.
use vstd::prelude::*;

use crate::ladder::{
    better, can_match, ladder_after_fill, ladder_find, ladder_insert, ladder_remove, ladder_wf,
    lemma_after_fill_wf, queue_find, queue_remove, sat_sub, sweep, LevelView,
};
use crate::types::{Price, Qty, Side};
use crate::types::Order;

verus! {

/// Every resting order satisfies `pred`, given the price of its level.
pub open spec fn ladder_all(l: Seq<LevelView>, pred: spec_fn(i64, Order) -> bool) -> bool {
    forall|i: int, k: int|
        #![trigger l[i].orders[k]]
        0 <= i < l.len() && 0 <= k < l[i].orders.len() ==> pred(l[i].price, l[i].orders[k])
}

/// Every order of a queue satisfies `pred`.
pub open spec fn queue_all(q: Seq<Order>, pred: spec_fn(Order) -> bool) -> bool {
    forall|k: int| 0 <= k < q.len() ==> pred(#[trigger] q[k])
}

/// No two orders of a queue share an identity.
pub open spec fn queue_distinct(q: Seq<Order>) -> bool {
    forall|j: int, k: int| 0 <= j < k < q.len() ==> (#[trigger] q[j]).id != (#[trigger] q[k]).id
}

/// No two orders of a level share an identity.
pub open spec fn ladder_distinct(l: Seq<LevelView>) -> bool {
    forall|i: int| 0 <= i < l.len() ==> queue_distinct(#[trigger] l[i].orders)
}

/// An order of identity `id` may rest only at price `p`.
pub open spec fn id_only_at(id: u64, p: i64) -> spec_fn(i64, Order) -> bool {
    |q: i64, x: Order| x.id.0 == id ==> q == p
}

/// The order is not of identity `id`.
pub open spec fn id_other(id: u64) -> spec_fn(i64, Order) -> bool {
    |q: i64, x: Order| x.id.0 != id
}

/// What holds of every resting order, and implies another property, gives it.
pub proof fn lemma_all_weaken(
    l: Seq<LevelView>,
    pred: spec_fn(i64, Order) -> bool,
    weaker: spec_fn(i64, Order) -> bool,
)
    requires
        ladder_all(l, pred),
        forall|p: i64, x: Order| #[trigger] pred(p, x) ==> weaker(p, x),
    ensures
        ladder_all(l, weaker),
{
    assert forall|i: int, k: int| 0 <= i < l.len() && 0 <= k < l[i].orders.len() implies weaker(
        l[i].price,
        #[trigger] l[i].orders[k],
    ) by {
        assert(pred(l[i].price, l[i].orders[k]));
    }
}

/// Two properties of every resting order give what they imply together.
pub proof fn lemma_all_combine(
    l: Seq<LevelView>,
    a: spec_fn(i64, Order) -> bool,
    b: spec_fn(i64, Order) -> bool,
    c: spec_fn(i64, Order) -> bool,
)
    requires
        ladder_all(l, a),
        ladder_all(l, b),
        forall|p: i64, x: Order| #[trigger] a(p, x) && b(p, x) ==> c(p, x),
    ensures
        ladder_all(l, c),
{
    assert forall|i: int, k: int| 0 <= i < l.len() && 0 <= k < l[i].orders.len() implies c(
        l[i].price,
        #[trigger] l[i].orders[k],
    ) by {
        assert(a(l[i].price, l[i].orders[k]));
        assert(b(l[i].price, l[i].orders[k]));
    }
}

/// Inserting an order that satisfies `pred` into a ladder whose orders all do
/// gives a ladder whose orders all do.
pub proof fn lemma_insert_all(l: Seq<LevelView>, o: Order, pred: spec_fn(i64, Order) -> bool)
    requires
        ladder_all(l, pred),
        pred(o.price.0, o),
    ensures
        ladder_all(ladder_insert(l, o), pred),
    decreases l.len(),
{
    let r = ladder_insert(l, o);
    if l.len() == 0 {
    } else if l[0].price == o.price.0 {
        assert forall|i: int, k: int| 0 <= i < r.len() && 0 <= k < r[i].orders.len() implies pred(
            r[i].price,
            #[trigger] r[i].orders[k],
        ) by {
            if i == 0 && k < l[0].orders.len() {
                assert(r[0].orders[k] == l[0].orders[k]);
            } else if i > 0 {
                assert(r[i] == l[i]);
            }
        }
    } else if better(o.side, o.price.0, l[0].price) {
        assert forall|i: int, k: int| 0 <= i < r.len() && 0 <= k < r[i].orders.len() implies pred(
            r[i].price,
            #[trigger] r[i].orders[k],
        ) by {
            if i > 0 {
                assert(r[i] == l[i - 1]);
            }
        }
    } else {
        let t = l.drop_first();
        assert forall|i: int, k: int| 0 <= i < t.len() && 0 <= k < t[i].orders.len() implies pred(
            t[i].price,
            #[trigger] t[i].orders[k],
        ) by {
            assert(t[i] == l[i + 1]);
        }
        lemma_insert_all(t, o, pred);
        let rt = ladder_insert(t, o);
        assert forall|i: int, k: int| 0 <= i < r.len() && 0 <= k < r[i].orders.len() implies pred(
            r[i].price,
            #[trigger] r[i].orders[k],
        ) by {
            if i > 0 {
                assert(r[i] == rt[i - 1]);
            }
        }
    }
}

/// Inserting an order whose identity rests nowhere keeps identities distinct
/// within every level.
pub proof fn lemma_insert_distinct(l: Seq<LevelView>, o: Order)
    requires
        ladder_distinct(l),
        ladder_all(l, id_other(o.id.0)),
    ensures
        ladder_distinct(ladder_insert(l, o)),
    decreases l.len(),
{
    let r = ladder_insert(l, o);
    if l.len() == 0 {
    } else if l[0].price == o.price.0 {
        let q = l[0].orders;
        assert(queue_distinct(q));
        assert(queue_distinct(q.push(o))) by {
            assert forall|j: int, k: int| 0 <= j < k < q.push(o).len() implies (#[trigger] q.push(
                o,
            )[j]).id != (#[trigger] q.push(o)[k]).id by {
                if k == q.len() {
                    assert(id_other(o.id.0)(l[0].price, l[0].orders[j]));
                }
            }
        }
        assert forall|i: int| 0 <= i < r.len() implies queue_distinct(#[trigger] r[i].orders) by {
            if i > 0 {
                assert(r[i] == l[i]);
            }
        }
    } else if better(o.side, o.price.0, l[0].price) {
        assert forall|i: int| 0 <= i < r.len() implies queue_distinct(#[trigger] r[i].orders) by {
            if i > 0 {
                assert(r[i] == l[i - 1]);
            }
        }
    } else {
        let t = l.drop_first();
        assert forall|i: int, k: int| 0 <= i < t.len() && 0 <= k < t[i].orders.len() implies id_other(
            o.id.0,
        )(t[i].price, #[trigger] t[i].orders[k]) by {
            assert(t[i] == l[i + 1]);
        }
        assert forall|i: int| 0 <= i < t.len() implies queue_distinct(#[trigger] t[i].orders) by {
            assert(t[i] == l[i + 1]);
        }
        lemma_insert_distinct(t, o);
        let rt = ladder_insert(t, o);
        assert forall|i: int| 0 <= i < r.len() implies queue_distinct(#[trigger] r[i].orders) by {
            if i > 0 {
                assert(r[i] == rt[i - 1]);
            }
        }
    }
}

/// Taking an order out of a queue keeps what held of every order.
pub proof fn lemma_queue_remove_all(q: Seq<Order>, id: u64, pred: spec_fn(Order) -> bool)
    requires
        queue_all(q, pred),
    ensures
        queue_all(queue_remove(q, id), pred),
    decreases q.len(),
{
    if q.len() > 0 && q[0].id.0 != id {
        let t = q.drop_first();
        assert forall|k: int| 0 <= k < t.len() implies pred(#[trigger] t[k]) by {
            assert(t[k] == q[k + 1]);
        }
        lemma_queue_remove_all(t, id, pred);
        let r = queue_remove(q, id);
        assert forall|k: int| 0 <= k < r.len() implies pred(#[trigger] r[k]) by {
            if k > 0 {
                assert(r[k] == queue_remove(t, id)[k - 1]);
            }
        }
    } else if q.len() > 0 {
        let r = queue_remove(q, id);
        assert forall|k: int| 0 <= k < r.len() implies pred(#[trigger] r[k]) by {
            assert(r[k] == q[k + 1]);
        }
    }
}

/// Taking an order out of a queue keeps its identities distinct; with distinct
/// identities, no order of identity `id` is left.
pub proof fn lemma_queue_remove_distinct(q: Seq<Order>, id: u64)
    requires
        queue_distinct(q),
    ensures
        queue_distinct(queue_remove(q, id)),
        queue_all(queue_remove(q, id), |x: Order| x.id.0 != id),
    decreases q.len(),
{
    if q.len() > 0 {
        let t = q.drop_first();
        assert forall|j: int, k: int| 0 <= j < k < t.len() implies (#[trigger] t[j]).id != (
        #[trigger] t[k]).id by {
            assert(t[j] == q[j + 1] && t[k] == q[k + 1]);
        }
        let r = queue_remove(q, id);
        if q[0].id.0 == id {
            assert forall|j: int, k: int| 0 <= j < k < r.len() implies (#[trigger] r[j]).id != (
            #[trigger] r[k]).id by {
                assert(r[j] == q[j + 1] && r[k] == q[k + 1]);
            }
            assert forall|k: int| 0 <= k < r.len() implies (|x: Order| x.id.0 != id)(
                #[trigger] r[k],
            ) by {
                assert(r[k] == q[k + 1]);
                assert(q[0].id != q[k + 1].id);
            }
        } else {
            lemma_queue_remove_distinct(t, id);
            let rt = queue_remove(t, id);
            let other = |x: Order| x.id != q[0].id;
            assert forall|k: int| 0 <= k < t.len() implies other(#[trigger] t[k]) by {
                assert(t[k] == q[k + 1]);
                assert(q[0].id != q[k + 1].id);
            }
            lemma_queue_remove_all(t, id, other);
            assert forall|j: int, k: int| 0 <= j < k < r.len() implies (#[trigger] r[j]).id != (
            #[trigger] r[k]).id by {
                assert(r[k] == rt[k - 1]);
                if j > 0 {
                    assert(r[j] == rt[j - 1]);
                } else {
                    assert(other(rt[k - 1]));
                }
            }
            assert forall|k: int| 0 <= k < r.len() implies (|x: Order| x.id.0 != id)(
                #[trigger] r[k],
            ) by {
                if k > 0 {
                    assert(r[k] == rt[k - 1]);
                }
            }
        }
    }
}

/// Taking an order out keeps what held of every resting order.
pub proof fn lemma_remove_all(
    l: Seq<LevelView>,
    p: i64,
    id: u64,
    pred: spec_fn(i64, Order) -> bool,
)
    requires
        ladder_all(l, pred),
    ensures
        ladder_all(ladder_remove(l, p, id), pred),
    decreases l.len(),
{
    let r = ladder_remove(l, p, id);
    if l.len() == 0 {
    } else if l[0].price == p {
        let q = l[0].orders;
        let qp = |x: Order| pred(p, x);
        assert forall|k: int| 0 <= k < q.len() implies qp(#[trigger] q[k]) by {
            assert(pred(l[0].price, l[0].orders[k]));
        }
        lemma_queue_remove_all(q, id, qp);
        let q2 = queue_remove(q, id);
        assert forall|i: int, k: int| 0 <= i < r.len() && 0 <= k < r[i].orders.len() implies pred(
            r[i].price,
            #[trigger] r[i].orders[k],
        ) by {
            if q2.len() == 0 {
                assert(r[i] == l[i + 1]);
            } else if i > 0 {
                assert(r[i] == l[i]);
            } else {
                assert(qp(q2[k]));
            }
        }
    } else {
        let t = l.drop_first();
        assert forall|i: int, k: int| 0 <= i < t.len() && 0 <= k < t[i].orders.len() implies pred(
            t[i].price,
            #[trigger] t[i].orders[k],
        ) by {
            assert(t[i] == l[i + 1]);
        }
        lemma_remove_all(t, p, id, pred);
        let rt = ladder_remove(t, p, id);
        assert forall|i: int, k: int| 0 <= i < r.len() && 0 <= k < r[i].orders.len() implies pred(
            r[i].price,
            #[trigger] r[i].orders[k],
        ) by {
            if i > 0 {
                assert(r[i] == rt[i - 1]);
            }
        }
    }
}

/// Taking an order out keeps identities distinct within every level; when the
/// identity rests only at price `p`, none of it is left.
pub proof fn lemma_remove_distinct(side: Side, l: Seq<LevelView>, p: i64, id: u64)
    requires
        ladder_wf(side, l),
        ladder_distinct(l),
        ladder_all(l, id_only_at(id, p)),
    ensures
        ladder_distinct(ladder_remove(l, p, id)),
        ladder_all(ladder_remove(l, p, id), id_other(id)),
    decreases l.len(),
{
    let r = ladder_remove(l, p, id);
    if l.len() == 0 {
    } else if l[0].price == p {
        let q = l[0].orders;
        assert(queue_distinct(q));
        lemma_queue_remove_distinct(q, id);
        let q2 = queue_remove(q, id);
        assert forall|i: int| 0 <= i < r.len() implies queue_distinct(#[trigger] r[i].orders) by {
            if q2.len() == 0 {
                assert(r[i] == l[i + 1]);
            } else if i > 0 {
                assert(r[i] == l[i]);
            }
        }
        assert forall|i: int, k: int| 0 <= i < r.len() && 0 <= k < r[i].orders.len() implies id_other(
            id,
        )(r[i].price, #[trigger] r[i].orders[k]) by {
            if q2.len() == 0 || i > 0 {
                let j = if q2.len() == 0 {
                    i + 1
                } else {
                    i
                };
                assert(r[i] == l[j]);
                assert(better(side, l[0].price, l[j].price));
                assert(id_only_at(id, p)(l[j].price, l[j].orders[k]));
            } else {
                assert((|x: Order| x.id.0 != id)(q2[k]));
            }
        }
    } else {
        let t = l.drop_first();
        assert forall|i: int, j: int| 0 <= i < j < t.len() implies better(
            side,
            t[i].price,
            t[j].price,
        ) by {
            assert(t[i] == l[i + 1] && t[j] == l[j + 1]);
        }
        assert forall|i: int| 0 <= i < t.len() implies crate::ladder::level_wf(
            side,
            #[trigger] t[i],
        ) by {
            assert(t[i] == l[i + 1]);
        }
        assert forall|i: int| 0 <= i < t.len() implies queue_distinct(#[trigger] t[i].orders) by {
            assert(t[i] == l[i + 1]);
        }
        assert forall|i: int, k: int| 0 <= i < t.len() && 0 <= k < t[i].orders.len() implies id_only_at(
            id,
            p,
        )(t[i].price, #[trigger] t[i].orders[k]) by {
            assert(t[i] == l[i + 1]);
        }
        lemma_remove_distinct(side, t, p, id);
        let rt = ladder_remove(t, p, id);
        assert forall|i: int| 0 <= i < r.len() implies queue_distinct(#[trigger] r[i].orders) by {
            if i > 0 {
                assert(r[i] == rt[i - 1]);
            }
        }
        assert forall|i: int, k: int| 0 <= i < r.len() && 0 <= k < r[i].orders.len() implies id_other(
            id,
        )(r[i].price, #[trigger] r[i].orders[k]) by {
            if i > 0 {
                assert(r[i] == rt[i - 1]);
            } else {
                assert(id_only_at(id, p)(l[0].price, l[0].orders[k]));
            }
        }
    }
}

/// In a queue of distinct identities, an order is the one found by its identity.
pub proof fn lemma_queue_find_at(q: Seq<Order>, k: int)
    requires
        queue_distinct(q),
        0 <= k < q.len(),
    ensures
        queue_find(q, q[k].id.0) == Some(q[k]),
    decreases k,
{
    if k > 0 {
        let t = q.drop_first();
        assert(q[0].id != q[k].id);
        assert forall|j: int, m: int| 0 <= j < m < t.len() implies (#[trigger] t[j]).id != (
        #[trigger] t[m]).id by {
            assert(t[j] == q[j + 1] && t[m] == q[m + 1]);
        }
        assert(t[k - 1] == q[k]);
        lemma_queue_find_at(t, k - 1);
    }
}

/// A resting order is the one found by its price and identity.
pub proof fn lemma_find_resting(side: Side, l: Seq<LevelView>, i: int, k: int)
    requires
        ladder_wf(side, l),
        ladder_distinct(l),
        0 <= i < l.len(),
        0 <= k < l[i].orders.len(),
    ensures
        ladder_find(l, l[i].price, l[i].orders[k].id.0) == Some(l[i].orders[k]),
    decreases i,
{
    if i == 0 {
        assert(queue_distinct(l[0].orders));
        lemma_queue_find_at(l[0].orders, k);
    } else {
        let t = l.drop_first();
        assert(better(side, l[0].price, l[i].price));
        assert forall|a: int, b: int| 0 <= a < b < t.len() implies better(
            side,
            t[a].price,
            t[b].price,
        ) by {
            assert(t[a] == l[a + 1] && t[b] == l[b + 1]);
        }
        assert forall|a: int| 0 <= a < t.len() implies crate::ladder::level_wf(
            side,
            #[trigger] t[a],
        ) by {
            assert(t[a] == l[a + 1]);
        }
        assert forall|a: int| 0 <= a < t.len() implies queue_distinct(#[trigger] t[a].orders) by {
            assert(t[a] == l[a + 1]);
        }
        assert(t[i - 1] == l[i]);
        lemma_find_resting(side, t, i - 1, k);
    }
}

/// The order has quantity left and is indexed under its identity at the price
/// of its level and at `side`.
pub open spec fn indexed_at(locs: Map<u64, (Price, Side)>, side: Side) -> spec_fn(
    i64,
    Order,
) -> bool {
    |p: i64, x: Order|
        x.qty.0 > 0 && locs.contains_key(x.id.0) && locs[x.id.0] == (Price(p), side)
}

/// One execution keeps every resting order indexed (a maker that leaves
/// leaves the index) and identities distinct.
pub proof fn lemma_fill_indexed(
    side: Side,
    l: Seq<LevelView>,
    dir: Side,
    t: Order,
    locs: Map<u64, (Price, Side)>,
)
    requires
        ladder_wf(side, l),
        ladder_distinct(l),
        ladder_all(l, indexed_at(locs, side)),
        can_match(l, dir, t),
    ensures
        ladder_distinct(ladder_after_fill(l, t)),
        ladder_all(
            ladder_after_fill(l, t),
            indexed_at(
                if sat_sub(l[0].orders[0].qty.0, t.qty.0) > 0 {
                    locs
                } else {
                    locs.remove(l[0].orders[0].id.0)
                },
                side,
            ),
        ),
        locs.contains_key(l[0].orders[0].id.0),
        locs[l[0].orders[0].id.0].1 == side,
{
    let q = l[0].orders;
    let m = q[0];
    let a = ladder_after_fill(l, t);
    let left = sat_sub(m.qty.0, t.qty.0);
    let loc2 = if left > 0 {
        locs
    } else {
        locs.remove(m.id.0)
    };
    assert(indexed_at(locs, side)(l[0].price, l[0].orders[0]));
    assert(queue_distinct(q));
    if left > 0 {
        let q2 = q.update(0, Order { qty: Qty(left), ..m });
        assert(a[0].orders == q2);
        assert forall|i: int| 0 <= i < a.len() implies queue_distinct(#[trigger] a[i].orders) by {
            if i > 0 {
                assert(a[i] == l[i]);
            } else {
                assert forall|j: int, k: int| 0 <= j < k < q2.len() implies (#[trigger] q2[j]).id
                    != (#[trigger] q2[k]).id by {
                    assert(q2[j].id == q[j].id && q2[k].id == q[k].id);
                }
            }
        }
        assert forall|i: int, k: int| 0 <= i < a.len() && 0 <= k < a[i].orders.len() implies indexed_at(
            loc2,
            side,
        )(a[i].price, #[trigger] a[i].orders[k]) by {
            if i > 0 {
                assert(a[i] == l[i]);
                assert(indexed_at(locs, side)(l[i].price, l[i].orders[k]));
            } else if k > 0 {
                assert(a[0].orders[k] == q[k]);
                assert(indexed_at(locs, side)(l[0].price, l[0].orders[k]));
            }
        }
    } else {
        let keep = |i: int| if q.len() == 1 {
            i + 1
        } else {
            i
        };
        assert forall|i: int, k: int| 0 <= i < a.len() && 0 <= k < a[i].orders.len() implies indexed_at(
            loc2,
            side,
        )(a[i].price, #[trigger] a[i].orders[k]) by {
            if q.len() == 1 || i > 0 {
                let j = keep(i);
                assert(a[i] == l[j]);
                assert(indexed_at(locs, side)(l[j].price, l[j].orders[k]));
                assert(better(side, l[0].price, l[j].price));
            } else {
                assert(a[0].orders[k] == q[k + 1]);
                assert(indexed_at(locs, side)(l[0].price, l[0].orders[k + 1]));
                assert(q[0].id != q[k + 1].id);
            }
        }
        assert forall|i: int| 0 <= i < a.len() implies queue_distinct(#[trigger] a[i].orders) by {
            if q.len() == 1 || i > 0 {
                assert(a[i] == l[keep(i)]);
            } else {
                let q2 = q.drop_first();
                assert forall|j: int, k: int| 0 <= j < k < q2.len() implies (#[trigger] q2[j]).id
                    != (#[trigger] q2[k]).id by {
                    assert(q2[j] == q[j + 1] && q2[k] == q[k + 1]);
                }
            }
        }
    }
}

/// A sweep keeps every resting order indexed once the filled makers leave the
/// index, keeps identities distinct, and fills only makers indexed on the
/// swept side.
pub proof fn lemma_sweep_indexed(
    side: Side,
    l: Seq<LevelView>,
    dir: Side,
    t: Order,
    locs: Map<u64, (Price, Side)>,
)
    requires
        ladder_wf(side, l),
        ladder_distinct(l),
        ladder_all(l, indexed_at(locs, side)),
    ensures
        ladder_distinct(sweep(l, dir, t).ladder),
        ladder_all(sweep(l, dir, t).ladder, indexed_at(locs.remove_keys(sweep(l, dir, t).filled), side)),
        forall|f: u64| #[trigger]
            sweep(l, dir, t).filled.contains(f) ==> locs.contains_key(f) && locs[f].1 == side,
    decreases l.len(), (if l.len() > 0 {
        l[0].orders.len()
    } else {
        0
    }), t.qty.0,
{
    let s = sweep(l, dir, t);
    if can_match(l, dir, t) {
        let m = l[0].orders[0];
        let next_taker = Order { qty: Qty(sat_sub(t.qty.0, m.qty.0)), ..t };
        let after = ladder_after_fill(l, t);
        let left = sat_sub(m.qty.0, t.qty.0);
        let loc2 = if left > 0 {
            locs
        } else {
            locs.remove(m.id.0)
        };
        lemma_fill_indexed(side, l, dir, t, locs);
        lemma_after_fill_wf(side, l, t);
        lemma_sweep_indexed(side, after, dir, next_taker, loc2);
        let rest = sweep(after, dir, next_taker);
        if left == 0 {
            assert(locs.remove_keys(s.filled) =~= loc2.remove_keys(rest.filled));
        }
    } else {
        assert(locs.remove_keys(s.filled) =~= locs);
    }
}

/// An order found by price and identity rests there, so it satisfies what
/// every resting order does.
pub proof fn lemma_find_all(l: Seq<LevelView>, p: i64, id: u64, pred: spec_fn(i64, Order) -> bool)
    requires
        ladder_all(l, pred),
        ladder_find(l, p, id) is Some,
    ensures
        pred(p, ladder_find(l, p, id)->Some_0),
        (ladder_find(l, p, id)->Some_0).id.0 == id,
    decreases l.len(),
{
    if l[0].price == p {
        lemma_queue_find_in(l[0].orders, id);
        let k = choose|k: int| 0 <= k < l[0].orders.len() && l[0].orders[k] == queue_find(l[0].orders, id)->Some_0;
        assert(pred(l[0].price, l[0].orders[k]));
    } else {
        let t = l.drop_first();
        assert forall|i: int, k: int| 0 <= i < t.len() && 0 <= k < t[i].orders.len() implies pred(
            t[i].price,
            #[trigger] t[i].orders[k],
        ) by {
            assert(t[i] == l[i + 1]);
        }
        lemma_find_all(t, p, id, pred);
    }
}

/// An order found in a queue is one of its orders, of that identity.
pub proof fn lemma_queue_find_in(q: Seq<Order>, id: u64)
    requires
        queue_find(q, id) is Some,
    ensures
        exists|k: int| 0 <= k < q.len() && q[k] == queue_find(q, id)->Some_0,
        (queue_find(q, id)->Some_0).id.0 == id,
    decreases q.len(),
{
    if q[0].id.0 != id {
        let t = q.drop_first();
        lemma_queue_find_in(t, id);
        let k = choose|k: int| 0 <= k < t.len() && t[k] == queue_find(t, id)->Some_0;
        assert(q[k + 1] == t[k]);
    } else {
        assert(q[0] == queue_find(q, id)->Some_0);
    }
}

} // verus!
