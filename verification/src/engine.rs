//! The single-writer matching core: risk, then matching, then events.
use vstd::prelude::*;

use crate::order_book::{
    lemma_cancel_keeps_indexed, lemma_cancel_keeps_uncrossed, lemma_matched_keeps_indexed,
    lemma_resting_can_be_canceled, lemma_submit_keeps_uncrossed, BookView, OrderBook,
};
use crate::risk::Risk;
use crate::ladder::{
    crosses, ladder_find, ladder_wf, lemma_sweep_accounting, lemma_sweep_makers, opposite,
};
use crate::types::{Command, Event, Order, Price, RejectReason, Side, Trade};

verus! {

/// The mathematical model of the engine.
pub ghost struct EngineView {
    pub book: BookView,
    /// The risk limit on order quantity.
    pub max_qty: u64,
}

/// The fill events of a sequence of trades, in order.
pub open spec fn fills(trades: Seq<Trade>) -> Seq<Event> {
    trades.map_values(|t: Trade| Event::Fill(t))
}

/// What one command does to the engine, and the events it emits.
pub open spec fn apply_spec(v: EngineView, cmd: Command) -> (EngineView, Seq<Event>) {
    match cmd {
        Command::Noop => (v, seq![]),
        Command::ShutDown => (v, seq![]),
        Command::CancelOrder(id) => {
            let ev = match v.book.canceled(id.0) {
                Some(o) => Event::Canceled(o.id),
                None => Event::Rejected(id, RejectReason::OrderNotFound),
            };
            (EngineView { book: v.book.cancel(id.0), ..v }, seq![ev])
        },
        Command::NewOrder(order) => {
            if order.qty.0 > v.max_qty {
                (v, seq![Event::Rejected(order.id, RejectReason::OrderTooLarge)])
            } else {
                (
                    EngineView { book: v.book.matched(order.side, order), ..v },
                    seq![Event::Accepted(order.id)] + fills(v.book.sweep_of(order.side, order).trades),
                )
            }
        },
    }
}

/// The state and the events of a run of commands, in order, from state `v`.
pub open spec fn replay(v: EngineView, cmds: Seq<Command>) -> (EngineView, Seq<Event>)
    decreases cmds.len(),
{
    if cmds.len() == 0 {
        (v, seq![])
    } else {
        let (v1, e1) = apply_spec(v, cmds[0]);
        let (v2, e2) = replay(v1, cmds.drop_first());
        (v2, e1 + e2)
    }
}

/// Replaying a journal in two parts, the rest from the state the first part
/// left, gives the state and the events of replaying it whole.
pub proof fn lemma_replay_split(v: EngineView, a: Seq<Command>, b: Seq<Command>)
    ensures
        replay(v, a + b) == (replay(replay(v, a).0, b).0, replay(v, a).1 + replay(
            replay(v, a).0,
            b,
        ).1),
    decreases a.len(),
{
    if a.len() == 0 {
        assert(a + b =~= b);
        assert(replay(v, a).1 + replay(v, b).1 =~= replay(v, b).1);
    } else {
        let (v1, e1) = apply_spec(v, a[0]);
        assert((a + b).drop_first() =~= a.drop_first() + b);
        lemma_replay_split(v1, a.drop_first(), b);
        let r = replay(v1, a.drop_first());
        assert(e1 + (r.1 + replay(r.0, b).1) =~= (e1 + r.1) + replay(r.0, b).1);
    }
}

/// The engine's book is never crossed: no command leaves the best bid at or
/// above the best ask.
pub proof fn lemma_apply_keeps_uncrossed(v: EngineView, cmd: Command)
    requires
        v.book.wf(),
        v.book.uncrossed(),
    ensures
        apply_spec(v, cmd).0.book.uncrossed(),
{
    match cmd {
        Command::CancelOrder(id) => lemma_cancel_keeps_uncrossed(v.book, id.0),
        Command::NewOrder(order) => lemma_submit_keeps_uncrossed(v.book, order),
        _ => {},
    }
}

/// Every command keeps the book fully indexed, as long as each new order comes
/// with an identity the book does not track.
pub proof fn lemma_apply_keeps_indexed(v: EngineView, cmd: Command)
    requires
        v.book.indexed(),
        cmd matches Command::NewOrder(o) ==> !v.book.locations.contains_key(o.id.0),
    ensures
        apply_spec(v, cmd).0.book.indexed(),
{
    match cmd {
        Command::CancelOrder(id) => lemma_cancel_keeps_indexed(v.book, id.0),
        Command::NewOrder(order) => {
            if order.qty.0 <= v.max_qty {
                lemma_matched_keeps_indexed(v.book, order.side, order);
            }
        },
        _ => {},
    }
}

/// In a fully indexed book, a cancel of a resting order is answered `Canceled`
/// and takes that order out.
pub proof fn lemma_cancel_resting_reports_canceled(v: EngineView, side: Side, i: int, k: int)
    requires
        v.book.indexed(),
        0 <= i < v.book.ladder(side).len(),
        0 <= k < v.book.ladder(side)[i].orders.len(),
    ensures
        ({
            let id = v.book.ladder(side)[i].orders[k].id;
            &&& apply_spec(v, Command::CancelOrder(id)).1 == seq![Event::Canceled(id)]
            &&& apply_spec(v, Command::CancelOrder(id)).0.book == v.book.cancel(id.0)
        }),
{
    lemma_resting_can_be_canceled(v.book, side, i, k);
}

/// A new order within the risk limit is acknowledged, then reported by one fill
/// per execution of the book, unchanged and in order; each execution names the
/// order as taker with its side, is within its limit, and is at the price of a
/// level where its maker rested before, the first against the oldest order of
/// the best opposite level. An order over the limit is rejected and changes
/// nothing.
pub proof fn lemma_apply_new_order(v: EngineView, o: Order)
    requires
        v.book.wf(),
    ensures
        o.qty.0 > v.max_qty ==> apply_spec(v, Command::NewOrder(o)) == (
            v,
            seq![Event::Rejected(o.id, RejectReason::OrderTooLarge)],
        ),
        o.qty.0 <= v.max_qty ==> ({
            let (v2, ev) = apply_spec(v, Command::NewOrder(o));
            let tr = v.book.sweep_of(o.side, o).trades;
            let opp = v.book.ladder(opposite(o.side));
            &&& v2.book == v.book.matched(o.side, o)
            &&& ev.len() == tr.len() + 1
            &&& ev[0] == Event::Accepted(o.id)
            &&& forall|k: int|
                0 <= k < tr.len() ==> {
                    &&& ev[k + 1] == Event::Fill(#[trigger] tr[k])
                    &&& tr[k].taker == o.id
                    &&& tr[k].taker_side == o.side
                    &&& crosses(o.side, o.price.0, tr[k].price.0)
                    &&& ladder_find(opp, tr[k].price.0, tr[k].maker.0) is Some
                }
            &&& tr.len() > 0 ==> tr[0].maker == opp[0].orders[0].id && tr[0].price.0 == opp[0].price
        }),
{
    let side = opposite(o.side);
    let l = v.book.ladder(side);
    assert(ladder_wf(side, l));
    lemma_sweep_accounting(l, o.side, o);
    lemma_sweep_makers(side, l, o.side, o);
    let tr = v.book.sweep_of(o.side, o).trades;
    let ev = apply_spec(v, Command::NewOrder(o)).1;
    if o.qty.0 <= v.max_qty {
        assert forall|k: int| 0 <= k < tr.len() implies ev[k + 1] == Event::Fill(#[trigger] tr[k]) by {
            assert(ev[k + 1] == fills(tr)[k]);
        }
    }
}

/// The identity of the order a command brings, if it brings one.
pub open spec fn new_order_id(cmd: Command) -> Option<u64> {
    match cmd {
        Command::NewOrder(o) => Some(o.id.0),
        _ => None,
    }
}

/// Every new order of `cmds` has an identity that `locs` does not track and
/// that no earlier new order of `cmds` had.
pub open spec fn fresh_ids(locs: Map<u64, (Price, Side)>, cmds: Seq<Command>) -> bool {
    forall|j: int|
        0 <= j < cmds.len() && (#[trigger] new_order_id(cmds[j])) is Some ==> {
            &&& !locs.contains_key(new_order_id(cmds[j])->0)
            &&& forall|i: int| 0 <= i < j ==> new_order_id(cmds[i]) != new_order_id(cmds[j])
        }
}

/// A command tracks no identity but those tracked before and the one it brings.
pub proof fn lemma_apply_tracks(v: EngineView, cmd: Command, x: u64)
    requires
        apply_spec(v, cmd).0.book.locations.contains_key(x),
    ensures
        v.book.locations.contains_key(x) || new_order_id(cmd) == Some(x),
{
}

/// Any run of commands keeps the book fully indexed when every new order
/// brings a fresh identity.
pub proof fn lemma_replay_keeps_indexed(v: EngineView, cmds: Seq<Command>)
    requires
        v.book.indexed(),
        fresh_ids(v.book.locations, cmds),
    ensures
        replay(v, cmds).0.book.indexed(),
    decreases cmds.len(),
{
    if cmds.len() > 0 {
        let c = cmds[0];
        assert(new_order_id(cmds[0]) is Some ==> !v.book.locations.contains_key(
            new_order_id(cmds[0])->0,
        ));
        lemma_apply_keeps_indexed(v, c);
        let v1 = apply_spec(v, c).0;
        let rest = cmds.drop_first();
        assert forall|j: int| 0 <= j < rest.len() && (#[trigger] new_order_id(rest[j])) is Some implies {
            &&& !v1.book.locations.contains_key(new_order_id(rest[j])->0)
            &&& forall|i: int| 0 <= i < j ==> new_order_id(rest[i]) != new_order_id(rest[j])
        } by {
            assert(rest[j] == cmds[j + 1]);
            assert(new_order_id(cmds[j + 1]) is Some);
            assert(new_order_id(cmds[0]) != new_order_id(cmds[j + 1]));
            if v1.book.locations.contains_key(new_order_id(rest[j])->0) {
                lemma_apply_tracks(v, c, new_order_id(rest[j])->0);
            }
            assert forall|i: int| 0 <= i < j implies new_order_id(rest[i]) != new_order_id(rest[j]) by {
                assert(rest[i] == cmds[i + 1]);
            }
        }
        lemma_replay_keeps_indexed(v1, rest);
    }
}

/// The engine: one order book and its risk limits.
pub struct Engine {
    order_book: OrderBook,
    risk: Risk,
}

impl View for Engine {
    type V = EngineView;

    closed spec fn view(&self) -> EngineView {
        EngineView { book: self.order_book@, max_qty: self.risk.max_qty() }
    }
}

impl Engine {
    /// The book is well formed and never crossed.
    pub closed spec fn wf(&self) -> bool {
        &&& self.order_book.wf()
        &&& self.order_book@.uncrossed()
    }

    /// A well-formed engine's book is well formed and not crossed.
    pub proof fn lemma_wf_book(&self)
        requires
            self.wf(),
        ensures
            self@.book.wf(),
            self@.book.uncrossed(),
    {
    }

    /// An engine with an empty book and no risk limit.
    pub fn new() -> (e: Engine)
        ensures
            e.wf(),
            e@.book.wf(),
            e@.book.uncrossed(),
            e@.book.bids.len() == 0,
            e@.book.asks.len() == 0,
            e@.book.locations.is_empty(),
            e@.book.indexed(),
            e@.max_qty == u64::MAX,
    {
        Engine { order_book: OrderBook::default(), risk: Risk::default() }
    }

    /// An engine with an empty book and the given risk limits.
    pub fn with_risk(risk: Risk) -> (e: Engine)
        ensures
            e.wf(),
            e@.book.wf(),
            e@.book.uncrossed(),
            e@.book.bids.len() == 0,
            e@.book.asks.len() == 0,
            e@.book.locations.is_empty(),
            e@.book.indexed(),
            e@.max_qty == risk.max_qty(),
    {
        Engine { order_book: OrderBook::default(), risk }
    }

    /// Applies one command and appends its events to `out`: a new order is
    /// rejected when too large, else acknowledged, then matched, one fill per
    /// execution; a cancel reports the canceled order or a rejection.
    pub fn apply(&mut self, cmd: Command, out: &mut Vec<Event>)
        requires
            old(self).wf(),
        ensures
            final(self).wf(),
            final(self)@.book.wf(),
            final(self)@.book.uncrossed(),
            final(self)@ == apply_spec(old(self)@, cmd).0,
            final(out)@ == old(out)@ + apply_spec(old(self)@, cmd).1,
    {
        proof {
            lemma_apply_keeps_uncrossed(self@, cmd);
        }
        match cmd {
            Command::Noop => {
                assert(out@ =~= out@ + Seq::<Event>::empty());
            },
            Command::CancelOrder(id) => {
                let outcome = self.order_book.cancel(id);
                let event = match outcome {
                    Some(o) => Event::Canceled(o.id),
                    None => Event::Rejected(id, RejectReason::OrderNotFound),
                };
                out.push(event);
                assert(out@ =~= old(out)@ + seq![event]);
            },
            Command::NewOrder(order) => {
                if let Some(reason) = self.risk.check(&order) {
                    out.push(Event::Rejected(order.id, reason));
                    assert(out@ =~= old(out)@ + seq![Event::Rejected(order.id, reason)]);
                    return;
                }
                let trades = self.order_book.submit(order);
                out.push(Event::Accepted(order.id));
                let ghost start = out@;
                let mut i: usize = 0;
                while i < trades.len()
                    invariant
                        i <= trades.len(),
                        out@ == start + fills(trades@.take(i as int)),
                    decreases trades.len() - i,
                {
                    out.push(Event::Fill(trades[i]));
                    proof {
                        assert(fills(trades@.take(i as int + 1)) =~= fills(trades@.take(i as int)).push(
                            Event::Fill(trades@[i as int]),
                        ));
                    }
                    i = i + 1;
                }
                proof {
                    assert(trades@.take(i as int) =~= trades@);
                    assert(out@ =~= old(out)@ + (seq![Event::Accepted(order.id)] + fills(trades@)));
                }
            },
            Command::ShutDown => {
                assert(out@ =~= out@ + Seq::<Event>::empty());
            },
        }
    }

    /// One turn of the run loop: stops (returns `false`, changing nothing) on
    /// `ShutDown`; otherwise applies the command.
    pub fn process(&mut self, cmd: Command, out: &mut Vec<Event>) -> (go_on: bool)
        requires
            old(self).wf(),
        ensures
            go_on == !(cmd is ShutDown),
            final(self).wf(),
            final(self)@.book.wf(),
            final(self)@.book.uncrossed(),
            final(self)@ == apply_spec(old(self)@, cmd).0,
            final(out)@ == old(out)@ + apply_spec(old(self)@, cmd).1,
    {
        if let Command::ShutDown = cmd {
            assert(out@ =~= out@ + Seq::<Event>::empty());
            return false;
        }
        self.apply(cmd, out);
        true
    }
}

impl Default for Engine {
    fn default() -> (e: Engine)
        ensures
            e.wf(),
            e@.book.wf(),
            e@.book.uncrossed(),
            e@.book.bids.len() == 0,
            e@.book.asks.len() == 0,
            e@.book.locations.is_empty(),
            e@.book.indexed(),
            e@.max_qty == u64::MAX,
    {
        Engine::new()
    }
}

} // verus!
