use matching_engine::engine::Engine;
use matching_engine::types::{Command, Event, Order, OrderId, Price, Qty, RejectReason, Side, Trade};

fn order(id: u64, side: Side, price: i64, qty: u64) -> Order {
    Order {
        id: OrderId(id),
        side,
        price: Price(price),
        qty: Qty(qty),
    }
}

fn fill(taker: u64, maker: u64, taker_side: Side, price: i64, qty: u64) -> Event {
    Event::Fill(Trade {
        taker: OrderId(taker),
        maker: OrderId(maker),
        taker_side,
        price: Price(price),
        qty: Qty(qty),
    })
}

#[test]
fn resting_order_emits_only_accepted() {
    let mut eng = Engine::new();
    let mut out = Vec::new();
    eng.apply(Command::NewOrder(order(1, Side::Buy, 100, 10)), &mut out);
    assert_eq!(out, vec![Event::Accepted(OrderId(1))]);
}

#[test]
fn full_fill_emits_accepted_then_one_fill() {
    let mut eng = Engine::new();
    let mut out = Vec::new();
    eng.apply(Command::NewOrder(order(1, Side::Sell, 100, 10)), &mut out);
    out.clear();
    eng.apply(Command::NewOrder(order(2, Side::Buy, 100, 10)), &mut out);
    assert_eq!(
        out,
        vec![Event::Accepted(OrderId(2)), fill(2, 1, Side::Buy, 100, 10)]
    );
}

#[test]
fn partial_fill_emits_accepted_and_one_fill() {
    let mut eng = Engine::new();
    let mut out = Vec::new();
    eng.apply(Command::NewOrder(order(1, Side::Sell, 100, 10)), &mut out);
    out.clear();
    eng.apply(Command::NewOrder(order(2, Side::Buy, 100, 15)), &mut out);
    assert_eq!(
        out,
        vec![Event::Accepted(OrderId(2)), fill(2, 1, Side::Buy, 100, 10)]
    );
}

#[test]
fn sweeps_two_levels_emits_two_fills() {
    let mut eng = Engine::new();
    let mut out = Vec::new();
    eng.apply(Command::NewOrder(order(1, Side::Sell, 100, 5)), &mut out);
    eng.apply(Command::NewOrder(order(2, Side::Sell, 101, 5)), &mut out);
    out.clear();
    eng.apply(Command::NewOrder(order(3, Side::Buy, 101, 10)), &mut out);
    assert_eq!(
        out,
        vec![
            Event::Accepted(OrderId(3)),
            fill(3, 1, Side::Buy, 100, 5),
            fill(3, 2, Side::Buy, 101, 5),
        ]
    );
}

#[test]
fn cancel_existing_emits_canceled() {
    let mut eng = Engine::new();
    let mut out = Vec::new();
    eng.apply(Command::NewOrder(order(1, Side::Buy, 100, 10)), &mut out);
    out.clear();
    eng.apply(Command::CancelOrder(OrderId(1)), &mut out);
    assert_eq!(out, vec![Event::Canceled(OrderId(1))]);
}

#[test]
fn cancel_missing_emits_rejected() {
    let mut eng = Engine::new();
    let mut out = Vec::new();
    eng.apply(Command::CancelOrder(OrderId(999)), &mut out);
    assert_eq!(
        out,
        vec![Event::Rejected(OrderId(999), RejectReason::OrderNotFound)]
    );
}

#[test]
fn noop_emits_nothing() {
    let mut eng = Engine::new();
    let mut out = Vec::new();
    eng.apply(Command::Noop, &mut out);
    assert!(out.is_empty());
}

#[test]
fn buy_remainder_rests_and_can_be_hit() {
    let mut eng = Engine::new();
    let mut out = Vec::new();
    eng.apply(Command::NewOrder(order(1, Side::Sell, 100, 10)), &mut out);
    eng.apply(Command::NewOrder(order(2, Side::Buy, 100, 15)), &mut out);
    out.clear();
    eng.apply(Command::NewOrder(order(3, Side::Sell, 100, 5)), &mut out);
    assert_eq!(
        out,
        vec![Event::Accepted(OrderId(3)), fill(3, 2, Side::Sell, 100, 5),]
    );
}
