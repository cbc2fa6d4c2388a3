use matching_engine::engine::Engine;
use matching_engine::risk::Risk;
use matching_engine::types::{Command, Event, Order, OrderId, Price, Qty, RejectReason, Side, Trade};

fn order(id: u64, side: Side, price: i64, qty: u64) -> Order {
    Order {
        id: OrderId(id),
        side,
        price: Price(price),
        qty: Qty(qty),
    }
}

#[test]
fn qty_checked_sub() {
    assert_eq!(Qty(10).checked_sub(Qty(4)), Some(Qty(6)));
    assert_eq!(Qty(4).checked_sub(Qty(4)), Some(Qty(0)));
    assert_eq!(Qty(4).checked_sub(Qty(10)), None);
}

#[test]
fn qty_from_i64() {
    assert_eq!(Qty::try_from(7i64), Ok(Qty(7)));
    assert_eq!(Qty::try_from(0i64), Ok(Qty(0)));
    assert_eq!(Qty::try_from(-1i64), Err(()));
}

#[test]
fn defaults() {
    assert_eq!(Qty::default(), Qty(0));
    assert_eq!(Command::default(), Command::Noop);
    assert_eq!(Event::default(), Event::Empty);
}

#[test]
fn risk_limits_order_size() {
    let risk = Risk::new(10);
    assert_eq!(risk.check(&order(1, Side::Buy, 1, 10)), None);
    assert_eq!(risk.check(&order(1, Side::Buy, 1, 11)), Some(RejectReason::OrderTooLarge));
    let open = Risk::default();
    assert_eq!(open.check(&order(1, Side::Sell, 1, u64::MAX)), None);
}

#[test]
fn oversized_order_is_rejected_without_touching_book() {
    let mut eng = Engine::with_risk(Risk::new(10));
    let mut out = Vec::new();
    for cmd in [
        Command::NewOrder(order(1, Side::Sell, 100, 10)),
        Command::NewOrder(order(2, Side::Buy, 100, 11)),
        Command::NewOrder(order(3, Side::Buy, 100, 5)),
    ] {
        eng.apply(cmd, &mut out);
    }
    assert_eq!(
        out,
        vec![
            Event::Accepted(OrderId(1)),
            Event::Rejected(OrderId(2), RejectReason::OrderTooLarge),
            Event::Accepted(OrderId(3)),
            Event::Fill(Trade {
                taker: OrderId(3),
                maker: OrderId(1),
                taker_side: Side::Buy,
                price: Price(100),
                qty: Qty(5),
            }),
        ]
    );
}

#[test]
fn process_runs_until_shutdown() {
    let mut eng = Engine::default();
    let commands = [
        Command::NewOrder(order(1, Side::Sell, 100, 10)),
        Command::NewOrder(order(2, Side::Buy, 100, 4)),
        Command::NewOrder(order(3, Side::Buy, 100, 6)),
        Command::CancelOrder(OrderId(99)),
        Command::ShutDown,
        Command::NewOrder(order(4, Side::Buy, 100, 6)),
    ];
    let mut events = Vec::new();
    for cmd in commands {
        let mut out = Vec::new();
        if !eng.process(cmd, &mut out) {
            assert!(out.is_empty());
            break;
        }
        events.extend(out);
    }
    let fill = |taker: u64, qty: u64| {
        Event::Fill(Trade {
            taker: OrderId(taker),
            maker: OrderId(1),
            taker_side: Side::Buy,
            price: Price(100),
            qty: Qty(qty),
        })
    };
    assert_eq!(
        events,
        vec![
            Event::Accepted(OrderId(1)),
            Event::Accepted(OrderId(2)),
            fill(2, 4),
            Event::Accepted(OrderId(3)),
            fill(3, 6),
            Event::Rejected(OrderId(99), RejectReason::OrderNotFound),
        ]
    );
}

#[test]
fn zero_quantity_order_is_accepted_and_does_not_rest() {
    let mut eng = Engine::new();
    let mut out = Vec::new();
    eng.apply(Command::NewOrder(order(1, Side::Buy, 100, 0)), &mut out);
    eng.apply(Command::CancelOrder(OrderId(1)), &mut out);
    assert_eq!(
        out,
        vec![
            Event::Accepted(OrderId(1)),
            Event::Rejected(OrderId(1), RejectReason::OrderNotFound)
        ]
    );
}
