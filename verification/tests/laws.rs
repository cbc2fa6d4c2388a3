use matching_engine::engine::Engine;
use matching_engine::order_book::OrderBook;
use matching_engine::types::{Command, Event, Order, OrderId, Price, Qty, Side};

fn order(id: u64, side: Side, price: i64, qty: u64) -> Order {
    Order {
        id: OrderId(id),
        side,
        price: Price(price),
        qty: Qty(qty),
    }
}

fn ladder_book() -> OrderBook {
    let mut book = OrderBook::new();
    book.add(order(1, Side::Sell, 102, 3));
    book.add(order(2, Side::Sell, 100, 4));
    book.add(order(3, Side::Sell, 101, 5));
    book.add(order(4, Side::Sell, 100, 6));
    book.add(order(5, Side::Buy, 98, 7));
    book
}

#[test]
fn sweep_conserves_taker_quantity() {
    let mut book = ladder_book();
    let trades = book.submit(order(9, Side::Buy, 101, 12));
    let traded: u64 = trades.iter().map(|t| t.qty.0).sum();
    assert_eq!(traded, 12);
    let mut book = ladder_book();
    let trades = book.submit(order(9, Side::Buy, 101, 40));
    let traded: u64 = trades.iter().map(|t| t.qty.0).sum();
    assert_eq!(traded, 15);
    // the remaining 25 rest as the best bid
    assert_eq!(book.best_bid(), Some(Price(101)));
    let back = book.cancel(OrderId(9)).unwrap();
    assert_eq!(back.qty, Qty(25));
}

#[test]
fn sweep_respects_limit_and_walks_outward_in_time_order() {
    let mut book = ladder_book();
    let trades = book.submit(order(9, Side::Buy, 101, 100));
    let prices: Vec<i64> = trades.iter().map(|t| t.price.0).collect();
    let makers: Vec<u64> = trades.iter().map(|t| t.maker.0).collect();
    assert_eq!(prices, vec![100, 100, 101]);
    assert_eq!(makers, vec![2, 4, 3]);
    assert!(trades.iter().all(|t| t.taker == OrderId(9) && t.taker_side == Side::Buy));
    assert_eq!(book.best_ask(), Some(Price(102)));
}

#[test]
fn submit_never_crosses_the_book() {
    let mut book = ladder_book();
    for (i, (side, price, qty)) in [
        (Side::Buy, 101, 6),
        (Side::Sell, 97, 3),
        (Side::Buy, 103, 1),
        (Side::Sell, 99, 20),
        (Side::Buy, 100, 2),
    ]
    .into_iter()
    .enumerate()
    {
        book.submit(order(100 + i as u64, side, price, qty));
        if let (Some(b), Some(a)) = (book.best_bid(), book.best_ask()) {
            assert!(b.0 < a.0);
        }
    }
}

#[test]
fn cancel_undoes_add() {
    let mut book = ladder_book();
    let before = (book.best_bid(), book.best_ask());
    book.add(order(50, Side::Buy, 99, 1));
    assert_eq!(book.best_bid(), Some(Price(99)));
    assert_eq!(book.cancel(OrderId(50)), Some(order(50, Side::Buy, 99, 1)));
    assert_eq!((book.best_bid(), book.best_ask()), before);
    assert!(!book.can_cancel(OrderId(50)));
    // the book behaves as before: the old asks are still matched in order
    let trades = book.submit(order(51, Side::Buy, 100, 5));
    assert_eq!(trades[0].maker, OrderId(2));
}

#[test]
fn replay_in_two_parts_equals_replay_whole() {
    let cmds = vec![
        Command::NewOrder(order(1, Side::Sell, 100, 10)),
        Command::NewOrder(order(2, Side::Buy, 99, 3)),
        Command::NewOrder(order(3, Side::Buy, 101, 4)),
        Command::CancelOrder(OrderId(2)),
        Command::NewOrder(order(4, Side::Sell, 99, 9)),
        Command::CancelOrder(OrderId(1)),
    ];
    let mut whole = Engine::new();
    let mut whole_out: Vec<Event> = Vec::new();
    for c in cmds.iter() {
        whole.apply(*c, &mut whole_out);
    }
    let mut split = Engine::new();
    let mut first: Vec<Event> = Vec::new();
    for c in cmds[..3].iter() {
        split.apply(*c, &mut first);
    }
    let mut second: Vec<Event> = Vec::new();
    for c in cmds[3..].iter() {
        split.apply(*c, &mut second);
    }
    first.extend(second);
    assert_eq!(first, whole_out);
}

#[test]
fn every_resting_order_stays_cancelable() {
    let mut book = ladder_book();
    book.submit(order(10, Side::Buy, 100, 7));
    book.submit(order(11, Side::Sell, 97, 2));
    book.add(order(12, Side::Buy, 96, 4));
    assert!(book.cancel(OrderId(3)).is_some());
    // 2 and 4 were filled (and 4 partly), 5 partly, 3 canceled
    assert!(!book.can_cancel(OrderId(2)));
    assert!(!book.can_cancel(OrderId(3)));
    assert!(!book.can_cancel(OrderId(10)));
    for (id, qty) in [(1u64, 3u64), (4, 3), (5, 5), (12, 4)] {
        assert!(book.can_cancel(OrderId(id)));
        assert_eq!(book.cancel(OrderId(id)).map(|o| o.qty), Some(Qty(qty)));
    }
    assert_eq!(book.best_bid(), None);
    assert_eq!(book.best_ask(), None);
}
