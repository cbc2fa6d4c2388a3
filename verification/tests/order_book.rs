use matching_engine::order_book::OrderBook;
use matching_engine::types::{Order, OrderId, Price, Qty, Side};

fn order(id: u64, side: Side, price: i64, qty: u64) -> Order {
    Order {
        id: OrderId(id),
        side,
        price: Price(price),
        qty: Qty(qty),
    }
}

#[test]
fn empty_book_has_no_best() {
    let book = OrderBook::new();
    assert_eq!(book.best_bid(), None);
    assert_eq!(book.best_ask(), None);
}

#[test]
fn add_bid_sets_best_bid() {
    let mut book = OrderBook::new();
    let bid1 = order(1, Side::Buy, 100, 10);

    book.add(bid1);

    assert_eq!(book.best_bid(), Some(Price(100)));
}

#[test]
fn add_ask_sets_best_ask() {
    let mut book = OrderBook::new();
    let ask1 = order(1, Side::Sell, 100, 10);

    book.add(ask1);

    assert_eq!(book.best_ask(), Some(Price(100)));
}

#[test]
fn two_bids_pick_higher() {
    let mut book = OrderBook::new();

    book.add(order(1, Side::Buy, 100, 10));
    book.add(order(2, Side::Buy, 101, 20));

    assert_eq!(book.best_bid(), Some(Price(101)));
}

#[test]
fn two_asks_pick_lower() {
    let mut book = OrderBook::new();

    book.add(order(1, Side::Sell, 100, 10));
    book.add(order(2, Side::Sell, 99, 20));

    assert_eq!(book.best_ask(), Some(Price(99)));
}

#[test]
fn cancel_removes_order_and_updates_best_if_needed() {
    let mut book = OrderBook::new();

    book.add(order(1, Side::Buy, 100, 10));
    book.add(order(2, Side::Buy, 101, 20));

    assert!(book.cancel(OrderId(2)).is_some());

    assert_eq!(book.best_bid(), Some(Price(100)));

    assert!(!book.can_cancel(OrderId(2)));

    assert!(book.cancel(OrderId(999)).is_none());
}

#[test]
fn cancel_a_sell() {
    let mut book = OrderBook::new();
    book.add(order(1, Side::Sell, 100, 10));
    assert!(book.cancel(OrderId(1)).is_some());
    assert_eq!(book.best_ask(), None);
}

#[test]
fn submit_buy_no_cross_rests() {
    let mut book = OrderBook::new();
    book.add(order(1, Side::Sell, 101, 10));
    let trades = book.submit(order(2, Side::Buy, 100, 5));
    assert!(trades.is_empty());
    assert_eq!(book.best_bid(), Some(Price(100)));
    assert_eq!(book.best_ask(), Some(Price(101)));
}

#[test]
fn submit_buy_full_fill() {
    let mut book = OrderBook::new();
    book.add(order(1, Side::Sell, 100, 10));
    let trades = book.submit(order(2, Side::Buy, 100, 10));
    assert_eq!(trades.len(), 1);
    assert_eq!(trades[0].price, Price(100));
    assert_eq!(trades[0].qty, Qty(10));
    assert_eq!(book.best_ask(), None);
    assert_eq!(book.best_bid(), None);
}

#[test]
fn submit_buy_maker_bigger_partial() {
    let mut book = OrderBook::new();
    book.add(order(1, Side::Sell, 100, 6));
    let trades = book.submit(order(2, Side::Buy, 100, 4));
    assert_eq!(trades.len(), 1);
    assert_eq!(trades[0].qty, Qty(4));
    assert_eq!(trades[0].price, Price(100));
    assert_eq!(book.best_ask(), Some(Price(100)));
    assert_eq!(book.best_bid(), None);
}

#[test]
fn submit_buy_taker_bigger_partial() {
    let mut book = OrderBook::new();
    book.add(order(1, Side::Sell, 100, 10));
    let trades = book.submit(order(2, Side::Buy, 100, 15));
    assert_eq!(trades.len(), 1);
    assert_eq!(trades[0].qty, Qty(10));
    assert_eq!(book.best_ask(), None);
    assert_eq!(book.best_bid(), Some(Price(100)));
}

#[test]
fn submit_buy_sweeps_levels() {
    let mut book = OrderBook::new();
    book.add(order(1, Side::Sell, 100, 5));
    book.add(order(2, Side::Sell, 101, 5));
    let trades = book.submit(order(3, Side::Buy, 101, 10));
    assert_eq!(trades.len(), 2);
    assert_eq!(trades[0].price, Price(100));
    assert_eq!(trades[1].price, Price(101));
    assert_eq!(book.best_ask(), None);
}

#[test]
fn submit_buy_time_priority() {
    let mut book = OrderBook::new();
    book.add(order(1, Side::Sell, 100, 5));
    book.add(order(2, Side::Sell, 100, 5));
    let trades = book.submit(order(3, Side::Buy, 100, 5));
    assert_eq!(trades.len(), 1);
    assert_eq!(trades[0].maker, OrderId(1));
    assert_eq!(book.best_ask(), Some(Price(100)));
}

#[test]
fn submit_buy_exec_at_maker_price() {
    let mut book = OrderBook::new();
    book.add(order(1, Side::Sell, 100, 10));
    let trades = book.submit(order(2, Side::Buy, 105, 10));
    assert_eq!(trades[0].price, Price(100));
}

#[test]
fn submit_sell_full_fill() {
    let mut book = OrderBook::new();
    book.add(order(1, Side::Buy, 100, 10));
    let trades = book.submit(order(2, Side::Sell, 100, 10));
    assert_eq!(trades.len(), 1);
    assert_eq!(trades[0].price, Price(100));
    assert_eq!(trades[0].qty, Qty(10));
    assert_eq!(book.best_bid(), None);
}

#[test]
fn submit_sell_time_priority_after_partial() {
    let mut book = OrderBook::new();
    book.add(order(1, Side::Buy, 100, 10));
    book.add(order(2, Side::Buy, 100, 10));
    book.submit(order(3, Side::Sell, 100, 4));
    let trades = book.submit(order(4, Side::Sell, 100, 6));
    assert_eq!(trades.len(), 1);
    assert_eq!(trades[0].maker, OrderId(1));
}

#[test]
fn submit_locations_cleaned_after_fill() {
    let mut book = OrderBook::new();
    book.add(order(1, Side::Sell, 100, 10));
    book.submit(order(2, Side::Buy, 100, 10));
    assert!(!book.can_cancel(OrderId(1)));
}
