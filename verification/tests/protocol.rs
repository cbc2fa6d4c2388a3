use matching_engine::protocol::{decode_command, decode_event, encode_command, encode_event, DecodeError};
use matching_engine::types::{Command, Event, Order, OrderId, Price, Qty, RejectReason, Side, Trade};

fn new_order() -> Command {
    Command::NewOrder(Order {
        id: OrderId(0x0102030405060708),
        side: Side::Sell,
        price: Price(-2),
        qty: Qty(300),
    })
}

#[test]
fn new_order_bytes_are_tag_then_little_endian_fields() {
    let mut bytes = Vec::new();
    encode_command(&new_order(), &mut bytes);
    let mut expected = vec![b'O', 8, 7, 6, 5, 4, 3, 2, 1, b'S'];
    expected.extend_from_slice(&[0xfe, 0xff, 0xff, 0xff, 0xff, 0xff, 0xff, 0xff]);
    expected.extend_from_slice(&[0x2c, 0x01, 0, 0, 0, 0, 0, 0]);
    assert_eq!(bytes, expected);
}

#[test]
fn encode_appends_to_what_is_there() {
    let mut bytes = vec![9, 9];
    encode_command(&Command::CancelOrder(OrderId(1)), &mut bytes);
    assert_eq!(bytes, vec![9, 9, b'X', 1, 0, 0, 0, 0, 0, 0, 0]);
}

#[test]
fn commands_roundtrip() {
    for cmd in [new_order(), Command::CancelOrder(OrderId(u64::MAX))] {
        let mut bytes = Vec::new();
        encode_command(&cmd, &mut bytes);
        assert_eq!(decode_command(&bytes), Ok(cmd));
    }
}

#[test]
fn shutdown_and_noop_encode_to_nothing() {
    let mut bytes = Vec::new();
    encode_command(&Command::ShutDown, &mut bytes);
    encode_command(&Command::Noop, &mut bytes);
    assert!(bytes.is_empty());
    assert_eq!(decode_command(&bytes), Err(DecodeError::InvalidFormat));
}

#[test]
fn new_order_ignores_trailing_bytes_cancel_does_not() {
    let mut bytes = Vec::new();
    encode_command(&new_order(), &mut bytes);
    bytes.push(0);
    assert_eq!(decode_command(&bytes), Ok(new_order()));
    let mut cancel = Vec::new();
    encode_command(&Command::CancelOrder(OrderId(5)), &mut cancel);
    cancel.push(0);
    assert_eq!(decode_command(&cancel), Err(DecodeError::InvalidFormat));
}

#[test]
fn bad_commands_are_rejected() {
    assert_eq!(decode_command(&[]), Err(DecodeError::InvalidFormat));
    assert_eq!(decode_command(&[b'Q', 0, 0]), Err(DecodeError::InvalidFormat));
    let mut bytes = Vec::new();
    encode_command(&new_order(), &mut bytes);
    assert_eq!(decode_command(&bytes[..25]), Err(DecodeError::InvalidFormat));
    bytes[9] = b'Z';
    assert_eq!(decode_command(&bytes), Err(DecodeError::InvalidFormat));
    assert_eq!(decode_command(&[b'X', 1, 2, 3]), Err(DecodeError::InvalidFormat));
}

fn events() -> Vec<Event> {
    vec![
        Event::Accepted(OrderId(1)),
        Event::Canceled(OrderId(2)),
        Event::Rejected(OrderId(3), RejectReason::OrderTooLarge),
        Event::Rejected(OrderId(3), RejectReason::PositionLimit),
        Event::Rejected(OrderId(3), RejectReason::SelfTrade),
        Event::Rejected(OrderId(3), RejectReason::OrderNotFound),
        Event::Fill(Trade {
            taker: OrderId(4),
            maker: OrderId(5),
            taker_side: Side::Buy,
            price: Price(i64::MIN),
            qty: Qty(u64::MAX),
        }),
    ]
}

#[test]
fn events_roundtrip() {
    for evt in events() {
        let mut bytes = Vec::new();
        encode_event(&evt, &mut bytes);
        assert_eq!(decode_event(&bytes), Ok(evt));
    }
}

#[test]
fn event_lengths_and_tags() {
    let lens = [9, 9, 10, 10, 10, 10, 34];
    let tags = [b'A', b'C', b'J', b'J', b'J', b'J', b'E'];
    for (i, evt) in events().into_iter().enumerate() {
        let mut bytes = Vec::new();
        encode_event(&evt, &mut bytes);
        assert_eq!(bytes.len(), lens[i]);
        assert_eq!(bytes[0], tags[i]);
    }
    let mut bytes = Vec::new();
    encode_event(&Event::Rejected(OrderId(0), RejectReason::SelfTrade), &mut bytes);
    assert_eq!(bytes[9], 3);
}

#[test]
fn empty_event_encodes_to_nothing() {
    let mut bytes = Vec::new();
    encode_event(&Event::Empty, &mut bytes);
    assert!(bytes.is_empty());
}

#[test]
fn bad_events_are_rejected() {
    assert_eq!(decode_event(&[]), Err(DecodeError::InvalidFormat));
    assert_eq!(decode_event(&[b'Z']), Err(DecodeError::InvalidFormat));
    assert_eq!(decode_event(&[b'A', 1, 2]), Err(DecodeError::InvalidFormat));
    assert_eq!(decode_event(&[b'C', 1, 2]), Err(DecodeError::InvalidFormat));
    assert_eq!(
        decode_event(&[b'J', 1, 0, 0, 0, 0, 0, 0, 0, 9]),
        Err(DecodeError::InvalidFormat)
    );
    assert_eq!(decode_event(&[b'J', 1, 0, 0, 0, 0, 0, 0, 0]), Err(DecodeError::InvalidFormat));
    let mut bytes = Vec::new();
    encode_event(&events()[6], &mut bytes);
    assert_eq!(decode_event(&bytes[..33]), Err(DecodeError::InvalidFormat));
    bytes[17] = 0;
    assert_eq!(decode_event(&bytes), Err(DecodeError::InvalidFormat));
}
