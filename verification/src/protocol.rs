//! The binary wire format of commands and events: a one-byte tag, then
//! fixed-width little-endian fields.
use vstd::prelude::*;

use crate::types::{Command, Event, Order, OrderId, Price, Qty, RejectReason, Side, Trade};

verus! {

/// Tag of a new order.
pub const TAG_NEW_ORDER: u8 = 0x4f;

/// Tag of a cancel.
pub const TAG_CANCEL: u8 = 0x58;

/// Tag of an acknowledgement.
pub const TAG_ACCEPTED: u8 = 0x41;

/// Tag of a cancel confirmation.
pub const TAG_CANCELED: u8 = 0x43;

/// Tag of a rejection.
pub const TAG_REJECTED: u8 = 0x4a;

/// Tag of an execution.
pub const TAG_FILL: u8 = 0x45;

/// Byte of a buy.
pub const BYTE_BUY: u8 = 0x42;

/// Byte of a sell.
pub const BYTE_SELL: u8 = 0x53;

/// Length of an encoded new order.
pub const NEW_ORDER_LEN: usize = 26;

/// Length of an encoded cancel.
pub const CANCEL_LEN: usize = 9;

/// Length of an encoded acknowledgement or cancel confirmation.
pub const ID_EVENT_LEN: usize = 9;

/// Length of an encoded rejection.
pub const REJECTED_LEN: usize = 10;

/// Length of an encoded execution.
pub const FILL_LEN: usize = 34;

#[derive(Debug, PartialEq, Eq, Structural)]
pub enum DecodeError {
    InvalidFormat,
}

/// The eight bytes of `x`, least significant first.
pub open spec fn u64_le(x: u64) -> Seq<u8> {
    seq![
        (x & 0xff) as u8,
        ((x >> 8u64) & 0xff) as u8,
        ((x >> 16u64) & 0xff) as u8,
        ((x >> 24u64) & 0xff) as u8,
        ((x >> 32u64) & 0xff) as u8,
        ((x >> 40u64) & 0xff) as u8,
        ((x >> 48u64) & 0xff) as u8,
        ((x >> 56u64) & 0xff) as u8,
    ]
}

/// The number whose little-endian bytes are the first eight of `b`.
pub open spec fn le_u64(b: Seq<u8>) -> u64 {
    (b[0] as u64) | ((b[1] as u64) << 8u64) | ((b[2] as u64) << 16u64) | ((b[3] as u64) << 24u64)
        | ((b[4] as u64) << 32u64) | ((b[5] as u64) << 40u64) | ((b[6] as u64) << 48u64) | ((
    b[7] as u64) << 56u64)
}

pub open spec fn side_byte(s: Side) -> u8 {
    match s {
        Side::Buy => BYTE_BUY,
        Side::Sell => BYTE_SELL,
    }
}

pub open spec fn byte_side(b: u8) -> Option<Side> {
    if b == BYTE_BUY {
        Some(Side::Buy)
    } else if b == BYTE_SELL {
        Some(Side::Sell)
    } else {
        None
    }
}

pub open spec fn reason_byte(r: RejectReason) -> u8 {
    match r {
        RejectReason::OrderTooLarge => 1,
        RejectReason::PositionLimit => 2,
        RejectReason::SelfTrade => 3,
        RejectReason::OrderNotFound => 4,
    }
}

pub open spec fn byte_reason(b: u8) -> Option<RejectReason> {
    if b == 1 {
        Some(RejectReason::OrderTooLarge)
    } else if b == 2 {
        Some(RejectReason::PositionLimit)
    } else if b == 3 {
        Some(RejectReason::SelfTrade)
    } else if b == 4 {
        Some(RejectReason::OrderNotFound)
    } else {
        None
    }
}

/// The encoding of a command; `ShutDown` and `Noop` have none.
pub open spec fn command_bytes(cmd: Command) -> Seq<u8> {
    match cmd {
        Command::NewOrder(o) => seq![TAG_NEW_ORDER] + u64_le(o.id.0) + seq![side_byte(o.side)]
            + u64_le(o.price.0 as u64) + u64_le(o.qty.0),
        Command::CancelOrder(id) => seq![TAG_CANCEL] + u64_le(id.0),
        _ => seq![],
    }
}

/// The encoding of an event; `Empty` has none.
pub open spec fn event_bytes(evt: Event) -> Seq<u8> {
    match evt {
        Event::Accepted(id) => seq![TAG_ACCEPTED] + u64_le(id.0),
        Event::Canceled(id) => seq![TAG_CANCELED] + u64_le(id.0),
        Event::Rejected(id, r) => seq![TAG_REJECTED] + u64_le(id.0) + seq![reason_byte(r)],
        Event::Fill(t) => seq![TAG_FILL] + u64_le(t.taker.0) + u64_le(t.maker.0) + seq![
            side_byte(t.taker_side),
        ] + u64_le(t.price.0 as u64) + u64_le(t.qty.0),
        Event::Empty => seq![],
    }
}

/// The command that `b` encodes. A new order must have at least its length
/// (what follows is ignored) and a valid side; a cancel must have exactly its
/// length.
pub open spec fn command_of(b: Seq<u8>) -> Result<Command, DecodeError> {
    if b.len() == 0 {
        Err(DecodeError::InvalidFormat)
    } else if b[0] == TAG_NEW_ORDER {
        if b.len() < NEW_ORDER_LEN {
            Err(DecodeError::InvalidFormat)
        } else {
            match byte_side(b[9]) {
                Some(side) => Ok(
                    Command::NewOrder(
                        Order {
                            id: OrderId(le_u64(b.subrange(1, 9))),
                            side,
                            price: Price(le_u64(b.subrange(10, 18)) as i64),
                            qty: Qty(le_u64(b.subrange(18, 26))),
                        },
                    ),
                ),
                None => Err(DecodeError::InvalidFormat),
            }
        }
    } else if b[0] == TAG_CANCEL {
        if b.len() != CANCEL_LEN {
            Err(DecodeError::InvalidFormat)
        } else {
            Ok(Command::CancelOrder(OrderId(le_u64(b.subrange(1, 9)))))
        }
    } else {
        Err(DecodeError::InvalidFormat)
    }
}

/// The event that `b` encodes. Each kind must have at least its length (what
/// follows is ignored), a valid reason or side where it has one.
pub open spec fn event_of(b: Seq<u8>) -> Result<Event, DecodeError> {
    if b.len() == 0 {
        Err(DecodeError::InvalidFormat)
    } else if b[0] == TAG_ACCEPTED || b[0] == TAG_CANCELED {
        if b.len() < ID_EVENT_LEN {
            Err(DecodeError::InvalidFormat)
        } else if b[0] == TAG_ACCEPTED {
            Ok(Event::Accepted(OrderId(le_u64(b.subrange(1, 9)))))
        } else {
            Ok(Event::Canceled(OrderId(le_u64(b.subrange(1, 9)))))
        }
    } else if b[0] == TAG_REJECTED {
        if b.len() < REJECTED_LEN {
            Err(DecodeError::InvalidFormat)
        } else {
            match byte_reason(b[9]) {
                Some(r) => Ok(Event::Rejected(OrderId(le_u64(b.subrange(1, 9))), r)),
                None => Err(DecodeError::InvalidFormat),
            }
        }
    } else if b[0] == TAG_FILL {
        if b.len() < FILL_LEN {
            Err(DecodeError::InvalidFormat)
        } else {
            match byte_side(b[17]) {
                Some(side) => Ok(
                    Event::Fill(
                        Trade {
                            taker: OrderId(le_u64(b.subrange(1, 9))),
                            maker: OrderId(le_u64(b.subrange(9, 17))),
                            taker_side: side,
                            price: Price(le_u64(b.subrange(18, 26)) as i64),
                            qty: Qty(le_u64(b.subrange(26, 34))),
                        },
                    ),
                ),
                None => Err(DecodeError::InvalidFormat),
            }
        }
    } else {
        Err(DecodeError::InvalidFormat)
    }
}

/// Appends the little-endian bytes of `x`.
fn push_u64_le(bytes: &mut Vec<u8>, x: u64)
    ensures
        final(bytes)@ == old(bytes)@ + u64_le(x),
{
    bytes.push((x & 0xff) as u8);
    bytes.push(((x >> 8) & 0xff) as u8);
    bytes.push(((x >> 16) & 0xff) as u8);
    bytes.push(((x >> 24) & 0xff) as u8);
    bytes.push(((x >> 32) & 0xff) as u8);
    bytes.push(((x >> 40) & 0xff) as u8);
    bytes.push(((x >> 48) & 0xff) as u8);
    bytes.push(((x >> 56) & 0xff) as u8);
    assert(bytes@ =~= old(bytes)@ + u64_le(x));
}

/// Reads the little-endian number at `at`.
fn read_u64_le(b: &[u8], at: usize) -> (v: u64)
    requires
        at + 8 <= b@.len(),
    ensures
        v == le_u64(b@.subrange(at as int, at + 8)),
{
    (b[at] as u64) | ((b[at + 1] as u64) << 8) | ((b[at + 2] as u64) << 16) | ((b[at + 3] as u64)
        << 24) | ((b[at + 4] as u64) << 32) | ((b[at + 5] as u64) << 40) | ((b[at + 6] as u64)
        << 48) | ((b[at + 7] as u64) << 56)
}

fn side_to_byte(s: Side) -> (b: u8)
    ensures
        b == side_byte(s),
{
    match s {
        Side::Buy => BYTE_BUY,
        Side::Sell => BYTE_SELL,
    }
}

fn byte_to_side(b: u8) -> (s: Option<Side>)
    ensures
        s == byte_side(b),
{
    if b == BYTE_BUY {
        Some(Side::Buy)
    } else if b == BYTE_SELL {
        Some(Side::Sell)
    } else {
        None
    }
}

/// Appends the encoding of `cmd` to `bytes`.
pub fn encode_command(cmd: &Command, bytes: &mut Vec<u8>)
    ensures
        final(bytes)@ == old(bytes)@ + command_bytes(*cmd),
{
    match cmd {
        Command::NewOrder(order) => {
            bytes.push(TAG_NEW_ORDER);
            push_u64_le(bytes, order.id.0);
            bytes.push(side_to_byte(order.side));
            push_u64_le(bytes, order.price.0 as u64);
            push_u64_le(bytes, order.qty.0);
            assert(bytes@ =~= old(bytes)@ + command_bytes(*cmd));
        },
        Command::CancelOrder(id) => {
            bytes.push(TAG_CANCEL);
            push_u64_le(bytes, id.0);
            assert(bytes@ =~= old(bytes)@ + command_bytes(*cmd));
        },
        Command::ShutDown | Command::Noop => {
            assert(bytes@ =~= old(bytes)@ + command_bytes(*cmd));
        },
    }
}

/// Decodes one command.
pub fn decode_command(bytes: &[u8]) -> (r: Result<Command, DecodeError>)
    ensures
        r == command_of(bytes@),
{
    if bytes.len() == 0 {
        return Err(DecodeError::InvalidFormat);
    }
    let order_type = bytes[0];
    if order_type == TAG_NEW_ORDER {
        if bytes.len() < NEW_ORDER_LEN {
            return Err(DecodeError::InvalidFormat);
        }
        let order_id = OrderId(read_u64_le(bytes, 1));
        let side = match byte_to_side(bytes[9]) {
            Some(s) => s,
            None => return Err(DecodeError::InvalidFormat),
        };
        let price = Price(read_u64_le(bytes, 10) as i64);
        let qty = Qty(read_u64_le(bytes, 18));
        Ok(Command::NewOrder(Order { id: order_id, side, price, qty }))
    } else if order_type == TAG_CANCEL {
        if bytes.len() != CANCEL_LEN {
            Err(DecodeError::InvalidFormat)
        } else {
            let order_id = OrderId(read_u64_le(bytes, 1));
            Ok(Command::CancelOrder(order_id))
        }
    } else {
        Err(DecodeError::InvalidFormat)
    }
}

fn reason_to_byte(r: RejectReason) -> (b: u8)
    ensures
        b == reason_byte(r),
{
    match r {
        RejectReason::OrderTooLarge => 1,
        RejectReason::PositionLimit => 2,
        RejectReason::SelfTrade => 3,
        RejectReason::OrderNotFound => 4,
    }
}

/// Appends the encoding of `evt` to `bytes`.
pub fn encode_event(evt: &Event, bytes: &mut Vec<u8>)
    ensures
        final(bytes)@ == old(bytes)@ + event_bytes(*evt),
{
    match evt {
        Event::Accepted(id) => {
            bytes.push(TAG_ACCEPTED);
            push_u64_le(bytes, id.0);
        },
        Event::Canceled(id) => {
            bytes.push(TAG_CANCELED);
            push_u64_le(bytes, id.0);
        },
        Event::Rejected(id, reason) => {
            bytes.push(TAG_REJECTED);
            push_u64_le(bytes, id.0);
            bytes.push(reason_to_byte(*reason));
        },
        Event::Fill(trade) => {
            bytes.push(TAG_FILL);
            push_u64_le(bytes, trade.taker.0);
            push_u64_le(bytes, trade.maker.0);
            bytes.push(side_to_byte(trade.taker_side));
            push_u64_le(bytes, trade.price.0 as u64);
            push_u64_le(bytes, trade.qty.0);
        },
        Event::Empty => {},
    }
    assert(bytes@ =~= old(bytes)@ + event_bytes(*evt));
}

/// Decodes one event.
pub fn decode_event(bytes: &[u8]) -> (r: Result<Event, DecodeError>)
    ensures
        r == event_of(bytes@),
{
    if bytes.len() == 0 {
        return Err(DecodeError::InvalidFormat);
    }
    let tag = bytes[0];
    if tag == TAG_ACCEPTED {
        if bytes.len() < ID_EVENT_LEN {
            return Err(DecodeError::InvalidFormat);
        }
        let id = OrderId(read_u64_le(bytes, 1));
        Ok(Event::Accepted(id))
    } else if tag == TAG_CANCELED {
        if bytes.len() < ID_EVENT_LEN {
            return Err(DecodeError::InvalidFormat);
        }
        let id = OrderId(read_u64_le(bytes, 1));
        Ok(Event::Canceled(id))
    } else if tag == TAG_REJECTED {
        if bytes.len() < REJECTED_LEN {
            return Err(DecodeError::InvalidFormat);
        }
        let id = OrderId(read_u64_le(bytes, 1));
        let reason = if bytes[9] == 1 {
            RejectReason::OrderTooLarge
        } else if bytes[9] == 2 {
            RejectReason::PositionLimit
        } else if bytes[9] == 3 {
            RejectReason::SelfTrade
        } else if bytes[9] == 4 {
            RejectReason::OrderNotFound
        } else {
            return Err(DecodeError::InvalidFormat);
        };
        Ok(Event::Rejected(id, reason))
    } else if tag == TAG_FILL {
        if bytes.len() < FILL_LEN {
            return Err(DecodeError::InvalidFormat);
        }
        let taker = OrderId(read_u64_le(bytes, 1));
        let maker = OrderId(read_u64_le(bytes, 9));
        let taker_side = match byte_to_side(bytes[17]) {
            Some(s) => s,
            None => return Err(DecodeError::InvalidFormat),
        };
        let price = Price(read_u64_le(bytes, 18) as i64);
        let qty = Qty(read_u64_le(bytes, 26));
        Ok(Event::Fill(Trade { taker, maker, taker_side, price, qty }))
    } else {
        Err(DecodeError::InvalidFormat)
    }
}

/// Reading back the bytes of a number gives the number.
pub proof fn lemma_u64_le_roundtrip(x: u64)
    ensures
        le_u64(u64_le(x)) == x,
{
    let b = u64_le(x);
    let b0 = (x & 0xff) as u8;
    let b1 = ((x >> 8u64) & 0xff) as u8;
    let b2 = ((x >> 16u64) & 0xff) as u8;
    let b3 = ((x >> 24u64) & 0xff) as u8;
    let b4 = ((x >> 32u64) & 0xff) as u8;
    let b5 = ((x >> 40u64) & 0xff) as u8;
    let b6 = ((x >> 48u64) & 0xff) as u8;
    let b7 = ((x >> 56u64) & 0xff) as u8;
    assert((b0 as u64) | ((b1 as u64) << 8u64) | ((b2 as u64) << 16u64) | ((b3 as u64) << 24u64)
        | ((b4 as u64) << 32u64) | ((b5 as u64) << 40u64) | ((b6 as u64) << 48u64) | ((b7 as u64)
        << 56u64) == x) by (bit_vector)
        requires
            b0 == (x & 0xff) as u8,
            b1 == ((x >> 8u64) & 0xff) as u8,
            b2 == ((x >> 16u64) & 0xff) as u8,
            b3 == ((x >> 24u64) & 0xff) as u8,
            b4 == ((x >> 32u64) & 0xff) as u8,
            b5 == ((x >> 40u64) & 0xff) as u8,
            b6 == ((x >> 48u64) & 0xff) as u8,
            b7 == ((x >> 56u64) & 0xff) as u8,
    ;
    assert(b[0] == b0 && b[1] == b1 && b[2] == b2 && b[3] == b3);
    assert(b[4] == b4 && b[5] == b5 && b[6] == b6 && b[7] == b7);
}

/// A price survives its two's complement reinterpretation.
pub proof fn lemma_i64_roundtrip(p: i64)
    ensures
        (p as u64) as i64 == p,
{
    assert((p as u64) as i64 == p) by (bit_vector);
}

/// Writing out the number read from eight bytes gives the bytes back.
pub proof fn lemma_le_u64_roundtrip(b: Seq<u8>)
    requires
        b.len() == 8,
    ensures
        u64_le(le_u64(b)) == b,
{
    let (b0, b1, b2, b3, b4, b5, b6, b7) = (b[0], b[1], b[2], b[3], b[4], b[5], b[6], b[7]);
    let v = le_u64(b);
    assert(v == (b0 as u64) | ((b1 as u64) << 8u64) | ((b2 as u64) << 16u64) | ((b3 as u64)
        << 24u64) | ((b4 as u64) << 32u64) | ((b5 as u64) << 40u64) | ((b6 as u64) << 48u64) | ((
    b7 as u64) << 56u64));
    assert((v & 0xff) as u8 == b0 && ((v >> 8u64) & 0xff) as u8 == b1 && ((v >> 16u64) & 0xff) as u8
        == b2 && ((v >> 24u64) & 0xff) as u8 == b3 && ((v >> 32u64) & 0xff) as u8 == b4 && ((v
        >> 40u64) & 0xff) as u8 == b5 && ((v >> 48u64) & 0xff) as u8 == b6 && ((v >> 56u64)
        & 0xff) as u8 == b7) by (bit_vector)
        requires
            v == (b0 as u64) | ((b1 as u64) << 8u64) | ((b2 as u64) << 16u64) | ((b3 as u64)
                << 24u64) | ((b4 as u64) << 32u64) | ((b5 as u64) << 40u64) | ((b6 as u64)
                << 48u64) | ((b7 as u64) << 56u64),
    ;
    assert(u64_le(v) =~= b);
}

/// Reinterpreting a number as a price and back gives the number.
pub proof fn lemma_u64_i64_roundtrip(x: u64)
    ensures
        (x as i64) as u64 == x,
{
    assert((x as i64) as u64 == x) by (bit_vector);
}

/// Decoding the encoding of a command gives the command back; `ShutDown` and
/// `Noop` have no encoding, and nothing decodes as an error.
pub proof fn lemma_command_roundtrip(cmd: Command)
    ensures
        command_of(command_bytes(cmd)) == (match cmd {
            Command::NewOrder(_) => Ok(cmd),
            Command::CancelOrder(_) => Ok(cmd),
            _ => Err(DecodeError::InvalidFormat),
        }),
{
    let b = command_bytes(cmd);
    match cmd {
        Command::NewOrder(o) => {
            lemma_u64_le_roundtrip(o.id.0);
            lemma_u64_le_roundtrip(o.price.0 as u64);
            lemma_u64_le_roundtrip(o.qty.0);
            lemma_i64_roundtrip(o.price.0);
            assert(b.subrange(1, 9) =~= u64_le(o.id.0));
            assert(b.subrange(10, 18) =~= u64_le(o.price.0 as u64));
            assert(b.subrange(18, 26) =~= u64_le(o.qty.0));
        },
        Command::CancelOrder(id) => {
            lemma_u64_le_roundtrip(id.0);
            assert(b.subrange(1, 9) =~= u64_le(id.0));
        },
        _ => {},
    }
}

/// A decoded command re-encodes to the bytes it was read from (for a new
/// order, the bytes up to its length; anything after them is ignored).
pub proof fn lemma_command_reencode(b: Seq<u8>)
    requires
        command_of(b) is Ok,
    ensures
        command_bytes(command_of(b)->Ok_0) == b.subrange(0, command_bytes(command_of(b)->Ok_0).len() as int),
{
    let c = command_of(b)->Ok_0;
    match c {
        Command::NewOrder(o) => {
            lemma_le_u64_roundtrip(b.subrange(1, 9));
            lemma_le_u64_roundtrip(b.subrange(10, 18));
            lemma_le_u64_roundtrip(b.subrange(18, 26));
            lemma_u64_i64_roundtrip(le_u64(b.subrange(10, 18)));
            assert(command_bytes(c) =~= b.subrange(0, 26));
        },
        Command::CancelOrder(id) => {
            lemma_le_u64_roundtrip(b.subrange(1, 9));
            assert(command_bytes(c) =~= b.subrange(0, 9));
        },
        _ => {},
    }
}

/// Decoding the encoding of an event gives the event back; `Empty` has no
/// encoding, and nothing decodes as an error.
pub proof fn lemma_event_roundtrip(evt: Event)
    ensures
        event_of(event_bytes(evt)) == (match evt {
            Event::Empty => Err(DecodeError::InvalidFormat),
            _ => Ok(evt),
        }),
{
    let b = event_bytes(evt);
    match evt {
        Event::Accepted(id) => {
            lemma_u64_le_roundtrip(id.0);
            assert(b.subrange(1, 9) =~= u64_le(id.0));
        },
        Event::Canceled(id) => {
            lemma_u64_le_roundtrip(id.0);
            assert(b.subrange(1, 9) =~= u64_le(id.0));
        },
        Event::Rejected(id, r) => {
            lemma_u64_le_roundtrip(id.0);
            assert(b.subrange(1, 9) =~= u64_le(id.0));
        },
        Event::Fill(t) => {
            lemma_u64_le_roundtrip(t.taker.0);
            lemma_u64_le_roundtrip(t.maker.0);
            lemma_u64_le_roundtrip(t.price.0 as u64);
            lemma_u64_le_roundtrip(t.qty.0);
            lemma_i64_roundtrip(t.price.0);
            assert(b.subrange(1, 9) =~= u64_le(t.taker.0));
            assert(b.subrange(9, 17) =~= u64_le(t.maker.0));
            assert(b.subrange(18, 26) =~= u64_le(t.price.0 as u64));
            assert(b.subrange(26, 34) =~= u64_le(t.qty.0));
        },
        Event::Empty => {},
    }
}

/// A decoded event re-encodes to the bytes it was read from, up to its length.
pub proof fn lemma_event_reencode(b: Seq<u8>)
    requires
        event_of(b) is Ok,
    ensures
        event_bytes(event_of(b)->Ok_0) == b.subrange(0, event_bytes(event_of(b)->Ok_0).len() as int),
{
    let e = event_of(b)->Ok_0;
    match e {
        Event::Accepted(_) => {
            lemma_le_u64_roundtrip(b.subrange(1, 9));
            assert(event_bytes(e) =~= b.subrange(0, 9));
        },
        Event::Canceled(_) => {
            lemma_le_u64_roundtrip(b.subrange(1, 9));
            assert(event_bytes(e) =~= b.subrange(0, 9));
        },
        Event::Rejected(_, r) => {
            lemma_le_u64_roundtrip(b.subrange(1, 9));
            assert(event_bytes(e) =~= b.subrange(0, 10));
        },
        Event::Fill(t) => {
            lemma_le_u64_roundtrip(b.subrange(1, 9));
            lemma_le_u64_roundtrip(b.subrange(9, 17));
            lemma_le_u64_roundtrip(b.subrange(18, 26));
            lemma_le_u64_roundtrip(b.subrange(26, 34));
            lemma_u64_i64_roundtrip(le_u64(b.subrange(18, 26)));
            assert(event_bytes(e) =~= b.subrange(0, 34));
        },
        Event::Empty => {},
    }
}

/// The number written little-endian in the eight bytes of `b` from `at`:
/// the first byte counts ones, the next 256s, and so on.
pub open spec fn le_value(b: Seq<u8>, at: int) -> int {
    b[at] + 0x100 * b[at + 1] + 0x1_0000 * b[at + 2] + 0x100_0000 * b[at + 3] + 0x1_0000_0000 * b[at
        + 4] + 0x100_0000_0000 * b[at + 5] + 0x1_0000_0000_0000 * b[at + 6] + 0x100_0000_0000_0000
        * b[at + 7]
}

/// A price as its 64-bit two's complement pattern.
pub open spec fn twos(p: i64) -> int {
    if p >= 0 {
        p as int
    } else {
        p + 0x1_0000_0000_0000_0000
    }
}

/// The price whose 64-bit two's complement pattern is `v`.
pub open spec fn from_twos(v: int) -> int {
    if v < 0x8000_0000_0000_0000 {
        v
    } else {
        v - 0x1_0000_0000_0000_0000
    }
}

/// The eight bytes written for `x` are little-endian.
pub proof fn lemma_u64_le_value(x: u64)
    ensures
        u64_le(x).len() == 8,
        le_value(u64_le(x), 0) == x,
{
    let b = u64_le(x);
    assert(((x & 0xff) as u8) as int + 0x100 * (((x >> 8u64) & 0xff) as u8) + 0x1_0000 * (((x
        >> 16u64) & 0xff) as u8) + 0x100_0000 * (((x >> 24u64) & 0xff) as u8) + 0x1_0000_0000 * (((x
        >> 32u64) & 0xff) as u8) + 0x100_0000_0000 * (((x >> 40u64) & 0xff) as u8)
        + 0x1_0000_0000_0000 * (((x >> 48u64) & 0xff) as u8) + 0x100_0000_0000_0000 * (((x
        >> 56u64) & 0xff) as u8) == x) by (bit_vector);
}

/// The number read from eight bytes is their little-endian value.
pub proof fn lemma_le_u64_value(b: Seq<u8>, at: int)
    requires
        0 <= at,
        at + 8 <= b.len(),
    ensures
        le_u64(b.subrange(at, at + 8)) == le_value(b, at),
{
    let (b0, b1, b2, b3, b4, b5, b6, b7) = (
        b[at],
        b[at + 1],
        b[at + 2],
        b[at + 3],
        b[at + 4],
        b[at + 5],
        b[at + 6],
        b[at + 7],
    );
    let s = b.subrange(at, at + 8);
    assert(s[0] == b0 && s[1] == b1 && s[2] == b2 && s[3] == b3);
    assert(s[4] == b4 && s[5] == b5 && s[6] == b6 && s[7] == b7);
    assert((b0 as u64) | ((b1 as u64) << 8u64) | ((b2 as u64) << 16u64) | ((b3 as u64) << 24u64)
        | ((b4 as u64) << 32u64) | ((b5 as u64) << 40u64) | ((b6 as u64) << 48u64) | ((b7 as u64)
        << 56u64) == b0 + 0x100 * b1 + 0x1_0000 * b2 + 0x100_0000 * b3 + 0x1_0000_0000 * b4
        + 0x100_0000_0000 * b5 + 0x1_0000_0000_0000 * b6 + 0x100_0000_0000_0000 * b7) by (bit_vector);
}

/// The two's complement pattern of a price, and back.
pub proof fn lemma_twos(p: i64, x: u64)
    ensures
        (p as u64) as int == twos(p),
        (x as i64) as int == from_twos(x as int),
{
    assert(p >= 0 ==> (p as u64) as int == p as int) by (bit_vector);
    assert(p < 0 ==> (p as u64) as int == p + 0x1_0000_0000_0000_0000) by (bit_vector);
    assert(x < 0x8000_0000_0000_0000 ==> (x as i64) as int == x as int) by (bit_vector);
    assert(x >= 0x8000_0000_0000_0000 ==> (x as i64) as int == x - 0x1_0000_0000_0000_0000)
        by (bit_vector);
}

/// The wire layout of a command: a new order is 'O', its identity, 'B' or 'S',
/// its price, its quantity, each number as eight little-endian bytes (the
/// price in two's complement); a cancel is 'X' and the identity; `ShutDown` and
/// `Noop` write nothing.
pub proof fn lemma_command_layout(cmd: Command)
    ensures
        ({
            let b = command_bytes(cmd);
            match cmd {
                Command::NewOrder(o) => {
                    &&& b.len() == 26
                    &&& b[0] == 0x4fu8
                    &&& le_value(b, 1) == o.id.0
                    &&& b[9] == (if o.side == Side::Buy {
                        0x42u8
                    } else {
                        0x53u8
                    })
                    &&& le_value(b, 10) == twos(o.price.0)
                    &&& le_value(b, 18) == o.qty.0
                },
                Command::CancelOrder(id) => {
                    &&& b.len() == 9
                    &&& b[0] == 0x58u8
                    &&& le_value(b, 1) == id.0
                },
                _ => b.len() == 0,
            }
        }),
{
    let b = command_bytes(cmd);
    match cmd {
        Command::NewOrder(o) => {
            lemma_u64_le_value(o.id.0);
            lemma_u64_le_value(o.price.0 as u64);
            lemma_u64_le_value(o.qty.0);
            lemma_twos(o.price.0, 0);
            assert(b.subrange(1, 9) =~= u64_le(o.id.0));
            assert(b.subrange(10, 18) =~= u64_le(o.price.0 as u64));
            assert(b.subrange(18, 26) =~= u64_le(o.qty.0));
            assert(le_value(b, 1) == le_value(b.subrange(1, 9), 0));
            assert(le_value(b, 10) == le_value(b.subrange(10, 18), 0));
            assert(le_value(b, 18) == le_value(b.subrange(18, 26), 0));
        },
        Command::CancelOrder(id) => {
            lemma_u64_le_value(id.0);
            assert(b.subrange(1, 9) =~= u64_le(id.0));
            assert(le_value(b, 1) == le_value(b.subrange(1, 9), 0));
        },
        _ => {},
    }
}

/// Decoding a new order: at least its length, 'O', and 'B' for a buy or 'S'
/// for a sell at byte 9 give the order whose fields are the little-endian
/// numbers at 1, 10 and 18; any other side byte is refused.
pub proof fn lemma_decode_new_order(b: Seq<u8>)
    requires
        b.len() >= 26,
        b[0] == 0x4fu8,
    ensures
        b[9] == 0x42u8 || b[9] == 0x53u8 ==> command_of(b) == Ok::<Command, DecodeError>(
            Command::NewOrder(
                Order {
                    id: OrderId(le_value(b, 1) as u64),
                    side: if b[9] == 0x42u8 {
                        Side::Buy
                    } else {
                        Side::Sell
                    },
                    price: Price(from_twos(le_value(b, 10)) as i64),
                    qty: Qty(le_value(b, 18) as u64),
                },
            ),
        ),
        b[9] != 0x42u8 && b[9] != 0x53u8 ==> command_of(b) == Err::<Command, DecodeError>(
            DecodeError::InvalidFormat,
        ),
{
    lemma_le_u64_value(b, 1);
    lemma_le_u64_value(b, 10);
    lemma_le_u64_value(b, 18);
    lemma_twos(0, le_u64(b.subrange(10, 18)));
}

/// The wire layout of an event: 'A' or 'C' and the identity; 'J', the identity
/// and the reason (1 too large, 2 position limit, 3 self trade, 4 not found);
/// 'E', the taker's identity, the maker's, 'B' or 'S' for the taker's side, the
/// price and the quantity; `Empty` writes nothing.
pub proof fn lemma_event_layout(evt: Event)
    ensures
        ({
            let b = event_bytes(evt);
            match evt {
                Event::Accepted(id) => b.len() == 9 && b[0] == 0x41u8 && le_value(b, 1) == id.0,
                Event::Canceled(id) => b.len() == 9 && b[0] == 0x43u8 && le_value(b, 1) == id.0,
                Event::Rejected(id, r) => {
                    &&& b.len() == 10
                    &&& b[0] == 0x4au8
                    &&& le_value(b, 1) == id.0
                    &&& b[9] == match r {
                        RejectReason::OrderTooLarge => 1u8,
                        RejectReason::PositionLimit => 2u8,
                        RejectReason::SelfTrade => 3u8,
                        RejectReason::OrderNotFound => 4u8,
                    }
                },
                Event::Fill(t) => {
                    &&& b.len() == 34
                    &&& b[0] == 0x45u8
                    &&& le_value(b, 1) == t.taker.0
                    &&& le_value(b, 9) == t.maker.0
                    &&& b[17] == (if t.taker_side == Side::Buy {
                        0x42u8
                    } else {
                        0x53u8
                    })
                    &&& le_value(b, 18) == twos(t.price.0)
                    &&& le_value(b, 26) == t.qty.0
                },
                Event::Empty => b.len() == 0,
            }
        }),
{
    let b = event_bytes(evt);
    match evt {
        Event::Accepted(id) => {
            lemma_u64_le_value(id.0);
            assert(b.subrange(1, 9) =~= u64_le(id.0));
            assert(le_value(b, 1) == le_value(b.subrange(1, 9), 0));
        },
        Event::Canceled(id) => {
            lemma_u64_le_value(id.0);
            assert(b.subrange(1, 9) =~= u64_le(id.0));
            assert(le_value(b, 1) == le_value(b.subrange(1, 9), 0));
        },
        Event::Rejected(id, r) => {
            lemma_u64_le_value(id.0);
            assert(b.subrange(1, 9) =~= u64_le(id.0));
            assert(le_value(b, 1) == le_value(b.subrange(1, 9), 0));
        },
        Event::Fill(t) => {
            lemma_u64_le_value(t.taker.0);
            lemma_u64_le_value(t.maker.0);
            lemma_u64_le_value(t.price.0 as u64);
            lemma_u64_le_value(t.qty.0);
            lemma_twos(t.price.0, 0);
            assert(b.subrange(1, 9) =~= u64_le(t.taker.0));
            assert(b.subrange(9, 17) =~= u64_le(t.maker.0));
            assert(b.subrange(18, 26) =~= u64_le(t.price.0 as u64));
            assert(b.subrange(26, 34) =~= u64_le(t.qty.0));
            assert(le_value(b, 1) == le_value(b.subrange(1, 9), 0));
            assert(le_value(b, 9) == le_value(b.subrange(9, 17), 0));
            assert(le_value(b, 18) == le_value(b.subrange(18, 26), 0));
            assert(le_value(b, 26) == le_value(b.subrange(26, 34), 0));
        },
        Event::Empty => {},
    }
}

/// Decoding an execution: at least its length, 'E', and 'B' or 'S' at byte 17
/// give the trade whose taker is the number at 1, maker at 9, price at 18 and
/// quantity at 26; any other side byte is refused.
pub proof fn lemma_decode_fill(b: Seq<u8>)
    requires
        b.len() >= 34,
        b[0] == 0x45u8,
    ensures
        b[17] == 0x42u8 || b[17] == 0x53u8 ==> event_of(b) == Ok::<Event, DecodeError>(
            Event::Fill(
                Trade {
                    taker: OrderId(le_value(b, 1) as u64),
                    maker: OrderId(le_value(b, 9) as u64),
                    taker_side: if b[17] == 0x42u8 {
                        Side::Buy
                    } else {
                        Side::Sell
                    },
                    price: Price(from_twos(le_value(b, 18)) as i64),
                    qty: Qty(le_value(b, 26) as u64),
                },
            ),
        ),
        b[17] != 0x42u8 && b[17] != 0x53u8 ==> event_of(b) == Err::<Event, DecodeError>(
            DecodeError::InvalidFormat,
        ),
{
    lemma_le_u64_value(b, 1);
    lemma_le_u64_value(b, 9);
    lemma_le_u64_value(b, 18);
    lemma_le_u64_value(b, 26);
    lemma_twos(0, le_u64(b.subrange(18, 26)));
}

} // verus!
