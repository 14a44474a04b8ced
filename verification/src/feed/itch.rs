//! ITCH 5.0, the messages that move a book, each framed by a two-byte
//! big-endian length.
//!
//! The messages read: system event (S), add order (A), order executed (E),
//! order cancel (X), order delete (D), order replace (U), trade (P). Auctions,
//! imbalances and administrative messages are recognized by length and
//! skipped as what they are: messages for somebody else, not errors. Anything
//! else is malformed. That holds of attributed adds (F) and of executions at
//! a price of their own (C) too: they would move the book, and a book that
//! passed them over would be wrong without a sign of it.
//!
//! `stock_locate` is the symbol index, and has to be one; Add and Trade also
//! carry the stock's name, which must agree with the table.

use vstd::prelude::*;

use crate::feed;
use crate::feed::{Decoding, Event, FeedError, Kind, Parser, Side, Sink, Span};
use crate::wire;

verus! {

/// Prices carry four implied decimals on the wire and eight here.
pub const PRICE_UP: i64 = 10_000;

/// Quantities are whole shares on the wire.
pub const QTY_UP: i64 = 100_000_000;

const SPACE: u8 = 0x20;

/// `S`: the sell side.
const SELL: u8 = 0x53;

/// `A`: add order.
const ADD: u8 = 0x41;

/// `E`: order executed.
const EXECUTED: u8 = 0x45;

/// `X`: order cancel.
const CANCEL: u8 = 0x58;

/// `D`: order delete.
const DELETE: u8 = 0x44;

/// `U`: order replace.
const REPLACE: u8 = 0x55;

/// `P`: trade.
const TRADE: u8 = 0x50;

/// `B`: the buy side.
const BUY: u8 = 0x42;

#[derive(Debug)]
pub struct Itch<'a> {
    /// `stock_locate` indexes this table; Add and Trade carry the alpha name
    /// as well, and the two must agree.
    pub symbols: &'a [&'a [u8]],
}

// ----------------------------------------------------------------- the layouts

/// A field without its trailing spaces.
pub open spec fn trim_end(field: Seq<u8>) -> Seq<u8>
    decreases field.len(),
{
    if field.len() > 0 && field.last() == 0x20 {
        trim_end(field.drop_last())
    } else {
        field
    }
}

/// The `n`-byte number at `at`.
pub open spec fn number(body: Seq<u8>, at: int, n: int) -> nat {
    wire::be_value(body.subrange(at, at + n))
}

pub open spec fn side_spec(byte: u8) -> Option<Side> {
    if byte == 0x42 {
        Some(Side::Bid)
    } else if byte == 0x53 {
        Some(Side::Ask)
    } else {
        None
    }
}

/// The length of a message that is for somebody else; `None` where the type
/// is none of those.
pub open spec fn skipped_length(kind: u8) -> Option<int> {
    if kind == 0x53 {
        Some(12)  // S: system event
    } else if kind == 0x52 {
        Some(39)  // R: stock directory
    } else if kind == 0x48 {
        Some(25)  // H: trading action
    } else if kind == 0x59 {
        Some(20)  // Y: short sale restriction
    } else if kind == 0x4c {
        Some(26)  // L: market participant position
    } else if kind == 0x56 {
        Some(35)  // V: circuit breaker levels
    } else if kind == 0x57 {
        Some(12)  // W: circuit breaker status
    } else if kind == 0x4b {
        Some(28)  // K: quoting period
    } else if kind == 0x4a {
        Some(35)  // J: auction collar
    } else if kind == 0x68 {
        Some(21)  // h: operational halt
    } else if kind == 0x51 {
        Some(40)  // Q: cross trade
    } else if kind == 0x42 {
        Some(19)  // B: broken trade
    } else if kind == 0x49 {
        Some(50)  // I: net order imbalance
    } else if kind == 0x4e {
        Some(20)  // N: retail interest
    } else if kind == 0x4f {
        Some(48)  // O: direct listing price discovery
    } else {
        None
    }
}

/// The length of a message that stands for an event; `None` where the type is
/// none of those.
pub open spec fn event_length(kind: u8) -> Option<int> {
    if kind == 0x41 {
        Some(36)
    } else if kind == 0x45 {
        Some(31)
    } else if kind == 0x58 {
        Some(23)
    } else if kind == 0x44 {
        Some(19)
    } else if kind == 0x55 {
        Some(35)
    } else if kind == 0x50 {
        Some(44)
    } else {
        None
    }
}

/// Whether the locate is an index into the table, and the stock's name, where
/// the message carries one, is the one that stands there.
pub open spec fn symbol_known(table: Seq<Seq<u8>>, body: Seq<u8>) -> bool {
    let locate = number(body, 1, 2);
    &&& locate < table.len()
    &&& body[0] == 0x41 || body[0] == 0x50 ==> table[locate as int] == trim_end(
        body.subrange(24, 32),
    )
}

/// What a message body of a known symbol says; `None` where a side is neither.
pub open spec fn event_spec(body: Seq<u8>) -> Option<Event> {
    let base = Event {
        symbol: number(body, 1, 2) as u16,
        order_id: number(body, 11, 8) as u64,
        ..feed::zero_event()
    };
    let shares = |from: int| (number(body, from, 4) * QTY_UP) as i64;
    let price = |from: int| (number(body, from, 4) * PRICE_UP) as i64;
    // type(1) locate(2) tracking(2) timestamp(6) orderRef(8), then by type:
    if body[0] == 0x41 {
        // side(1) shares(4) stock(8) price(4)
        match side_spec(body[19]) {
            Some(side) => Some(
                Event { kind: Kind::Add, side, qty: shares(20), price: price(32), ..base },
            ),
            None => None,
        }
    } else if body[0] == 0x45 {
        // shares(4) matchNo(8)
        Some(
            Event {
                kind: Kind::Execute,
                qty: shares(19),
                aux: number(body, 23, 8) as u64,
                ..base
            },
        )
    } else if body[0] == 0x58 {
        // canceledShares(4)
        Some(Event { kind: Kind::Cancel, qty: shares(19), ..base })
    } else if body[0] == 0x44 {
        Some(Event { kind: Kind::Delete, ..base })
    } else if body[0] == 0x55 {
        // newRef(8) shares(4) price(4)
        Some(
            Event {
                kind: Kind::Replace,
                aux: number(body, 19, 8) as u64,
                qty: shares(27),
                price: price(31),
                ..base
            },
        )
    } else {
        // side(1) shares(4) stock(8) price(4) matchNo(8)
        match side_spec(body[19]) {
            Some(side) => Some(
                Event {
                    kind: Kind::Trade,
                    side,
                    qty: shares(20),
                    price: price(32),
                    aux: number(body, 36, 8) as u64,
                    ..base
                },
            ),
            None => None,
        }
    }
}

/// The event that a message body stands for; `None` for a message that is for
/// somebody else.
pub open spec fn message_spec(table: Seq<Seq<u8>>, body: Seq<u8>, at: int) -> Result<
    Option<Event>,
    FeedError,
> {
    if skipped_length(body[0]) == Some(body.len() as int) {
        Ok(None)
    } else if event_length(body[0]) != Some(body.len() as int) {
        Err(FeedError::Malformed { offset: at as usize })
    } else if !symbol_known(table, body) {
        Err(FeedError::UnknownSymbol { offset: at as usize })
    } else {
        match event_spec(body) {
            Some(event) => Ok(Some(event)),
            None => Err(FeedError::Malformed { offset: at as usize }),
        }
    }
}

/// The events of no or one.
pub open spec fn some_event(event: Option<Event>) -> Seq<Event> {
    match event {
        Some(event) => seq![event],
        None => Seq::empty(),
    }
}

/// Length-framed messages from `at`; a partial one is a short read.
pub open spec fn frames_spec(table: Seq<Seq<u8>>, bytes: Seq<u8>, at: int) -> Decoding
    decreases bytes.len() - at,
{
    if at < 0 || at + 2 > bytes.len() {
        Decoding::stop(Ok(at as usize))
    } else {
        let length = number(bytes, at, 2);
        let end = at + 2 + length;
        if length == 0 {
            Decoding::stop(Err(FeedError::Malformed { offset: at as usize }))
        } else if end > bytes.len() {
            Decoding::stop(Ok(at as usize))
        } else {
            match message_spec(table, bytes.subrange(at + 2, end), at) {
                Ok(event) => frames_spec(table, bytes, end).after(some_event(event)),
                Err(error) => Decoding::stop(Err(error)),
            }
        }
    }
}

// ------------------------------------------------------------------ the parser

fn be16(b: &[u8]) -> (value: u16)
    requires
        b@.len() == 2,
    ensures
        value == wire::be_value(b@),
{
    proof {
        wire::lemma_be_value_bound(b@);
        wire::lemma_pow256();
    }
    wire::read_be(b) as u16
}

fn be32(b: &[u8]) -> (value: u32)
    requires
        b@.len() == 4,
    ensures
        value == wire::be_value(b@),
{
    proof {
        wire::lemma_be_value_bound(b@);
        wire::lemma_pow256();
    }
    wire::read_be(b) as u32
}

fn be64(b: &[u8]) -> (value: u64)
    requires
        b@.len() == 8,
    ensures
        value == wire::be_value(b@),
{
    wire::read_be(b)
}

fn side(byte: u8, at: usize) -> (result: Result<Side, FeedError>)
    ensures
        match side_spec(byte) {
            Some(side) => result == Ok::<Side, FeedError>(side),
            None => result == Err::<Side, FeedError>(FeedError::Malformed { offset: at }),
        },
{
    if byte == BUY {
        Ok(Side::Bid)
    } else if byte == SELL {
        Ok(Side::Ask)
    } else {
        Err(FeedError::Malformed { offset: at })
    }
}

/// Alpha fields are space-padded on the right.
fn trimmed(field: &[u8]) -> (name: &[u8])
    ensures
        name@ == trim_end(field@),
{
    let mut end: usize = field.len();
    assert(field@.take(end as int) =~= field@);
    while end > 0 && field[end - 1] == SPACE
        invariant
            end <= field@.len(),
            trim_end(field@.take(end as int)) == trim_end(field@),
        decreases end,
    {
        assert(field@.take(end as int).drop_last() =~= field@.take(end - 1));
        end = end - 1;
    }
    &field[0..end]
}

/// The length of a message that is for somebody else.
fn length_skipped(kind: u8) -> (length: Option<usize>)
    ensures
        match skipped_length(kind) {
            Some(expected) => length == Some(expected as usize),
            None => length is None,
        },
{
    match kind {
        0x53 => Some(12),
        0x52 => Some(39),
        0x48 => Some(25),
        0x59 => Some(20),
        0x4c => Some(26),
        0x56 => Some(35),
        0x57 => Some(12),
        0x4b => Some(28),
        0x4a => Some(35),
        0x68 => Some(21),
        0x51 => Some(40),
        0x42 => Some(19),
        0x49 => Some(50),
        0x4e => Some(20),
        0x4f => Some(48),
        _ => None,
    }
}

impl<'a> Itch<'a> {
    /// The symbol that a locate indexes, if the table has it.
    fn known(&self, locate: u16) -> (name: Option<&'a [u8]>)
        ensures
            match name {
                Some(name) => locate < self.symbols@.len() && name@ == feed::names(
                    self.symbols@,
                )[locate as int],
                None => locate >= self.symbols@.len(),
            },
    {
        if (locate as usize) < self.symbols.len() {
            Some(self.symbols[locate as usize])
        } else {
            None
        }
    }

    fn message<S: Sink>(&self, body: &[u8], at: usize, sink: &mut S) -> (result: Result<
        (),
        FeedError,
    >)
        requires
            body@.len() > 0,
        ensures
            match message_spec(feed::names(self.symbols@), body@, at as int) {
                Ok(event) => {
                    &&& result is Ok
                    &&& final(sink).received() == old(sink).received() + some_event(event)
                },
                Err(error) => {
                    &&& result == Err::<(), FeedError>(error)
                    &&& final(sink).received() == old(sink).received()
                },
            },
    {
        let kind = body[0];
        let length = body.len();
        assert(old(sink).received() + Seq::<Event>::empty() =~= old(sink).received());
        if length_skipped(kind) == Some(length) {
            return Ok(());
        }
        let named = kind == ADD || kind == TRADE;
        let whole = kind == ADD && length == 36 || kind == EXECUTED && length == 31 || kind
            == CANCEL && length == 23 || kind == DELETE && length == 19 || kind == REPLACE
            && length == 35 || kind == TRADE && length == 44;
        if !whole {
            return Err(FeedError::Malformed { offset: at });
        }
        let mut event = Event::zeroed();
        event.symbol = be16(&body[1..3]);
        event.order_id = be64(&body[11..19]);
        match self.known(event.symbol) {
            Some(name) => {
                if named && !feed::same_bytes(name, trimmed(&body[24..32])) {
                    return Err(FeedError::UnknownSymbol { offset: at });
                }
            },
            None => {
                return Err(FeedError::UnknownSymbol { offset: at });
            },
        }
        if named {
            event.side = match side(body[19], at) {
                Ok(side) => side,
                Err(error) => return Err(error),
            };
            event.qty = be32(&body[20..24]) as i64 * QTY_UP;
            event.price = be32(&body[32..36]) as i64 * PRICE_UP;
        }
        if kind == ADD {
            event.kind = Kind::Add;
        } else if kind == EXECUTED {
            event.kind = Kind::Execute;
            event.qty = be32(&body[19..23]) as i64 * QTY_UP;
            event.aux = be64(&body[23..31]);
        } else if kind == CANCEL {
            event.kind = Kind::Cancel;
            event.qty = be32(&body[19..23]) as i64 * QTY_UP;
        } else if kind == DELETE {
            event.kind = Kind::Delete;
        } else if kind == REPLACE {
            event.kind = Kind::Replace;
            event.aux = be64(&body[19..27]);
            event.qty = be32(&body[27..31]) as i64 * QTY_UP;
            event.price = be32(&body[31..35]) as i64 * PRICE_UP;
        } else {
            event.kind = Kind::Trade;
            event.aux = be64(&body[36..44]);
        }
        sink.accept(&event);
        assert(old(sink).received() + seq![event] =~= old(sink).received().push(event));
        Ok(())
    }
}

impl<'a> Parser for Itch<'a> {
    open spec fn decoding(&self, bytes: Seq<u8>) -> Decoding {
        frames_spec(feed::names(self.symbols@), bytes, 0)
    }

    fn parse<S: Sink>(&self, bytes: &[u8], sink: &mut S) -> (result: Result<usize, FeedError>) {
        let ghost table = feed::names(self.symbols@);
        let ghost whole = frames_spec(table, bytes@, 0);
        let ghost mut passed = Seq::<Event>::empty();
        let mut at: usize = 0;
        assert(sink.received() + passed =~= sink.received());
        loop
            invariant
                at <= bytes@.len(),
                table == feed::names(self.symbols@),
                whole == self.decoding(bytes@),
                sink.received() == old(sink).received() + passed,
                ({
                    let rest = frames_spec(table, bytes@, at as int);
                    &&& whole.events == passed + rest.events
                    &&& whole.outcome == rest.outcome
                }),
            decreases bytes@.len() - at,
        {
            let left = bytes.len() - at;
            if left < 2 {
                assert(whole.events =~= passed);
                return Ok(at);
            }
            let length = be16(&bytes[at..at + 2]) as usize;
            if length == 0 {
                assert(whole.events =~= passed);
                return Err(FeedError::Malformed { offset: at });
            }
            if left - 2 < length {
                assert(whole.events =~= passed);
                return Ok(at);
            }
            let body = &bytes[at + 2..at + 2 + length];
            let ghost read = message_spec(table, body@, at as int);
            match self.message(body, at, sink) {
                Ok(()) => {},
                Err(error) => {
                    assert(whole.events =~= passed);
                    return Err(error);
                },
            }
            proof {
                let events = some_event(read->Ok_0);
                let rest = frames_spec(table, bytes@, at + 2 + length);
                assert(passed + (events + rest.events) =~= (passed + events) + rest.events);
                assert(old(sink).received() + passed + events =~= old(sink).received() + (passed
                    + events));
                passed = passed + events;
            }
            at = at + 2 + length;
        }
    }
}

// ------------------------------------------------------------- reading in pieces

proof fn lemma_message_shifted(table: Seq<Seq<u8>>, body: Seq<u8>, at: int, by: int)
    requires
        0 <= by <= at <= usize::MAX,
    ensures
        match message_spec(table, body, at - by) {
            Ok(event) => message_spec(table, body, at) == Ok::<Option<Event>, FeedError>(event),
            Err(error) => message_spec(table, body, at) == Err::<Option<Event>, FeedError>(
                feed::error_shifted(error, by),
            ),
        },
{
}

/// Where a stream stands does not matter to what it says.
proof fn lemma_frames_shifted(table: Seq<Seq<u8>>, bytes: Seq<u8>, at: int, by: int)
    requires
        0 <= by <= at <= bytes.len() <= usize::MAX,
    ensures
        frames_spec(table, bytes, at) == feed::shifted(
            frames_spec(table, bytes.skip(by), at - by),
            by,
        ),
    decreases bytes.len() - at,
{
    let rest = bytes.skip(by);
    if at + 2 <= bytes.len() {
        assert(bytes.subrange(at, at + 2) =~= rest.subrange(at - by, at - by + 2));
        let length = number(bytes, at, 2);
        let end = at + 2 + length;
        if length > 0 && end <= bytes.len() {
            let body = bytes.subrange(at + 2, end);
            assert(body =~= rest.subrange(at - by + 2, end - by));
            lemma_message_shifted(table, body, at, by);
            lemma_frames_shifted(table, bytes, end, by);
        }
    }
}

/// Whole messages of a stream's first part read the same in the stream.
proof fn lemma_frames_extended(table: Seq<Seq<u8>>, a: Seq<u8>, b: Seq<u8>, at: int)
    requires
        0 <= at <= a.len(),
        (a + b).len() <= usize::MAX,
    ensures
        ({
            let part = frames_spec(table, a, at);
            let whole = frames_spec(table, a + b, at);
            match part.outcome {
                Ok(stop) => at <= stop <= a.len() && whole == frames_spec(
                    table,
                    a + b,
                    stop as int,
                ).after(part.events),
                Err(_) => whole == part,
            }
        }),
    decreases a.len() - at,
{
    let part = frames_spec(table, a, at);
    let whole = frames_spec(table, a + b, at);
    assert(whole.after(Seq::empty()) =~= whole);
    if at + 2 <= a.len() {
        assert(a.subrange(at, at + 2) =~= (a + b).subrange(at, at + 2));
        let length = number(a, at, 2);
        let end = at + 2 + length;
        if length > 0 && end <= a.len() {
            let body = a.subrange(at + 2, end);
            assert(body =~= (a + b).subrange(at + 2, end));
            if let Ok(event) = message_spec(table, body, at) {
                lemma_frames_extended(table, a, b, end);
                let rest = frames_spec(table, a, end);
                if let Ok(stop) = rest.outcome {
                    let tail = frames_spec(table, a + b, stop as int);
                    assert(whole =~= tail.after(part.events));
                } else {
                    assert(whole =~= part);
                }
            }
        }
    }
}

/// The whole messages of a stream, from `at`, up to one that is refused.
pub open spec fn spans(table: Seq<Seq<u8>>, bytes: Seq<u8>, at: int) -> Seq<Span>
    decreases bytes.len() - at,
{
    if at < 0 || at + 2 > bytes.len() {
        Seq::empty()
    } else {
        let length = number(bytes, at, 2);
        let end = at + 2 + length;
        if length == 0 || end > bytes.len() {
            Seq::empty()
        } else {
            match message_spec(table, bytes.subrange(at + 2, end), at) {
                Ok(event) => seq![Span { end, events: some_event(event) }] + spans(
                    table,
                    bytes,
                    end,
                ),
                Err(_) => Seq::empty(),
            }
        }
    }
}

proof fn lemma_cut_from(table: Seq<Seq<u8>>, bytes: Seq<u8>, at: int, cut: int)
    requires
        0 <= at <= cut <= bytes.len(),
        frames_spec(table, bytes, at).outcome is Ok,
    ensures
        frames_spec(table, bytes.take(cut), at) == feed::read_until(
            spans(table, bytes, at),
            at,
            cut,
        ),
    decreases bytes.len() - at,
{
    let part = bytes.take(cut);
    let all = spans(table, bytes, at);
    if at + 2 <= cut {
        assert(part.subrange(at, at + 2) =~= bytes.subrange(at, at + 2));
    }
    if at + 2 <= bytes.len() {
        let end = at + 2 + number(bytes, at, 2);
        if end <= bytes.len() {
            assert(all.skip(1) =~= spans(table, bytes, end));
            if end <= cut {
                assert(part.subrange(at + 2, end) =~= bytes.subrange(at + 2, end));
                lemma_cut_from(table, bytes, end, cut);
            }
        }
    }
}

/// A clean stream cut anywhere reads up to the end of its last whole message,
/// with exactly the events of the messages up to there.
pub proof fn lemma_cut(table: Seq<Seq<u8>>, bytes: Seq<u8>, cut: int)
    requires
        0 <= cut <= bytes.len(),
        frames_spec(table, bytes, 0).outcome is Ok,
    ensures
        frames_spec(table, bytes.take(cut), 0) == feed::read_until(
            spans(table, bytes, 0),
            0,
            cut,
        ),
{
    lemma_cut_from(table, bytes, 0, cut);
}

/// Every event of a stream is about a symbol of the table, and what its kind
/// does not use is zero.
pub proof fn lemma_events_normal(table: Seq<Seq<u8>>, bytes: Seq<u8>, at: int)
    ensures
        feed::all_normal(table, frames_spec(table, bytes, at).events),
    decreases bytes.len() - at,
{
    if 0 <= at && at + 2 <= bytes.len() {
        let length = number(bytes, at, 2);
        let end = at + 2 + length;
        if length > 0 && end <= bytes.len() {
            let body = bytes.subrange(at + 2, end);
            if let Ok(event) = message_spec(table, body, at) {
                wire::lemma_be_value_bound(body.subrange(1, 3));
                wire::lemma_pow256();
                lemma_events_normal(table, bytes, end);
                feed::lemma_normal_adds(
                    table,
                    some_event(event),
                    frames_spec(table, bytes, end).events,
                );
            }
        }
    }
}

/// A stream split anywhere reads as it does whole, once what the first part
/// leaves over is glued to the second.
pub proof fn lemma_resumes(table: Seq<Seq<u8>>, a: Seq<u8>, b: Seq<u8>)
    requires
        (a + b).len() <= usize::MAX,
    ensures
        feed::resumes(
            frames_spec(table, a, 0),
            frames_spec(table, a + b, 0),
            |consumed: int| frames_spec(table, a.skip(consumed) + b, 0),
        ),
{
    lemma_frames_extended(table, a, b, 0);
    if let Ok(stop) = frames_spec(table, a, 0).outcome {
        lemma_frames_shifted(table, a + b, stop as int, stop as int);
        assert((a + b).skip(stop as int) =~= a.skip(stop as int) + b);
    }
}

} // verus!
