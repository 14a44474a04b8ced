//! FIX 4.4 tag=value, the market data subset: snapshot (35=W) and incremental
//! refresh (35=X), entries carrying type (269), price (270) and size (271),
//! under a symbol (55).
//!
//! BodyLength (9) frames a message; the checksum (10) is verified. The fields
//! of a snapshot or a refresh are read in whatever order they come, the type
//! (35) among them. Heartbeats and the like are valid FIX with nothing to emit,
//! and what such a message says behind its type is passed over.

use vstd::prelude::*;

use crate::feed;
use crate::feed::text;
use crate::feed::{Decoding, Event, FeedError, Kind, Parser, Side, Sink, Span};

verus! {

const SOH: u8 = 0x01;

const EQUALS: u8 = 0x3d;

/// Bytes of the trailer: `10=`, three digits, SOH.
const TRAILER: usize = 7;

/// The longest tag, in digits.
const TAG_DIGITS: usize = 9;

/// The longest integer field, in digits.
const INT_DIGITS: usize = 18;

#[derive(Debug)]
pub struct Fix<'a> {
    pub symbols: &'a [&'a [u8]],
}

// ---------------------------------------------------------------- the grammar

pub open spec fn malformed_at(start: int) -> FeedError {
    FeedError::Malformed { offset: start as usize }
}

/// What stands at a position where a `tag=value<SOH>` pair may.
pub enum Pair {
    /// The bytes end inside it.
    Short,
    /// No pair.
    Bad,
    Field { tag: nat, value: Seq<u8>, next: int },
}

/// Where the digits of a tag end: nine digits is every tag there is.
pub open spec fn tag_end(bytes: Seq<u8>, at: int) -> int {
    let end = text::skip_digits(bytes, at);
    if end > at + 9 {
        at + 9
    } else {
        end
    }
}

pub open spec fn pair_spec(bytes: Seq<u8>, at: int) -> Pair {
    let equals = tag_end(bytes, at);
    if equals >= bytes.len() {
        Pair::Short
    } else if bytes[equals] != 0x3d || equals == at {
        Pair::Bad
    } else {
        let soh = text::find_byte(bytes, equals + 1, 0x01);
        if soh >= bytes.len() {
            Pair::Short
        } else {
            Pair::Field {
                tag: text::decimal_value(bytes.subrange(at, equals)),
                value: bytes.subrange(equals + 1, soh),
                next: soh + 1,
            }
        }
    }
}

/// An integer field: one to eighteen digits.
pub open spec fn integer_spec(value: Seq<u8>) -> Option<nat> {
    if 1 <= value.len() <= 18 && text::all_digits(value) {
        Some(text::decimal_value(value))
    } else {
        None
    }
}

/// A decimal field in fixed point: an integer field before the dot, and a
/// value that an `i64` holds.
pub open spec fn decimal_spec(value: Seq<u8>) -> Option<i64> {
    if text::whole_part(value).len() <= 18 {
        text::fixed_point_i64(value)
    } else {
        None
    }
}

pub open spec fn byte_sum(bytes: Seq<u8>) -> nat
    decreases bytes.len(),
{
    if bytes.len() == 0 {
        0
    } else {
        byte_sum(bytes.drop_last()) + bytes.last() as nat
    }
}

/// What stands at a position where a message may.
pub enum Frame {
    /// The bytes end inside it.
    Short,
    /// No message.
    Bad,
    /// A whole message: where its body starts, and where the message ends.
    Whole { body: int, end: int },
}

/// The trailer at `at` claims the sum of the bytes from `start`, modulo 256.
pub open spec fn checksum_holds(bytes: Seq<u8>, start: int, at: int) -> bool {
    &&& bytes[at] == 0x31
    &&& bytes[at + 1] == 0x30
    &&& bytes[at + 2] == 0x3d
    &&& bytes[at + 6] == 0x01
    &&& integer_spec(bytes.subrange(at + 3, at + 6)) == Some(
        byte_sum(bytes.subrange(start, at)) % 256,
    )
}

#[verifier::opaque]
pub open spec fn frame_spec(bytes: Seq<u8>, start: int) -> Frame {
    match pair_spec(bytes, start) {
        Pair::Short => Frame::Short,
        Pair::Bad => Frame::Bad,
        Pair::Field { tag: first, value: _, next: second_at } => if first != 8 {
            Frame::Bad
        } else {
            match pair_spec(bytes, second_at) {
                Pair::Short => Frame::Short,
                Pair::Bad => Frame::Bad,
                Pair::Field { tag: second, value, next: body } => if second != 9 {
                    Frame::Bad
                } else {
                    match integer_spec(value) {
                        Some(length) => {
                            let end = body + length + 7;
                            if end > bytes.len() {
                                Frame::Short
                            } else if checksum_holds(bytes, start, end - 7) {
                                Frame::Whole { body, end }
                            } else {
                                Frame::Bad
                            }
                        },
                        None => Frame::Bad,
                    }
                },
            }
        },
    }
}

/// What a body's fields have said so far: whether the message as a whole is
/// market data, whether its type has said otherwise, the symbol, the entry
/// being filled, and whether a 269 opened one.
pub struct Body {
    pub market: bool,
    pub other: bool,
    pub symbol: Option<u16>,
    pub entry: Event,
    pub open: bool,
}

impl Body {
    /// Whether fields are for somebody else.
    pub open spec fn passed_over(self) -> bool {
        !self.market && self.other
    }
}

pub open spec fn empty_body(market: bool) -> Body {
    Body {
        market,
        other: false,
        symbol: None,
        entry: Event { kind: Kind::Level, ..feed::zero_event() },
        open: false,
    }
}

/// A field taken in: the entry it completed, if any, and either what is said
/// now or why reading stopped.
#[verifier::ext_equal]
pub struct Taken {
    pub events: Seq<Event>,
    pub result: Result<Body, FeedError>,
}

/// Emits the open entry under its symbol, where the message is market data, and
/// empties its numbers.
pub open spec fn flush_spec(body: Body, start: int) -> Taken {
    match body.symbol {
        Some(symbol) => {
            let emitted = Event { symbol, ..body.entry };
            Taken {
                events: if body.market {
                    seq![emitted]
                } else {
                    Seq::empty()
                },
                result: Ok(Body { entry: Event { price: 0, qty: 0, ..emitted }, ..body }),
            }
        },
        None => Taken { events: Seq::empty(), result: Err(malformed_at(start)) },
    }
}

/// The side and kind that an entry type names.
pub open spec fn entry_type(value: Seq<u8>) -> Option<(Side, Kind)> {
    if value.len() == 1 && value[0] == 0x30 {
        Some((Side::Bid, Kind::Level))
    } else if value.len() == 1 && value[0] == 0x31 {
        Some((Side::Ask, Kind::Level))
    } else if value.len() == 1 && value[0] == 0x32 {
        Some((Side::Bid, Kind::Trade))
    } else {
        None
    }
}

/// A 269 flushes the entry before it and opens one.
pub open spec fn open_spec(body: Body, value: Seq<u8>, start: int) -> Taken {
    let flushed = if body.open {
        flush_spec(body, start)
    } else {
        Taken { events: Seq::empty(), result: Ok(body) }
    };
    match flushed.result {
        Ok(ready) => Taken {
            events: flushed.events,
            result: match entry_type(value) {
                Some((side, kind)) => Ok(
                    Body { entry: Event { side, kind, ..ready.entry }, open: true, ..ready },
                ),
                None => Err(malformed_at(start)),
            },
        },
        Err(_) => flushed,
    }
}

/// A snapshot or an incremental refresh: `W` or `X`.
pub open spec fn is_market(value: Seq<u8>) -> bool {
    value.len() == 1 && (value[0] == 0x57 || value[0] == 0x58)
}

pub open spec fn field_spec(
    table: Seq<Seq<u8>>,
    body: Body,
    tag: nat,
    value: Seq<u8>,
    start: int,
) -> Taken {
    if tag == 35 {
        Taken { events: Seq::empty(), result: Ok(Body { other: !is_market(value), ..body }) }
    } else if body.passed_over() {
        Taken { events: Seq::empty(), result: Ok(body) }
    } else if tag == 55 {
        Taken {
            events: Seq::empty(),
            result: match feed::symbol_index(table, value) {
                Some(symbol) => Ok(Body { symbol: Some(symbol), ..body }),
                None => Err(FeedError::UnknownSymbol { offset: start as usize }),
            },
        }
    } else if tag == 269 {
        open_spec(body, value, start)
    } else if tag == 270 {
        Taken {
            events: Seq::empty(),
            result: match decimal_spec(value) {
                Some(price) => Ok(Body { entry: Event { price, ..body.entry }, ..body }),
                None => Err(malformed_at(start)),
            },
        }
    } else if tag == 271 {
        Taken {
            events: Seq::empty(),
            result: match decimal_spec(value) {
                Some(qty) => Ok(Body { entry: Event { qty, ..body.entry }, ..body }),
                None => Err(malformed_at(start)),
            },
        }
    } else {
        Taken { events: Seq::empty(), result: Ok(body) }
    }
}

/// A body read to its end.
#[verifier::ext_equal]
pub struct Entries {
    pub events: Seq<Event>,
    pub result: Result<(), FeedError>,
}

/// The fields from `at` up to `end`; the entry still open at the end is
/// emitted. A field that starts before `end` is read whole.
pub open spec fn body_spec(
    table: Seq<Seq<u8>>,
    bytes: Seq<u8>,
    at: int,
    end: int,
    start: int,
    body: Body,
) -> Entries
    decreases bytes.len() - at,
{
    proof {
        lemma_pair(bytes, at);
    }
    if at >= end || at < 0 {
        if body.open && !body.passed_over() {
            let flushed = flush_spec(body, start);
            Entries {
                events: flushed.events,
                result: match flushed.result {
                    Ok(_) => Ok(()),
                    Err(error) => Err(error),
                },
            }
        } else {
            Entries { events: Seq::empty(), result: Ok(()) }
        }
    } else {
        match pair_spec(bytes, at) {
            Pair::Field { tag, value, next } => {
                let taken = field_spec(table, body, tag, value, start);
                match taken.result {
                    Ok(said) => {
                        let rest = body_spec(table, bytes, next, end, start, said);
                        Entries { events: taken.events + rest.events, result: rest.result }
                    },
                    Err(error) => Entries { events: taken.events, result: Err(error) },
                }
            },
            _ => Entries { events: Seq::empty(), result: Err(malformed_at(start)) },
        }
    }
}

/// Whether a body with its fields from `at` up to `end` is market data: its
/// type, the last of them where it has several, is `W` or `X`. `said` is what
/// the fields before `at` made of it.
pub open spec fn market_spec(bytes: Seq<u8>, at: int, end: int, said: bool) -> bool
    decreases bytes.len() - at,
{
    proof {
        lemma_pair(bytes, at);
    }
    if at >= end || at < 0 {
        said
    } else {
        match pair_spec(bytes, at) {
            Pair::Field { tag, value, next } => market_spec(
                bytes,
                next,
                end,
                if tag == 35 {
                    is_market(value)
                } else {
                    said
                },
            ),
            _ => said,
        }
    }
}

/// The body of one message.
pub open spec fn message_spec(
    table: Seq<Seq<u8>>,
    bytes: Seq<u8>,
    at: int,
    end: int,
    start: int,
) -> Entries {
    body_spec(table, bytes, at, end, start, empty_body(market_spec(bytes, at, end, false)))
}

/// Whole messages from `at`.
pub open spec fn messages_spec(table: Seq<Seq<u8>>, bytes: Seq<u8>, at: int) -> Decoding
    decreases bytes.len() - at,
{
    proof {
        lemma_frame(bytes, at);
    }
    if at < 0 || at >= bytes.len() {
        Decoding::stop(Ok(at as usize))
    } else {
        match frame_spec(bytes, at) {
            Frame::Short => Decoding::stop(Ok(at as usize)),
            Frame::Bad => Decoding::stop(Err(malformed_at(at))),
            Frame::Whole { body, end } => {
                let entries = message_spec(table, bytes, body, end - 7, at);
                match entries.result {
                    Ok(()) => messages_spec(table, bytes, end).after(entries.events),
                    Err(error) => Decoding { events: entries.events, outcome: Err(error) },
                }
            },
        }
    }
}

pub proof fn lemma_pair(bytes: Seq<u8>, at: int)
    ensures
        at >= 0 ==> (pair_spec(bytes, at) matches Pair::Field { next, .. } ==> at + 1 < next
            <= bytes.len()),
{
    if 0 <= at < bytes.len() {
        text::lemma_skip_digits(bytes, at);
        let equals = tag_end(bytes, at);
        if equals < bytes.len() {
            text::lemma_find_byte(bytes, equals + 1, 0x01);
        }
    }
}

pub proof fn lemma_frame(bytes: Seq<u8>, at: int)
    ensures
        at >= 0 ==> (frame_spec(bytes, at) matches Frame::Whole { body, end } ==> at < body && body
            + 7 <= end <= bytes.len()),
{
    reveal(frame_spec);
    lemma_pair(bytes, at);
    if at >= 0 {
        if let Pair::Field { next, .. } = pair_spec(bytes, at) {
            lemma_pair(bytes, next);
        }
    }
}

// ------------------------------------------------------------------ the parser

/// One `tag=value` pair, and the cursor moves past its SOH. On an error it
/// stays.
///
/// Running out of bytes mid-pair is `NeedMore`, the routine stream case; a byte
/// that cannot belong to a pair is `Malformed`.
fn pair<'b>(bytes: &'b [u8], at: &mut usize, start: usize) -> (result: Result<
    (u32, &'b [u8]),
    FeedError,
>)
    requires
        *old(at) <= bytes@.len(),
    ensures
        match pair_spec(bytes@, *old(at) as int) {
            Pair::Short => {
                &&& result == Err::<(u32, &'b [u8]), FeedError>(FeedError::NeedMore)
                &&& *final(at) == *old(at)
            },
            Pair::Bad => {
                &&& result == Err::<(u32, &'b [u8]), FeedError>(malformed_at(start as int))
                &&& *final(at) == *old(at)
            },
            Pair::Field { tag, value, next } => {
                &&& result is Ok
                &&& result->Ok_0.0 == tag
                &&& result->Ok_0.1@ == value
                &&& *final(at) == next
                &&& next <= bytes@.len()
            },
        },
{
    let from = *at;
    let mut tag: u32 = 0;
    let mut i: usize = from;
    assert(bytes@.subrange(from as int, from as int) =~= Seq::<u8>::empty());
    assert(text::ten_to(0) == 1);
    while i < bytes.len() && i - from < TAG_DIGITS && bytes[i] >= text::DIGIT_ZERO && bytes[i]
        <= text::DIGIT_ZERO + 9
        invariant
            from <= i <= bytes@.len(),
            i - from <= TAG_DIGITS,
            forall|j: int| from <= j < i ==> text::is_digit(#[trigger] bytes@[j]),
            tag == text::decimal_value(bytes@.subrange(from as int, i as int)),
            tag < text::ten_to((i - from) as nat),
        decreases bytes@.len() - i,
    {
        proof {
            assert(text::ten_to(9) == 1_000_000_000) by {
                reveal_with_fuel(text::ten_to, 10);
            }
            text::lemma_ten_to_increasing((i - from + 1) as nat, 9);
            assert(bytes@.subrange(from as int, i + 1).drop_last() =~= bytes@.subrange(
                from as int,
                i as int,
            ));
        }
        tag = tag * 10 + (bytes[i] - text::DIGIT_ZERO) as u32;
        i = i + 1;
    }
    proof {
        text::lemma_skip_digits(bytes@, from as int);
        let digits = text::skip_digits(bytes@, from as int);
        assert(i <= digits) by {
            if digits < i {
                assert(text::is_digit(bytes@[digits]));
            }
        }
        if i < from + 9 && i < bytes@.len() {
            assert(!text::is_digit(bytes@[i as int]));
            assert(digits <= i) by {
                if digits > i {
                    assert(text::is_digit(bytes@[i as int]));
                }
            }
        }
        assert(tag_end(bytes@, from as int) == i);
    }
    if i == bytes.len() {
        return Err(FeedError::NeedMore);
    }
    if bytes[i] != EQUALS || i == from {
        return Err(FeedError::Malformed { offset: start });
    }
    let value_from = i + 1;
    let mut soh: usize = value_from;
    while soh < bytes.len() && bytes[soh] != SOH
        invariant
            value_from <= soh <= bytes@.len(),
            forall|j: int| value_from <= j < soh ==> bytes@[j] != SOH,
        decreases bytes@.len() - soh,
    {
        soh = soh + 1;
    }
    proof {
        text::lemma_find_byte_is(bytes@, value_from as int, SOH, soh as int);
    }
    if soh == bytes.len() {
        return Err(FeedError::NeedMore);
    }
    *at = soh + 1;
    Ok((tag, &bytes[value_from..soh]))
}

fn integer(value: &[u8], at: usize) -> (result: Result<i64, FeedError>)
    ensures
        match integer_spec(value@) {
            Some(number) => result is Ok && result->Ok_0 == number,
            None => result == Err::<i64, FeedError>(malformed_at(at as int)),
        },
{
    if value.len() == 0 || value.len() > INT_DIGITS {
        return Err(FeedError::Malformed { offset: at });
    }
    proof {
        if text::all_digits(value@) {
            text::lemma_decimal_value_bound(value@);
            text::lemma_ten_to_increasing(value@.len(), 18);
            assert(text::ten_to(18) == 1_000_000_000_000_000_000) by {
                reveal_with_fuel(text::ten_to, 19);
            }
        }
    }
    match text::decimal_u64(value) {
        Some(number) => Ok(number as i64),
        None => Err(FeedError::Malformed { offset: at }),
    }
}

/// A decimal like `43250.1` into fixed point, no float anywhere.
fn decimal(value: &[u8], at: usize) -> (result: Result<i64, FeedError>)
    ensures
        match decimal_spec(value@) {
            Some(number) => result == Ok::<i64, FeedError>(number),
            None => result == Err::<i64, FeedError>(malformed_at(at as int)),
        },
{
    let mut dot: usize = 0;
    while dot < value.len() && value[dot] != text::DOT
        invariant
            dot <= value@.len(),
            forall|j: int| 0 <= j < dot ==> value@[j] != text::DOT,
        decreases value@.len() - dot,
    {
        dot = dot + 1;
    }
    proof {
        text::lemma_find_byte_is(value@, 0, text::DOT, dot as int);
    }
    if dot > INT_DIGITS {
        return Err(FeedError::Malformed { offset: at });
    }
    match text::parse_fixed_point(value) {
        Some(number) => Ok(number),
        None => Err(FeedError::Malformed { offset: at }),
    }
}

/// The sum of `bytes` modulo 256.
fn checksum(bytes: &[u8]) -> (sum: u32)
    ensures
        sum == byte_sum(bytes@) % 256,
{
    let mut sum: u32 = 0;
    let mut i: usize = 0;
    assert(bytes@.take(0) =~= Seq::<u8>::empty());
    while i < bytes.len()
        invariant
            i <= bytes@.len(),
            sum < 256,
            sum == byte_sum(bytes@.take(i as int)) % 256,
        decreases bytes@.len() - i,
    {
        assert(bytes@.take(i + 1).drop_last() =~= bytes@.take(i as int));
        sum = (sum + bytes[i] as u32) % 256;
        i = i + 1;
    }
    assert(bytes@.take(i as int) =~= bytes@);
    sum
}

/// The message at `start`: where its body starts and where it ends, `None`
/// where the bytes end inside it.
fn frame(bytes: &[u8], start: usize) -> (result: Result<Option<(usize, usize)>, FeedError>)
    requires
        start <= bytes@.len(),
    ensures
        match frame_spec(bytes@, start as int) {
            Frame::Short => result == Ok::<Option<(usize, usize)>, FeedError>(None),
            Frame::Bad => result == Err::<Option<(usize, usize)>, FeedError>(
                malformed_at(start as int),
            ),
            Frame::Whole { body, end } => result == Ok::<Option<(usize, usize)>, FeedError>(
                Some((body as usize, end as usize)),
            ) && body + 7 <= end <= bytes@.len(),
        },
{
    reveal(frame_spec);
    let mut cursor: usize = start;
    let tag = match pair(bytes, &mut cursor, start) {
        Ok((tag, _)) => tag,
        Err(FeedError::NeedMore) => return Ok(None),
        Err(error) => return Err(error),
    };
    if tag != 8 {
        return Err(FeedError::Malformed { offset: start });
    }
    let (tag, length_value) = match pair(bytes, &mut cursor, start) {
        Ok(pair) => pair,
        Err(FeedError::NeedMore) => return Ok(None),
        Err(error) => return Err(error),
    };
    if tag != 9 {
        return Err(FeedError::Malformed { offset: start });
    }
    let body_length: u64 = match integer(length_value, start) {
        Ok(length) => length as u64,
        Err(error) => return Err(error),
    };
    let left = bytes.len() - cursor;
    if left < TRAILER || body_length > (left - TRAILER) as u64 {
        return Ok(None);
    }
    let trailer = cursor + body_length as usize;
    let end = trailer + TRAILER;
    if bytes[trailer] != 0x31 || bytes[trailer + 1] != 0x30 || bytes[trailer + 2] != EQUALS
        || bytes[trailer + 6] != SOH {
        return Err(FeedError::Malformed { offset: start });
    }
    proof {
        lemma_pair(bytes@, start as int);
        if let Pair::Field { next, .. } = pair_spec(bytes@, start as int) {
            lemma_pair(bytes@, next);
        }
    }
    let sum = checksum(&bytes[start..trailer]);
    let claimed = match integer(&bytes[trailer + 3..trailer + 6], start) {
        Ok(claimed) => claimed,
        Err(error) => return Err(error),
    };
    if sum as i64 != claimed {
        return Err(FeedError::Malformed { offset: start });
    }
    Ok(Some((cursor, end)))
}

/// The entry being filled while a body is read.
struct Filling {
    market: bool,
    other: bool,
    symbol: Option<u16>,
    entry: Event,
    open: bool,
}

impl Filling {
    spec fn body(&self) -> Body {
        Body {
            market: self.market,
            other: self.other,
            symbol: self.symbol,
            entry: self.entry,
            open: self.open,
        }
    }
}

/// Whether the body between `from` and `end` is market data.
fn market(bytes: &[u8], from: usize, end: usize) -> (market: bool)
    requires
        from <= end <= bytes@.len(),
    ensures
        market == market_spec(bytes@, from as int, end as int, false),
{
    let mut at: usize = from;
    let mut said = false;
    while at < end
        invariant
            at <= bytes@.len(),
            end <= bytes@.len(),
            market_spec(bytes@, from as int, end as int, false) == market_spec(
                bytes@,
                at as int,
                end as int,
                said,
            ),
        decreases bytes@.len() - at,
    {
        proof {
            lemma_pair(bytes@, at as int);
        }
        let (tag, value) = match pair(bytes, &mut at, from) {
            Ok(pair) => pair,
            Err(_) => return said,
        };
        if tag == 35 {
            said = market_type(value);
        }
    }
    said
}

/// A snapshot or an incremental refresh: `W` or `X`.
fn market_type(value: &[u8]) -> (market: bool)
    ensures
        market == is_market(value@),
{
    value.len() == 1 && (value[0] == 0x57 || value[0] == 0x58)
}

impl<'a> Fix<'a> {
    /// The body between BodyLength and the checksum trailer: one entry emitted
    /// per completed 269/270/271 group.
    fn body<S: Sink>(
        &self,
        bytes: &[u8],
        from: usize,
        end: usize,
        start: usize,
        sink: &mut S,
    ) -> (result: Result<(), FeedError>)
        requires
            from <= end <= bytes@.len(),
        ensures
            ({
                let entries = message_spec(
                    feed::names(self.symbols@),
                    bytes@,
                    from as int,
                    end as int,
                    start as int,
                );
                &&& final(sink).received() == old(sink).received() + entries.events
                &&& result == entries.result
            }),
    {
        let ghost table = feed::names(self.symbols@);
        let ghost whole = message_spec(
            table,
            bytes@,
            from as int,
            end as int,
            start as int,
        );
        let ghost mut passed = Seq::<Event>::empty();
        assert(sink.received() + passed =~= sink.received());
        let mut at: usize = from;
        let mut entry = Event::zeroed();
        entry.kind = Kind::Level;
        let market = market(bytes, from, end);
        let mut filling = Filling { market, other: false, symbol: None, entry, open: false };
        while at < end
            invariant
                at <= bytes@.len(),
                end <= bytes@.len(),
                table == feed::names(self.symbols@),
                whole == message_spec(
                    table,
                    bytes@,
                    from as int,
                    end as int,
                    start as int,
                ),
                sink.received() == old(sink).received() + passed,
                ({
                    let rest = body_spec(
                        table,
                        bytes@,
                        at as int,
                        end as int,
                        start as int,
                        filling.body(),
                    );
                    &&& whole.events == passed + rest.events
                    &&& whole.result == rest.result
                }),
            decreases bytes@.len() - at,
        {
            proof {
                lemma_pair(bytes@, at as int);
            }
            let (tag, value) = match pair(bytes, &mut at, start) {
                Ok(pair) => pair,
                // The frame is fully buffered, so running out of bytes here
                // means that the structure overran its own BodyLength.
                Err(_) => {
                    assert(whole.events =~= passed);
                    return Err(FeedError::Malformed { offset: start });
                },
            };
            let ghost taken = field_spec(
                table,
                filling.body(),
                tag as nat,
                value@,
                start as int,
            );
            assert(old(sink).received() + passed + taken.events =~= old(sink).received() + (passed
                + taken.events));
            match self.field(tag, value, start, &mut filling, sink) {
                Ok(()) => {},
                Err(error) => return Err(error),
            }
            proof {
                let rest = body_spec(
                    table,
                    bytes@,
                    at as int,
                    end as int,
                    start as int,
                    filling.body(),
                );
                assert(passed + (taken.events + rest.events) =~= (passed + taken.events)
                    + rest.events);
                passed = passed + taken.events;
            }
        }
        if filling.open && (filling.market || !filling.other) {
            proof {
                let flushed = flush_spec(filling.body(), start as int);
                assert(old(sink).received() + passed + flushed.events =~= old(sink).received() + (
                passed + flushed.events));
            }
            match self.flush(&mut filling, start, sink) {
                Ok(()) => Ok(()),
                Err(error) => Err(error),
            }
        } else {
            assert(whole.events =~= passed);
            Ok(())
        }
    }

    /// Takes in one field of a body.
    fn field<S: Sink>(
        &self,
        tag: u32,
        value: &[u8],
        start: usize,
        filling: &mut Filling,
        sink: &mut S,
    ) -> (result: Result<(), FeedError>)
        ensures
            ({
                let taken = field_spec(
                    feed::names(self.symbols@),
                    old(filling).body(),
                    tag as nat,
                    value@,
                    start as int,
                );
                &&& final(sink).received() == old(sink).received() + taken.events
                &&& match taken.result {
                    Ok(body) => result is Ok && final(filling).body() == body,
                    Err(error) => result == Err::<(), FeedError>(error),
                }
            }),
    {
        assert(sink.received() + Seq::<Event>::empty() =~= sink.received());
        if tag == 35 {
            filling.other = !market_type(value);
        } else if !filling.market && filling.other {
            // Heartbeats and the like: valid FIX, nothing to emit.
        } else if tag == 55 {
            match feed::lookup(self.symbols, value) {
                Some(symbol) => {
                    filling.symbol = Some(symbol);
                },
                None => return Err(FeedError::UnknownSymbol { offset: start }),
            }
        } else if tag == 269 {
            // 269 opens an entry group; flush the previous one.
            if filling.open {
                match self.flush(filling, start, sink) {
                    Ok(()) => {},
                    Err(error) => return Err(error),
                }
            }
            let kind: u8 = if value.len() == 1 {
                value[0]
            } else {
                0
            };
            if kind == 0x30 {
                filling.entry.side = Side::Bid;
                filling.entry.kind = Kind::Level;
            } else if kind == 0x31 {
                filling.entry.side = Side::Ask;
                filling.entry.kind = Kind::Level;
            } else if kind == 0x32 {
                filling.entry.side = Side::Bid;
                filling.entry.kind = Kind::Trade;
            } else {
                return Err(FeedError::Malformed { offset: start });
            }
            filling.open = true;
        } else if tag == 270 {
            match decimal(value, start) {
                Ok(price) => {
                    filling.entry.price = price;
                },
                Err(error) => return Err(error),
            }
        } else if tag == 271 {
            match decimal(value, start) {
                Ok(qty) => {
                    filling.entry.qty = qty;
                },
                Err(error) => return Err(error),
            }
        }
        Ok(())
    }

    fn flush<S: Sink>(&self, filling: &mut Filling, start: usize, sink: &mut S) -> (result: Result<
        (),
        FeedError,
    >)
        ensures
            ({
                let taken = flush_spec(old(filling).body(), start as int);
                &&& final(sink).received() == old(sink).received() + taken.events
                &&& match taken.result {
                    Ok(body) => result is Ok && final(filling).body() == body,
                    Err(error) => result == Err::<(), FeedError>(error),
                }
            }),
    {
        let Some(symbol) = filling.symbol else {
            assert(sink.received() + Seq::<Event>::empty() =~= sink.received());
            return Err(FeedError::Malformed { offset: start });
        };
        filling.entry.symbol = symbol;
        let entry = filling.entry;
        assert(sink.received() + seq![entry] =~= sink.received().push(entry));
        assert(sink.received() + Seq::<Event>::empty() =~= sink.received());
        if filling.market {
            sink.accept(&entry);
        }
        filling.entry.price = 0;
        filling.entry.qty = 0;
        Ok(())
    }
}

impl<'a> Parser for Fix<'a> {
    open spec fn decoding(&self, bytes: Seq<u8>) -> Decoding {
        messages_spec(feed::names(self.symbols@), bytes, 0)
    }

    fn parse<S: Sink>(&self, bytes: &[u8], sink: &mut S) -> (result: Result<usize, FeedError>) {
        let ghost table = feed::names(self.symbols@);
        let ghost whole = messages_spec(table, bytes@, 0);
        let ghost mut passed = Seq::<Event>::empty();
        let mut at: usize = 0;
        assert(sink.received() + passed =~= sink.received());
        loop
            invariant
                at <= bytes@.len(),
                table == feed::names(self.symbols@),
                whole == self.decoding(bytes@),
                sink.received() == old(sink).received() + passed,
                ({
                    let rest = messages_spec(table, bytes@, at as int);
                    &&& whole.events == passed + rest.events
                    &&& whole.outcome == rest.outcome
                }),
            decreases bytes@.len() - at,
        {
            if at == bytes.len() {
                assert(whole.events =~= passed);
                return Ok(at);
            }
            proof {
                lemma_frame(bytes@, at as int);
            }
            let (body, end) = match frame(bytes, at) {
                Ok(Some(found)) => found,
                Ok(None) => {
                    assert(whole.events =~= passed);
                    return Ok(at);
                },
                Err(error) => {
                    assert(whole.events =~= passed);
                    return Err(error);
                },
            };
            let ghost entries = message_spec(table, bytes@, body as int, end - 7, at as int);
            assert(old(sink).received() + passed + entries.events =~= old(sink).received() + (passed
                + entries.events));
            match self.body(bytes, body, end - TRAILER, at, sink) {
                Ok(()) => {},
                Err(error) => return Err(error),
            }
            proof {
                let rest = messages_spec(table, bytes@, end as int);
                assert(passed + (entries.events + rest.events) =~= (passed + entries.events)
                    + rest.events);
                passed = passed + entries.events;
            }
            at = end;
        }
    }
}

// ------------------------------------------------------------- reading in pieces

proof fn lemma_pair_shifted(bytes: Seq<u8>, at: int, by: int)
    requires
        0 <= by <= at <= bytes.len(),
    ensures
        match pair_spec(bytes.skip(by), at - by) {
            Pair::Short => pair_spec(bytes, at) is Short,
            Pair::Bad => pair_spec(bytes, at) is Bad,
            Pair::Field { tag, value, next } => pair_spec(bytes, at) == (Pair::Field {
                tag,
                value,
                next: next + by,
            }),
        },
{
    let rest = bytes.skip(by);
    text::lemma_skip_digits_shifted(bytes, at, by);
    text::lemma_skip_digits(bytes, at);
    let equals = tag_end(bytes, at);
    if equals < bytes.len() {
        text::lemma_find_byte_shifted(bytes, equals + 1, 0x01, by);
        text::lemma_find_byte(bytes, equals + 1, 0x01);
        let soh = text::find_byte(bytes, equals + 1, 0x01);
        assert(bytes.subrange(at, equals) =~= rest.subrange(at - by, equals - by));
        if soh < bytes.len() {
            assert(bytes.subrange(equals + 1, soh) =~= rest.subrange(equals + 1 - by, soh - by));
        }
    }
}

#[verifier::rlimit(60)]
#[verifier::spinoff_prover]
proof fn lemma_frame_shifted(bytes: Seq<u8>, at: int, by: int)
    requires
        0 <= by <= at <= bytes.len(),
    ensures
        match frame_spec(bytes.skip(by), at - by) {
            Frame::Short => frame_spec(bytes, at) is Short,
            Frame::Bad => frame_spec(bytes, at) is Bad,
            Frame::Whole { body, end } => frame_spec(bytes, at) == (Frame::Whole {
                body: body + by,
                end: end + by,
            }),
        },
{
    reveal(frame_spec);
    let rest = bytes.skip(by);
    lemma_pair_shifted(bytes, at, by);
    lemma_pair(bytes, at);
    if let Pair::Field { next: second, .. } = pair_spec(bytes, at) {
        lemma_pair_shifted(bytes, second, by);
        lemma_pair(bytes, second);
        if let Pair::Field { value, next: body, .. } = pair_spec(bytes, second) {
            if let Some(length) = integer_spec(value) {
                let claim = body + length;
                if claim + 7 <= bytes.len() {
                    assert(bytes.subrange(claim + 3, claim + 6) =~= rest.subrange(
                        claim + 3 - by,
                        claim + 6 - by,
                    ));
                    assert(bytes.subrange(at, claim) =~= rest.subrange(at - by, claim - by));
                }
            }
        }
    }
}

/// The same entries, read from bytes that stand `by` further on.
pub open spec fn entries_shifted(entries: Entries, by: int) -> Entries {
    Entries {
        result: match entries.result {
            Ok(()) => Ok(()),
            Err(error) => Err(feed::error_shifted(error, by)),
        },
        ..entries
    }
}

proof fn lemma_field_shifted(
    table: Seq<Seq<u8>>,
    body: Body,
    tag: nat,
    value: Seq<u8>,
    start: int,
    by: int,
)
    requires
        0 <= by <= start <= usize::MAX,
    ensures
        ({
            let here = field_spec(table, body, tag, value, start);
            let there = field_spec(table, body, tag, value, start - by);
            &&& here.events == there.events
            &&& match there.result {
                Ok(said) => here.result == Ok::<Body, FeedError>(said),
                Err(error) => here.result == Err::<Body, FeedError>(
                    feed::error_shifted(error, by),
                ),
            }
        }),
{
}

proof fn lemma_body_shifted(
    table: Seq<Seq<u8>>,
    bytes: Seq<u8>,
    at: int,
    end: int,
    start: int,
    body: Body,
    by: int,
)
    requires
        0 <= by <= start <= at <= bytes.len() <= usize::MAX,
    ensures
        body_spec(table, bytes, at, end, start, body) == entries_shifted(
            body_spec(table, bytes.skip(by), at - by, end - by, start - by, body),
            by,
        ),
    decreases bytes.len() - at,
{
    lemma_pair(bytes, at);
    lemma_pair_shifted(bytes, at, by);
    let here = body_spec(table, bytes, at, end, start, body);
    let there = body_spec(table, bytes.skip(by), at - by, end - by, start - by, body);
    if at < end {
        if let Pair::Field { tag, value, next } = pair_spec(bytes, at) {
            lemma_field_shifted(table, body, tag, value, start, by);
            if let Ok(said) = field_spec(table, body, tag, value, start).result {
                lemma_body_shifted(table, bytes, next, end, start, said, by);
            }
        }
    }
    assert(here =~= entries_shifted(there, by));
}

proof fn lemma_market_shifted(bytes: Seq<u8>, at: int, end: int, said: bool, by: int)
    requires
        0 <= by <= at <= bytes.len(),
    ensures
        market_spec(bytes, at, end, said) == market_spec(
            bytes.skip(by),
            at - by,
            end - by,
            said,
        ),
    decreases bytes.len() - at,
{
    lemma_pair(bytes, at);
    lemma_pair_shifted(bytes, at, by);
    if at < end {
        if let Pair::Field { tag, value, next } = pair_spec(bytes, at) {
            let now = if tag == 35 {
                is_market(value)
            } else {
                said
            };
            lemma_market_shifted(bytes, next, end, now, by);
        }
    }
}

proof fn lemma_message_shifted(
    table: Seq<Seq<u8>>,
    bytes: Seq<u8>,
    at: int,
    end: int,
    start: int,
    by: int,
)
    requires
        0 <= by <= start <= at <= bytes.len() <= usize::MAX,
    ensures
        message_spec(table, bytes, at, end, start) == entries_shifted(
            message_spec(table, bytes.skip(by), at - by, end - by, start - by),
            by,
        ),
{
    let market = market_spec(bytes, at, end, false);
    lemma_market_shifted(bytes, at, end, false, by);
    lemma_body_shifted(table, bytes, at, end, start, empty_body(market), by);
}

/// Where a stream stands does not matter to what it says.
proof fn lemma_messages_shifted(table: Seq<Seq<u8>>, bytes: Seq<u8>, at: int, by: int)
    requires
        0 <= by <= at <= bytes.len() <= usize::MAX,
    ensures
        messages_spec(table, bytes, at) == feed::shifted(
            messages_spec(table, bytes.skip(by), at - by),
            by,
        ),
    decreases bytes.len() - at,
{
    lemma_frame(bytes, at);
    lemma_frame_shifted(bytes, at, by);
    if at < bytes.len() {
        if let Frame::Whole { body, end } = frame_spec(bytes, at) {
            lemma_message_shifted(table, bytes, body, end - 7, at, by);
            lemma_messages_shifted(table, bytes, end, by);
        }
    }
}

/// A pair that ends, or cannot be one, in a stream's first part reads the same
/// in the stream.
proof fn lemma_pair_extended(a: Seq<u8>, b: Seq<u8>, at: int)
    requires
        0 <= at <= a.len(),
    ensures
        pair_spec(a, at) is Short || pair_spec(a + b, at) == pair_spec(a, at),
{
    let whole = a + b;
    text::lemma_skip_digits(a, at);
    let equals = tag_end(a, at);
    if equals < a.len() {
        if text::skip_digits(a, at) < a.len() {
            text::lemma_skip_digits_extended(a, b, at);
        } else {
            // Nine digits and more stand in the first part already.
            text::lemma_skip_digits(whole, at);
            assert(text::skip_digits(whole, at) >= a.len()) by {
                let end = text::skip_digits(whole, at);
                if end < a.len() {
                    assert(whole[end] == a[end]);
                    assert(text::is_digit(a[end]));
                }
            }
        }
        assert(tag_end(whole, at) == equals);
        assert(whole[equals] == a[equals]);
        text::lemma_find_byte(a, equals + 1, 0x01);
        let soh = text::find_byte(a, equals + 1, 0x01);
        if soh < a.len() {
            text::lemma_find_byte_extended(a, b, equals + 1, 0x01);
            assert(whole.subrange(at, equals) =~= a.subrange(at, equals));
            assert(whole.subrange(equals + 1, soh) =~= a.subrange(equals + 1, soh));
        }
    }
}

proof fn lemma_frame_extended(a: Seq<u8>, b: Seq<u8>, at: int)
    requires
        0 <= at <= a.len(),
    ensures
        frame_spec(a, at) is Short || frame_spec(a + b, at) == frame_spec(a, at),
        frame_spec(a, at) matches Frame::Whole { body, end } ==> {
            &&& a[end - 7] == 0x31
            &&& a[end - 6] == 0x30
            &&& a[end - 5] == 0x3d
            &&& a[end - 1] == 0x01
        },
{
    reveal(frame_spec);
    let whole = a + b;
    lemma_pair_extended(a, b, at);
    lemma_pair(a, at);
    if let Pair::Field { next: second, .. } = pair_spec(a, at) {
        lemma_pair_extended(a, b, second);
        lemma_pair(a, second);
        if let Pair::Field { value, next: body, .. } = pair_spec(a, second) {
            if let Some(length) = integer_spec(value) {
                let claim = body + length;
                if claim + 7 <= a.len() {
                    assert(whole.subrange(claim + 3, claim + 6) =~= a.subrange(
                        claim + 3,
                        claim + 6,
                    ));
                    assert(whole.subrange(at, claim) =~= a.subrange(at, claim));
                }
            }
        }
    }
}

/// A field that starts before a message's trailer ends inside the message.
proof fn lemma_pair_ends(a: Seq<u8>, at: int, end: int)
    requires
        0 <= at < end,
        end + 7 <= a.len(),
        a[end + 2] == 0x3d,
        a[end + 6] == 0x01,
    ensures
        !(pair_spec(a, at) is Short),
{
    text::lemma_skip_digits(a, at);
    if text::skip_digits(a, at) > end + 2 {
        assert(text::is_digit(a[end + 2]));
    }
    let equals = tag_end(a, at);
    text::lemma_find_byte(a, equals + 1, 0x01);
    if text::find_byte(a, equals + 1, 0x01) > end + 6 {
        assert(a[end + 6] != 0x01);
    }
}

/// The fields of a whole message end inside it, so what follows it does not
/// matter.
proof fn lemma_message_extended(
    table: Seq<Seq<u8>>,
    a: Seq<u8>,
    b: Seq<u8>,
    at: int,
    end: int,
    start: int,
)
    requires
        0 <= at <= a.len(),
        0 <= end,
        end + 7 <= a.len(),
        a[end + 2] == 0x3d,
        a[end + 6] == 0x01,
    ensures
        message_spec(table, a + b, at, end, start) == message_spec(table, a, at, end, start),
{
    lemma_market_extended(a, b, at, end, false);
    let market = market_spec(a, at, end, false);
    lemma_body_extended(table, a, b, at, end, start, empty_body(market));
}

proof fn lemma_market_extended(a: Seq<u8>, b: Seq<u8>, at: int, end: int, said: bool)
    requires
        0 <= at <= a.len(),
        0 <= end,
        end + 7 <= a.len(),
        a[end + 2] == 0x3d,
        a[end + 6] == 0x01,
    ensures
        market_spec(a + b, at, end, said) == market_spec(a, at, end, said),
    decreases a.len() - at,
{
    lemma_pair(a, at);
    lemma_pair(a + b, at);
    if at < end {
        lemma_pair_ends(a, at, end);
        lemma_pair_extended(a, b, at);
        if let Pair::Field { tag, value, next } = pair_spec(a, at) {
            let now = if tag == 35 {
                is_market(value)
            } else {
                said
            };
            lemma_market_extended(a, b, next, end, now);
        }
    }
}

proof fn lemma_body_extended(
    table: Seq<Seq<u8>>,
    a: Seq<u8>,
    b: Seq<u8>,
    at: int,
    end: int,
    start: int,
    body: Body,
)
    requires
        0 <= at <= a.len(),
        0 <= end,
        end + 7 <= a.len(),
        a[end + 2] == 0x3d,
        a[end + 6] == 0x01,
    ensures
        body_spec(table, a + b, at, end, start, body) == body_spec(table, a, at, end, start, body),
    decreases a.len() - at,
{
    lemma_pair(a, at);
    lemma_pair(a + b, at);
    if at < end {
        lemma_pair_ends(a, at, end);
        lemma_pair_extended(a, b, at);
        if let Pair::Field { tag, value, next } = pair_spec(a, at) {
            if let Ok(said) = field_spec(table, body, tag, value, start).result {
                lemma_body_extended(table, a, b, next, end, start, said);
            }
        }
    }
}

/// Whole messages of a stream's first part read the same in the stream.
proof fn lemma_messages_extended(table: Seq<Seq<u8>>, a: Seq<u8>, b: Seq<u8>, at: int)
    requires
        0 <= at <= a.len(),
        (a + b).len() <= usize::MAX,
    ensures
        ({
            let part = messages_spec(table, a, at);
            let whole = messages_spec(table, a + b, at);
            match part.outcome {
                Ok(stop) => at <= stop <= a.len() && whole == messages_spec(
                    table,
                    a + b,
                    stop as int,
                ).after(part.events),
                Err(_) => whole == part,
            }
        }),
    decreases a.len() - at,
{
    let part = messages_spec(table, a, at);
    let whole = messages_spec(table, a + b, at);
    assert(whole.after(Seq::empty()) =~= whole);
    lemma_frame(a, at);
    lemma_frame_extended(a, b, at);
    if at < a.len() {
        if let Frame::Whole { body, end } = frame_spec(a, at) {
            lemma_message_extended(table, a, b, body, end - 7, at);
            let entries = message_spec(table, a, body, end - 7, at);
            if entries.result is Ok {
                lemma_messages_extended(table, a, b, end);
                let rest = messages_spec(table, a, end);
                if let Ok(stop) = rest.outcome {
                    let tail = messages_spec(table, a + b, stop as int);
                    assert(whole =~= tail.after(part.events));
                } else {
                    assert(whole =~= part);
                }
            }
        }
    }
}

/// The whole messages of a stream, from `at`, up to one that is refused.
pub open spec fn spans(table: Seq<Seq<u8>>, bytes: Seq<u8>, at: int) -> Seq<Span>
    decreases bytes.len() - at,
{
    proof {
        lemma_frame(bytes, at);
    }
    if at < 0 || at >= bytes.len() {
        Seq::empty()
    } else {
        match frame_spec(bytes, at) {
            Frame::Whole { body, end } => {
                let entries = message_spec(table, bytes, body, end - 7, at);
                match entries.result {
                    Ok(()) => seq![Span { end, events: entries.events }] + spans(
                        table,
                        bytes,
                        end,
                    ),
                    Err(_) => Seq::empty(),
                }
            },
            _ => Seq::empty(),
        }
    }
}

/// A pair that ends in a stream's first part reads the same there.
proof fn lemma_pair_cut(a: Seq<u8>, b: Seq<u8>, at: int)
    requires
        0 <= at <= a.len(),
        pair_spec(a + b, at) matches Pair::Field { next, .. } && next <= a.len(),
    ensures
        pair_spec(a, at) == pair_spec(a + b, at),
{
    let whole = a + b;
    text::lemma_skip_digits(whole, at);
    text::lemma_skip_digits(a, at);
    let equals = tag_end(whole, at);
    text::lemma_find_byte(whole, equals + 1, 0x01);
    let soh = text::find_byte(whole, equals + 1, 0x01);
    assert(a[soh] == whole[soh]);
    assert(a[equals] == whole[equals]);
    assert(!(pair_spec(a, at) is Short)) by {
        let here = tag_end(a, at);
        if text::skip_digits(a, at) > equals {
            assert(text::is_digit(a[equals]));
        }
        text::lemma_find_byte(a, here + 1, 0x01);
        if text::find_byte(a, here + 1, 0x01) > soh {
            assert(a[soh] != 0x01);
        }
    }
    lemma_pair_extended(a, b, at);
}

/// A message that ends in a stream's first part is whole there.
proof fn lemma_frame_cut(a: Seq<u8>, b: Seq<u8>, at: int)
    requires
        0 <= at <= a.len(),
        frame_spec(a + b, at) matches Frame::Whole { end, .. } && end <= a.len(),
    ensures
        frame_spec(a, at) == frame_spec(a + b, at),
{
    assert(!(frame_spec(a, at) is Short)) by {
        reveal(frame_spec);
        lemma_pair(a + b, at);
        if let Pair::Field { next, .. } = pair_spec(a + b, at) {
            lemma_pair(a + b, next);
            if let Pair::Field { next: body, .. } = pair_spec(a + b, next) {
                lemma_pair_cut(a, b, at);
                lemma_pair_cut(a, b, next);
            }
        }
    }
    lemma_frame_extended(a, b, at);
}

proof fn lemma_cut_from(table: Seq<Seq<u8>>, bytes: Seq<u8>, at: int, cut: int)
    requires
        0 <= at <= cut <= bytes.len(),
        messages_spec(table, bytes, at).outcome is Ok,
    ensures
        messages_spec(table, bytes.take(cut), at) == feed::read_until(
            spans(table, bytes, at),
            at,
            cut,
        ),
    decreases bytes.len() - at,
{
    let a = bytes.take(cut);
    let b = bytes.skip(cut);
    let all = spans(table, bytes, at);
    assert(bytes =~= a + b);
    lemma_frame(bytes, at);
    lemma_frame(a, at);
    lemma_frame_extended(a, b, at);
    if at < bytes.len() {
        if let Frame::Whole { body, end } = frame_spec(bytes, at) {
            assert(all.skip(1) =~= spans(table, bytes, end));
            if end <= cut {
                lemma_frame_cut(a, b, at);
                lemma_message_extended(table, a, b, body, end - 7, at);
                lemma_cut_from(table, bytes, end, cut);
            }
        }
    }
}

/// A clean stream cut anywhere reads up to the end of its last whole message,
/// with exactly the events of the messages up to there.
pub proof fn lemma_cut(table: Seq<Seq<u8>>, bytes: Seq<u8>, cut: int)
    requires
        0 <= cut <= bytes.len(),
        messages_spec(table, bytes, 0).outcome is Ok,
    ensures
        messages_spec(table, bytes.take(cut), 0) == feed::read_until(
            spans(table, bytes, 0),
            0,
            cut,
        ),
{
    lemma_cut_from(table, bytes, 0, cut);
}

/// A stream split anywhere reads as it does whole, once what the first part
/// leaves over is glued to the second.
pub proof fn lemma_resumes(table: Seq<Seq<u8>>, a: Seq<u8>, b: Seq<u8>)
    requires
        (a + b).len() <= usize::MAX,
    ensures
        feed::resumes(
            messages_spec(table, a, 0),
            messages_spec(table, a + b, 0),
            |consumed: int| messages_spec(table, a.skip(consumed) + b, 0),
        ),
{
    lemma_messages_extended(table, a, b, 0);
    if let Ok(stop) = messages_spec(table, a, 0).outcome {
        lemma_messages_shifted(table, a + b, stop as int, stop as int);
        assert((a + b).skip(stop as int) =~= a.skip(stop as int) + b);
    }
}

// --------------------------------------------------------------------- the events

/// What is said so far can only become a normal event.
spec fn body_normal(table: Seq<Seq<u8>>, body: Body) -> bool {
    &&& body.symbol matches Some(symbol) ==> symbol < table.len()
    &&& body.entry.order_id == 0
    &&& body.entry.aux == 0
    &&& body.entry.kind == Kind::Level || body.entry.kind == Kind::Trade
}

proof fn lemma_body_normal(
    table: Seq<Seq<u8>>,
    bytes: Seq<u8>,
    at: int,
    end: int,
    start: int,
    body: Body,
)
    requires
        body_normal(table, body),
    ensures
        feed::all_normal(table, body_spec(table, bytes, at, end, start, body).events),
    decreases bytes.len() - at,
{
    lemma_pair(bytes, at);
    if 0 <= at < end {
        if let Pair::Field { tag, value, next } = pair_spec(bytes, at) {
            feed::lemma_symbol_index(table, value);
            let taken = field_spec(table, body, tag, value, start);
            assert(feed::all_normal(table, taken.events));
            if let Ok(said) = taken.result {
                lemma_body_normal(table, bytes, next, end, start, said);
                feed::lemma_normal_adds(
                    table,
                    taken.events,
                    body_spec(table, bytes, next, end, start, said).events,
                );
            }
        }
    }
}

/// Every event of a stream is about a symbol of the table, and what its kind
/// does not use is zero.
pub proof fn lemma_events_normal(table: Seq<Seq<u8>>, bytes: Seq<u8>, at: int)
    ensures
        feed::all_normal(table, messages_spec(table, bytes, at).events),
    decreases bytes.len() - at,
{
    lemma_frame(bytes, at);
    if 0 <= at < bytes.len() {
        if let Frame::Whole { body, end } = frame_spec(bytes, at) {
            let market = market_spec(bytes, body, end - 7, false);
            lemma_body_normal(table, bytes, body, end - 7, at, empty_body(market));
            lemma_events_normal(table, bytes, end);
            feed::lemma_normal_adds(
                table,
                message_spec(table, bytes, body, end - 7, at).events,
                messages_spec(table, bytes, end).events,
            );
        }
    }
}

// ------------------------------------------------------------------ the checksum

proof fn lemma_byte_sum_update(bytes: Seq<u8>, i: int, byte: u8)
    requires
        0 <= i < bytes.len(),
    ensures
        byte_sum(bytes.update(i, byte)) == byte_sum(bytes) - bytes[i] + byte,
    decreases bytes.len(),
{
    let after = bytes.update(i, byte);
    if i == bytes.len() - 1 {
        assert(after.drop_last() =~= bytes.drop_last());
    } else {
        lemma_byte_sum_update(bytes.drop_last(), i, byte);
        assert(after.drop_last() =~= bytes.drop_last().update(i, byte));
    }
}

/// A pair is read from its own bytes alone.
proof fn lemma_pair_kept(a: Seq<u8>, b: Seq<u8>, at: int)
    requires
        0 <= at,
        pair_spec(a, at) matches Pair::Field { next, .. } && next <= b.len() && b.subrange(
            at,
            next,
        ) == a.subrange(at, next),
    ensures
        pair_spec(b, at) == pair_spec(a, at),
{
    lemma_pair(a, at);
    let next = pair_spec(a, at)->next;
    assert forall|j: int| at <= j < next implies #[trigger] b[j] == a[j] by {
        assert(b.subrange(at, next)[j - at] == a.subrange(at, next)[j - at]);
    }
    text::lemma_skip_digits(a, at);
    let equals = tag_end(a, at);
    assert(equals == text::skip_digits(a, at));
    text::lemma_find_byte(a, equals + 1, 0x01);
    text::lemma_skip_digits_is(b, at, equals);
    text::lemma_find_byte_is(b, equals + 1, 0x01, next - 1);
    assert(b.subrange(at, equals) =~= a.subrange(at, equals));
    assert(b.subrange(equals + 1, next - 1) =~= a.subrange(equals + 1, next - 1));
}

/// A changed byte under a checksum, or in it, breaks it.
proof fn lemma_checksum_broken(bytes: Seq<u8>, start: int, at: int, i: int, byte: u8)
    requires
        0 <= start <= at,
        start <= i < at + 7 <= bytes.len(),
        byte != bytes[i],
        checksum_holds(bytes, start, at),
    ensures
        !checksum_holds(bytes.update(i, byte), start, at),
{
    let after = bytes.update(i, byte);
    let covered = bytes.subrange(start, at);
    let claim = bytes.subrange(at + 3, at + 6);
    let new_claim = after.subrange(at + 3, at + 6);
    if i < at {
        lemma_byte_sum_update(covered, i - start, byte);
        assert(after.subrange(start, at) =~= covered.update(i - start, byte));
        assert(new_claim =~= claim);
    } else {
        assert(after.subrange(start, at) =~= covered);
        if at + 3 <= i < at + 6 && text::all_digits(new_claim) {
            assert(new_claim =~= claim.update(i - at - 3, byte));
            lemma_three_digits(claim);
            lemma_three_digits(new_claim);
            assert(text::is_digit(claim[0]) && text::is_digit(claim[1]) && text::is_digit(claim[2]));
            assert(text::is_digit(new_claim[i - at - 3]));
        }
    }
}

proof fn lemma_three_digits(s: Seq<u8>)
    requires
        s.len() == 3,
        text::all_digits(s),
    ensures
        text::decimal_value(s) == (s[0] - 0x30) * 100 + (s[1] - 0x30) * 10 + (s[2] - 0x30),
{
    reveal_with_fuel(text::decimal_value, 4);
    assert(s.drop_last().drop_last().drop_last() =~= Seq::<u8>::empty());
}

/// A message with any one byte of its body or trailer changed is refused, and
/// nothing of it is emitted. With a byte before the body changed, which may
/// change the length it claims, it is never accepted at the same length.
pub proof fn lemma_changed_byte_refused(
    table: Seq<Seq<u8>>,
    bytes: Seq<u8>,
    start: int,
    i: int,
    byte: u8,
)
    requires
        0 <= start < bytes.len() <= usize::MAX,
        frame_spec(bytes, start) matches Frame::Whole { body, end } && start <= i < end,
        byte != bytes[i],
    ensures
        i >= frame_spec(bytes, start)->body ==> messages_spec(
            table,
            bytes.update(i, byte),
            start,
        ) == Decoding::stop(Err(malformed_at(start))),
        frame_spec(bytes.update(i, byte), start) matches Frame::Whole { end, .. } ==> end
            != frame_spec(bytes, start)->end,
{
    reveal(frame_spec);
    let after = bytes.update(i, byte);
    let body = frame_spec(bytes, start)->body;
    let end = frame_spec(bytes, start)->end;
    let second_at = pair_spec(bytes, start)->next;
    lemma_pair(bytes, start);
    lemma_pair(bytes, second_at);
    lemma_checksum_broken(bytes, start, end - 7, i, byte);
    if i >= body {
        assert(after.subrange(start, second_at) =~= bytes.subrange(start, second_at));
        assert(after.subrange(second_at, body) =~= bytes.subrange(second_at, body));
        lemma_pair_kept(bytes, after, start);
        lemma_pair_kept(bytes, after, second_at);
        assert(frame_spec(after, start) == Frame::Bad);
    }
}

/// A checksum field could start at `at`.
pub open spec fn claims_at(bytes: Seq<u8>, at: int) -> bool {
    &&& bytes[at] == 0x31
    &&& bytes[at + 1] == 0x30
    &&& bytes[at + 2] == 0x3d
}

/// A message alone in its buffer, with no `10=` before its trailer, is guarded
/// whole: with any one byte changed in any way, header and trailer included, it
/// is refused or waits for more, and nothing is emitted.
pub proof fn lemma_lone_message_guarded(
    table: Seq<Seq<u8>>,
    bytes: Seq<u8>,
    i: int,
    byte: u8,
)
    requires
        bytes.len() <= usize::MAX,
        frame_spec(bytes, 0) matches Frame::Whole { end, .. } && end == bytes.len(),
        forall|t: int|
            #![trigger claims_at(bytes, t)]
            0 <= t < bytes.len() - 7 ==> !claims_at(bytes, t),
        0 <= i < bytes.len(),
        byte != bytes[i],
    ensures
        ({
            let read = messages_spec(table, bytes.update(i, byte), 0);
            &&& read.events == Seq::<Event>::empty()
            &&& read.outcome == Err::<usize, FeedError>(malformed_at(0)) || read.outcome == Ok::<
                usize,
                FeedError,
            >(0)
        }),
{
    let after = bytes.update(i, byte);
    let body = frame_spec(bytes, 0)->body;
    lemma_frame(bytes, 0);
    lemma_frame(after, 0);
    lemma_changed_byte_refused(table, bytes, 0, i, byte);
    if i < body && frame_spec(after, 0) is Whole {
        reveal(frame_spec);
        let claim = frame_spec(after, 0)->end - 7;
        let second_at = pair_spec(after, 0)->next;
        let new_body = frame_spec(after, 0)->body;
        lemma_pair(after, 0);
        lemma_pair(after, second_at);
        assert(claims_at(after, claim));
        assert(!claims_at(bytes, claim));
        assert(claim <= i);
        assert(bytes.subrange(0, second_at) =~= after.subrange(0, second_at));
        assert(bytes.subrange(second_at, new_body) =~= after.subrange(second_at, new_body));
        lemma_pair_kept(after, bytes, 0);
        lemma_pair_kept(after, bytes, second_at);
        assert(false);
    }
}

} // verus!
