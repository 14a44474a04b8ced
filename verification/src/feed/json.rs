//! Newline-delimited JSON: trade events and depth updates of one documented
//! schema, read by a scanner for that schema.
//!
//! The scanner tolerates key order and unknown keys, whose values it skips as
//! balanced structure. A field it needs that arrives malformed is refused.

use vstd::prelude::*;

use crate::feed;
use crate::feed::text;
use crate::feed::{Decoding, Event, FeedError, Kind, Parser, Side, Sink, Span};

verus! {

const QUOTE: u8 = 0x22;

const BACKSLASH: u8 = 0x5c;

const COMMA: u8 = 0x2c;

const COLON: u8 = 0x3a;

const OPEN_BRACE: u8 = 0x7b;

const CLOSE_BRACE: u8 = 0x7d;

const OPEN_BRACKET: u8 = 0x5b;

const CLOSE_BRACKET: u8 = 0x5d;

const NEWLINE: u8 = 0x0a;

/// `e`: the event type.
const KEY_EVENT: u8 = 0x65;

/// `s`: the symbol.
const KEY_SYMBOL: u8 = 0x73;

/// `p`: a trade's price.
const KEY_PRICE: u8 = 0x70;

/// `q`: a trade's quantity.
const KEY_QTY: u8 = 0x71;

/// `m`: whether the buyer was the maker.
const KEY_MAKER: u8 = 0x6d;

/// `t`: the trade ID.
const KEY_TRADE: u8 = 0x74;

/// `b`: bid levels.
const KEY_BIDS: u8 = 0x62;

/// `a`: ask levels.
const KEY_ASKS: u8 = 0x61;

/// `true`.
const TRUE: [u8; 4] = [0x74, 0x72, 0x75, 0x65];

/// `false`.
const FALSE: [u8; 5] = [0x66, 0x61, 0x6c, 0x73, 0x65];

/// `trade`.
const TRADE: [u8; 5] = [0x74, 0x72, 0x61, 0x64, 0x65];

#[derive(Debug)]
pub struct Json<'a> {
    pub symbols: &'a [&'a [u8]],
}

// ---------------------------------------------------------------- the grammar

/// Blanks that may stand between tokens of one line.
pub open spec fn is_blank(byte: u8) -> bool {
    byte == 0x20 || byte == 0x09 || byte == 0x0d
}

/// The first position at or after `at` that holds no blank.
pub open spec fn skip_blanks(line: Seq<u8>, at: int) -> int
    decreases line.len() - at,
{
    if at < line.len() && is_blank(line[at]) {
        skip_blanks(line, at + 1)
    } else {
        at
    }
}

pub open spec fn holds(line: Seq<u8>, at: int, byte: u8) -> bool {
    at < line.len() && line[at] == byte
}

/// `byte`, after any blanks: the position behind it.
pub open spec fn expect_spec(line: Seq<u8>, at: int, byte: u8) -> Option<int> {
    let i = skip_blanks(line, at);
    if holds(line, i, byte) {
        Some(i + 1)
    } else {
        None
    }
}

/// The first quote or backslash at or after `at`.
pub open spec fn string_end(line: Seq<u8>, at: int) -> int
    decreases line.len() - at,
{
    if at >= line.len() || line[at] == 0x22 || line[at] == 0x5c {
        at
    } else {
        string_end(line, at + 1)
    }
}

/// A string without escapes: its contents and the position behind it.
pub open spec fn string_spec(line: Seq<u8>, at: int) -> Option<(Seq<u8>, int)> {
    match expect_spec(line, at, 0x22) {
        Some(from) => {
            let end = string_end(line, from);
            if holds(line, end, 0x22) {
                Some((line.subrange(from, end), end + 1))
            } else {
                None
            }
        },
        None => None,
    }
}

/// The position behind the bracket that closes `depth` open ones. Brackets
/// inside strings do not count, nor does an escaped quote end a string.
pub open spec fn skip_nested(line: Seq<u8>, at: int, depth: int, in_string: bool) -> Option<int>
    decreases line.len() + 1 - at,
{
    if at >= line.len() {
        None
    } else if line[at] == 0x22 {
        skip_nested(line, at + 1, depth, !in_string)
    } else if in_string {
        if line[at] == 0x5c {
            skip_nested(line, at + 2, depth, true)
        } else {
            skip_nested(line, at + 1, depth, true)
        }
    } else if line[at] == 0x7b || line[at] == 0x5b {
        skip_nested(line, at + 1, depth + 1, false)
    } else if line[at] == 0x7d || line[at] == 0x5d {
        if depth == 1 {
            Some(at + 1)
        } else {
            skip_nested(line, at + 1, depth - 1, false)
        }
    } else {
        skip_nested(line, at + 1, depth, false)
    }
}

pub open spec fn is_delimiter(byte: u8) -> bool {
    byte == 0x2c || byte == 0x7d || byte == 0x5d || byte == 0x0a
}

/// The first delimiter at or after `at`, where a number or a word ends.
pub open spec fn skip_scalar(line: Seq<u8>, at: int) -> Option<int>
    decreases line.len() - at,
{
    if at >= line.len() {
        None
    } else if is_delimiter(line[at]) {
        Some(at)
    } else {
        skip_scalar(line, at + 1)
    }
}

/// The position behind the quote that ends a string. An escaped quote does
/// not.
pub open spec fn skip_string(line: Seq<u8>, at: int) -> Option<int>
    decreases line.len() + 1 - at,
{
    if at >= line.len() {
        None
    } else if line[at] == 0x22 {
        Some(at + 1)
    } else if line[at] == 0x5c {
        skip_string(line, at + 2)
    } else {
        skip_string(line, at + 1)
    }
}

/// The position behind any value: nested structure balanced, strings opaque,
/// anything else up to a delimiter.
pub open spec fn skip_value_spec(line: Seq<u8>, at: int) -> Option<int> {
    let i = skip_blanks(line, at);
    if holds(line, i, 0x22) {
        skip_string(line, i + 1)
    } else if holds(line, i, 0x7b) || holds(line, i, 0x5b) {
        skip_nested(line, i + 1, 1, false)
    } else {
        skip_scalar(line, i)
    }
}

/// A decimal wrapped in a string, in fixed point, and the position behind it.
pub open spec fn quoted_decimal_spec(line: Seq<u8>, at: int) -> Option<(i64, int)> {
    match string_spec(line, at) {
        Some((raw, end)) => match text::fixed_point_i64(raw) {
            Some(value) => Some((value, end)),
            None => None,
        },
        None => None,
    }
}

/// `true`.
pub open spec fn true_word() -> Seq<u8> {
    seq![0x74, 0x72, 0x75, 0x65]
}

/// `false`.
pub open spec fn false_word() -> Seq<u8> {
    seq![0x66, 0x61, 0x6c, 0x73, 0x65]
}

/// Whether `word` stands at `at`.
pub open spec fn holds_word(line: Seq<u8>, at: int, word: Seq<u8>) -> bool {
    at + word.len() <= line.len() && line.subrange(at, (at + word.len()) as int) == word
}

/// `true` or `false`, and the position behind it.
pub open spec fn boolean_spec(line: Seq<u8>, at: int) -> Option<(bool, int)> {
    let i = skip_blanks(line, at);
    if holds_word(line, i, true_word()) {
        Some((true, i + 4))
    } else if holds_word(line, i, false_word()) {
        Some((false, i + 5))
    } else {
        None
    }
}

/// A run of one digit or more that a `u64` holds, and the position behind it.
pub open spec fn number_spec(line: Seq<u8>, at: int) -> Option<(u64, int)> {
    let i = skip_blanks(line, at);
    let end = text::skip_digits(line, i);
    let value = text::decimal_value(line.subrange(i, end));
    if end > i && value <= u64::MAX {
        Some((value as u64, end))
    } else {
        None
    }
}

/// One `["price","qty"]` level.
pub open spec fn level_spec(line: Seq<u8>, at: int) -> Option<(i64, i64, int)> {
    match expect_spec(line, at, 0x5b) {
        Some(a) => match quoted_decimal_spec(line, a) {
            Some((price, b)) => match expect_spec(line, b, 0x2c) {
                Some(c) => match quoted_decimal_spec(line, c) {
                    Some((qty, d)) => match expect_spec(line, d, 0x5d) {
                        Some(end) => Some((price, qty, end)),
                        None => None,
                    },
                    None => None,
                },
                None => None,
            },
            None => None,
        },
        None => None,
    }
}

pub open spec fn level_event(side: Side, symbol: u16, price: i64, qty: i64) -> Event {
    Event { kind: Kind::Level, side, symbol, price, qty, order_id: 0, aux: 0 }
}

/// What comes behind a level that ends at `end`: the closing bracket, or a
/// comma and another level.
pub open spec fn next_level(line: Seq<u8>, end: int) -> Option<int> {
    let i = skip_blanks(line, end);
    if holds(line, i, 0x5d) {
        Some(i)
    } else if holds(line, i, 0x2c) && !holds(line, skip_blanks(line, i + 1), 0x5d) {
        Some(skip_blanks(line, i + 1))
    } else {
        None
    }
}

/// Events read from a part of a line, and where the part ends.
#[verifier::ext_equal]
pub struct Part {
    pub events: Seq<Event>,
    pub end: Option<int>,
}

/// The levels of one side, from `at` to behind the closing bracket.
pub open spec fn levels_spec(line: Seq<u8>, at: int, side: Side, symbol: u16) -> Part
    decreases line.len() - at,
{
    proof {
        lemma_level_advances(line, at);
    }
    if holds(line, at, 0x5d) {
        Part { events: Seq::empty(), end: Some(at + 1) }
    } else if at < 0 {
        Part { events: Seq::empty(), end: None }
    } else {
        match level_spec(line, at) {
            Some((price, qty, end)) => {
                let rest = match next_level(line, end) {
                    Some(next) => levels_spec(line, next, side, symbol),
                    None => Part { events: Seq::empty(), end: None },
                };
                Part {
                    events: seq![level_event(side, symbol, price, qty)] + rest.events,
                    end: rest.end,
                }
            },
            None => Part { events: Seq::empty(), end: None },
        }
    }
}

/// What a message's members have said so far.
pub struct Fields {
    pub kind: Option<Seq<u8>>,
    pub symbol: Option<u16>,
    pub price: i64,
    pub qty: i64,
    pub maker_is_buyer: bool,
    pub trade_id: u64,
}

pub open spec fn no_fields() -> Fields {
    Fields { kind: None, symbol: None, price: 0, qty: 0, maker_is_buyer: false, trade_id: 0 }
}

/// Members read: the events emitted on the way, and either what they said and
/// where they end, or why reading stopped.
#[verifier::ext_equal]
pub struct Members {
    pub events: Seq<Event>,
    pub result: Result<(Fields, int), FeedError>,
}

impl Members {
    pub open spec fn silent(result: Result<(Fields, int), FeedError>) -> Members {
        Members { events: Seq::empty(), result }
    }
}

pub open spec fn key_is(key: Seq<u8>, letter: u8) -> bool {
    key.len() == 1 && key[0] == letter
}

pub open spec fn malformed_at(start: int) -> FeedError {
    FeedError::Malformed { offset: start as usize }
}

/// The value of one member, which starts at `at`.
pub open spec fn member_spec(
    table: Seq<Seq<u8>>,
    line: Seq<u8>,
    at: int,
    start: int,
    key: Seq<u8>,
    fields: Fields,
) -> Members {
    let refused = Members::silent(Err(malformed_at(start)));
    if key_is(key, 0x65) {
        match string_spec(line, at) {
            Some((kind, end)) => Members::silent(Ok((Fields { kind: Some(kind), ..fields }, end))),
            None => refused,
        }
    } else if key_is(key, 0x73) {
        match string_spec(line, at) {
            Some((name, end)) => match feed::symbol_index(table, name) {
                Some(symbol) => Members::silent(
                    Ok((Fields { symbol: Some(symbol), ..fields }, end)),
                ),
                None => Members::silent(
                    Err(FeedError::UnknownSymbol { offset: start as usize }),
                ),
            },
            None => refused,
        }
    } else if key_is(key, 0x70) {
        match quoted_decimal_spec(line, at) {
            Some((price, end)) => Members::silent(Ok((Fields { price, ..fields }, end))),
            None => refused,
        }
    } else if key_is(key, 0x71) {
        match quoted_decimal_spec(line, at) {
            Some((qty, end)) => Members::silent(Ok((Fields { qty, ..fields }, end))),
            None => refused,
        }
    } else if key_is(key, 0x6d) {
        match boolean_spec(line, at) {
            Some((maker_is_buyer, end)) => Members::silent(
                Ok((Fields { maker_is_buyer, ..fields }, end)),
            ),
            None => refused,
        }
    } else if key_is(key, 0x74) {
        match number_spec(line, at) {
            Some((trade_id, end)) => Members::silent(Ok((Fields { trade_id, ..fields }, end))),
            None => refused,
        }
    } else if key_is(key, 0x62) || key_is(key, 0x61) {
        let side = if key_is(key, 0x62) {
            Side::Bid
        } else {
            Side::Ask
        };
        match fields.symbol {
            Some(symbol) => match expect_spec(line, at, 0x5b) {
                Some(from) => {
                    let part = levels_spec(line, skip_blanks(line, from), side, symbol);
                    Members {
                        events: part.events,
                        result: match part.end {
                            Some(end) => Ok((fields, end)),
                            None => Err(malformed_at(start)),
                        },
                    }
                },
                None => refused,
            },
            None => refused,
        }
    } else {
        match skip_value_spec(line, at) {
            Some(end) => Members::silent(Ok((fields, end))),
            None => refused,
        }
    }
}

/// `"key":value` pairs from `at` to behind the closing brace.
pub open spec fn members_spec(
    table: Seq<Seq<u8>>,
    line: Seq<u8>,
    at: int,
    start: int,
    fields: Fields,
) -> Members
    decreases line.len() - at,
{
    proof {
        lemma_member_advances(table, line, at, start, fields);
    }
    if at < 0 {
        Members::silent(Err(malformed_at(start)))
    } else {
        match member_at(table, line, at, start, fields) {
            Members { events, result: Ok((said, end)) } => {
                let i = skip_blanks(line, end);
                if holds(line, i, 0x2c) {
                    let rest = members_spec(table, line, i + 1, start, said);
                    Members { events: events + rest.events, result: rest.result }
                } else if holds(line, i, 0x7d) {
                    Members { events, result: Ok((said, i + 1)) }
                } else {
                    Members { events, result: Err(malformed_at(start)) }
                }
            },
            stopped => stopped,
        }
    }
}

/// One `"key":value` pair.
pub open spec fn member_at(
    table: Seq<Seq<u8>>,
    line: Seq<u8>,
    at: int,
    start: int,
    fields: Fields,
) -> Members {
    let refused = Members::silent(Err(malformed_at(start)));
    match string_spec(line, at) {
        Some((key, after_key)) => match expect_spec(line, after_key, 0x3a) {
            Some(value) => member_spec(table, line, value, start, key, fields),
            None => refused,
        },
        None => refused,
    }
}

/// The word that marks a trade.
pub open spec fn trade_word() -> Seq<u8> {
    seq![0x74, 0x72, 0x61, 0x64, 0x65]
}

/// The print that a trade message stands for. The buyer being the maker means
/// that the aggressor hit the bid.
pub open spec fn trade_event(fields: Fields, symbol: u16) -> Event {
    Event {
        kind: Kind::Trade,
        side: if fields.maker_is_buyer {
            Side::Ask
        } else {
            Side::Bid
        },
        symbol,
        price: fields.price,
        qty: fields.qty,
        order_id: 0,
        aux: fields.trade_id,
    }
}

/// A message read: its events, and where it ends or why it was refused.
#[verifier::ext_equal]
pub struct Message {
    pub events: Seq<Event>,
    pub end: Result<int, FeedError>,
}

/// One `{...}` message. Depth levels are emitted as they pass; a trade is
/// emitted once the message is whole.
pub open spec fn message_spec(
    table: Seq<Seq<u8>>,
    line: Seq<u8>,
    at: int,
    start: int,
) -> Message {
    match expect_spec(line, at, 0x7b) {
        Some(from) => match members_spec(table, line, from, start, no_fields()) {
            Members { events, result: Ok((fields, end)) } => if fields.kind == Some(trade_word()) {
                match fields.symbol {
                    Some(symbol) => Message {
                        events: events.push(trade_event(fields, symbol)),
                        end: Ok(end),
                    },
                    None => Message { events, end: Err(malformed_at(start)) },
                }
            } else {
                Message { events, end: Ok(end) }
            },
            Members { events, result: Err(error) } => Message { events, end: Err(error) },
        },
        None => Message { events: Seq::empty(), end: Err(malformed_at(start)) },
    }
}

/// One message per line, from `at`; a line without its newline is a short read.
pub open spec fn lines_spec(table: Seq<Seq<u8>>, bytes: Seq<u8>, at: int) -> Decoding
    decreases bytes.len() - at,
{
    proof {
        if 0 <= at <= bytes.len() {
            text::lemma_find_byte(bytes, at, 0x0a);
        }
    }
    let newline = text::find_byte(bytes, at, 0x0a);
    if at < 0 || newline >= bytes.len() {
        Decoding::stop(Ok(at as usize))
    } else {
        let line = bytes.take(newline);
        let message = message_spec(table, line, at, at);
        match message.end {
            Ok(end) => if skip_blanks(line, end) == line.len() {
                lines_spec(table, bytes, newline + 1).after(message.events)
            } else {
                Decoding { events: message.events, outcome: Err(malformed_at(at)) }
            },
            Err(error) => Decoding { events: message.events, outcome: Err(error) },
        }
    }
}

// --------------------------------------------------------- progress of a scan

pub proof fn lemma_skip_blanks(line: Seq<u8>, at: int)
    ensures
        at <= skip_blanks(line, at),
        at <= line.len() ==> skip_blanks(line, at) <= line.len(),
    decreases line.len() - at,
{
    if at < line.len() && is_blank(line[at]) {
        lemma_skip_blanks(line, at + 1);
    }
}

proof fn lemma_string_end(line: Seq<u8>, at: int)
    ensures
        at <= string_end(line, at),
        at <= line.len() ==> string_end(line, at) <= line.len(),
    decreases line.len() - at,
{
    if at < line.len() && line[at] != 0x22 && line[at] != 0x5c {
        lemma_string_end(line, at + 1);
    }
}

pub proof fn lemma_expect(line: Seq<u8>, at: int, byte: u8)
    ensures
        expect_spec(line, at, byte) matches Some(end) ==> at < end <= line.len(),
{
    lemma_skip_blanks(line, at);
}

pub proof fn lemma_string(line: Seq<u8>, at: int)
    ensures
        string_spec(line, at) matches Some((_, end)) ==> at < end <= line.len(),
{
    lemma_expect(line, at, 0x22);
    if let Some(from) = expect_spec(line, at, 0x22) {
        lemma_string_end(line, from);
    }
}

proof fn lemma_quoted_decimal(line: Seq<u8>, at: int)
    ensures
        quoted_decimal_spec(line, at) matches Some((_, end)) ==> at < end <= line.len(),
{
    lemma_string(line, at);
}

pub proof fn lemma_level_advances(line: Seq<u8>, at: int)
    ensures
        level_spec(line, at) matches Some((_, _, end)) ==> {
            &&& at < end <= line.len()
            &&& next_level(line, end) matches Some(next) ==> at < next <= line.len()
        },
{
    lemma_expect(line, at, 0x5b);
    if let Some(a) = expect_spec(line, at, 0x5b) {
        lemma_quoted_decimal(line, a);
        if let Some((_, b)) = quoted_decimal_spec(line, a) {
            lemma_expect(line, b, 0x2c);
            if let Some(c) = expect_spec(line, b, 0x2c) {
                lemma_quoted_decimal(line, c);
                if let Some((_, d)) = quoted_decimal_spec(line, c) {
                    lemma_expect(line, d, 0x5d);
                    if let Some(end) = expect_spec(line, d, 0x5d) {
                        lemma_skip_blanks(line, end);
                        lemma_skip_blanks(line, skip_blanks(line, end) + 1);
                    }
                }
            }
        }
    }
}

proof fn lemma_levels_advance(line: Seq<u8>, at: int, side: Side, symbol: u16)
    ensures
        levels_spec(line, at, side, symbol).end matches Some(end) ==> at < end <= line.len(),
    decreases line.len() - at,
{
    lemma_level_advances(line, at);
    if !holds(line, at, 0x5d) && at >= 0 {
        if let Some((_, _, end)) = level_spec(line, at) {
            if let Some(next) = next_level(line, end) {
                lemma_levels_advance(line, next, side, symbol);
            }
        }
    }
}

proof fn lemma_skip_nested(line: Seq<u8>, at: int, depth: int, in_string: bool)
    ensures
        skip_nested(line, at, depth, in_string) matches Some(end) ==> at < end <= line.len(),
    decreases line.len() + 1 - at,
{
    if at < line.len() {
        if line[at] == 0x22 {
            lemma_skip_nested(line, at + 1, depth, !in_string);
        } else if in_string {
            lemma_skip_nested(line, at + 1, depth, true);
            lemma_skip_nested(line, at + 2, depth, true);
        } else {
            lemma_skip_nested(line, at + 1, depth, false);
            lemma_skip_nested(line, at + 1, depth + 1, false);
            lemma_skip_nested(line, at + 1, depth - 1, false);
        }
    }
}

proof fn lemma_skip_string(line: Seq<u8>, at: int)
    ensures
        skip_string(line, at) matches Some(end) ==> at < end <= line.len(),
    decreases line.len() + 1 - at,
{
    if at < line.len() && line[at] != 0x22 {
        lemma_skip_string(line, at + 1);
        lemma_skip_string(line, at + 2);
    }
}

proof fn lemma_skip_scalar(line: Seq<u8>, at: int)
    ensures
        skip_scalar(line, at) matches Some(end) ==> at <= end < line.len(),
    decreases line.len() - at,
{
    if at < line.len() && !is_delimiter(line[at]) {
        lemma_skip_scalar(line, at + 1);
    }
}

proof fn lemma_skip_value(line: Seq<u8>, at: int)
    ensures
        skip_value_spec(line, at) matches Some(end) ==> at <= end <= line.len(),
{
    lemma_skip_blanks(line, at);
    let i = skip_blanks(line, at);
    lemma_skip_string(line, i + 1);
    lemma_skip_nested(line, i + 1, 1, false);
    lemma_skip_scalar(line, i);
}

proof fn lemma_member(
    table: Seq<Seq<u8>>,
    line: Seq<u8>,
    at: int,
    start: int,
    key: Seq<u8>,
    fields: Fields,
)
    requires
        0 <= at <= line.len(),
    ensures
        member_spec(table, line, at, start, key, fields).result matches Ok((_, end)) ==> at <= end
            <= line.len(),
{
    lemma_string(line, at);
    lemma_quoted_decimal(line, at);
    lemma_skip_blanks(line, at);
    text::lemma_skip_digits(line, skip_blanks(line, at));
    lemma_skip_value(line, at);
    lemma_expect(line, at, 0x5b);
    if let Some(from) = expect_spec(line, at, 0x5b) {
        lemma_skip_blanks(line, from);
        if let Some(symbol) = fields.symbol {
            lemma_levels_advance(line, skip_blanks(line, from), Side::Bid, symbol);
            lemma_levels_advance(line, skip_blanks(line, from), Side::Ask, symbol);
        }
    }
}

pub proof fn lemma_member_advances(
    table: Seq<Seq<u8>>,
    line: Seq<u8>,
    at: int,
    start: int,
    fields: Fields,
)
    ensures
        at >= 0 ==> (member_at(table, line, at, start, fields).result matches Ok((_, end)) ==> {
            &&& at < end <= line.len()
            &&& end <= skip_blanks(line, end) <= line.len()
        }),
{
    if at >= 0 {
        lemma_string(line, at);
        if let Some((key, after_key)) = string_spec(line, at) {
            lemma_expect(line, after_key, 0x3a);
            if let Some(value) = expect_spec(line, after_key, 0x3a) {
                lemma_member(table, line, value, start, key, fields);
                if let Ok((_, end)) = member_spec(table, line, value, start, key, fields).result {
                    lemma_skip_blanks(line, end);
                }
            }
        }
    }
}

// ------------------------------------------------------------------ the scanner

/// A cursor over one message's bytes. A refusal carries the message's start, so
/// errors point at the message and not into a token.
struct Scan<'b> {
    bytes: &'b [u8],
    at: usize,
    start: usize,
}

impl<'b> Scan<'b> {
    spec fn inside(&self) -> bool {
        self.at <= self.bytes@.len()
    }

    /// The same message as `before`, read up to `at`.
    spec fn moved(&self, before: Scan<'b>, at: int) -> bool {
        &&& self.bytes == before.bytes
        &&& self.start == before.start
        &&& self.at == at
    }

    spec fn refusal(&self) -> FeedError {
        malformed_at(self.start as int)
    }

    fn err<T>(&self) -> (result: Result<T, FeedError>)
        ensures
            result == Err::<T, FeedError>(self.refusal()),
    {
        Err(FeedError::Malformed { offset: self.start })
    }

    /// Whether the next byte is `byte`.
    fn at_byte(&self, byte: u8) -> (there: bool)
        ensures
            there == holds(self.bytes@, self.at as int, byte),
            there ==> self.at < self.bytes.len(),
    {
        self.at < self.bytes.len() && self.bytes[self.at] == byte
    }

    fn skip_ws(&mut self)
        requires
            old(self).inside(),
        ensures
            final(self).moved(*old(self), skip_blanks(old(self).bytes@, old(self).at as int)),
            final(self).inside(),
    {
        let ghost end = skip_blanks(self.bytes@, self.at as int);
        while self.at < self.bytes.len() && (self.bytes[self.at] == 0x20 || self.bytes[self.at]
            == 0x09 || self.bytes[self.at] == 0x0d)
            invariant
                self.inside(),
                self.bytes == old(self).bytes,
                self.start == old(self).start,
                end == skip_blanks(self.bytes@, self.at as int),
            decreases self.bytes@.len() - self.at,
        {
            self.at = self.at + 1;
        }
    }

    fn expect(&mut self, byte: u8) -> (result: Result<(), FeedError>)
        requires
            old(self).inside(),
        ensures
            match expect_spec(old(self).bytes@, old(self).at as int, byte) {
                Some(end) => result is Ok && final(self).moved(*old(self), end)
                    && final(self).inside(),
                None => result == Err::<(), FeedError>(old(self).refusal()),
            },
    {
        self.skip_ws();
        if self.at_byte(byte) {
            self.at = self.at + 1;
            Ok(())
        } else {
            self.err()
        }
    }

    /// A string with no escapes: symbols, event types and decimals.
    fn string(&mut self) -> (result: Result<&'b [u8], FeedError>)
        requires
            old(self).inside(),
        ensures
            match string_spec(old(self).bytes@, old(self).at as int) {
                Some((text, end)) => result is Ok && result->Ok_0@ == text && final(self).moved(
                    *old(self),
                    end,
                ) && final(self).inside(),
                None => result == Err::<&'b [u8], FeedError>(old(self).refusal()),
            },
    {
        match self.expect(QUOTE) {
            Ok(()) => {},
            Err(error) => return Err(error),
        }
        let from = self.at;
        let ghost end = string_end(self.bytes@, from as int);
        while self.at < self.bytes.len() && self.bytes[self.at] != QUOTE && self.bytes[self.at]
            != BACKSLASH
            invariant
                from <= self.at,
                self.inside(),
                self.bytes == old(self).bytes,
                self.start == old(self).start,
                end == string_end(self.bytes@, self.at as int),
            decreases self.bytes@.len() - self.at,
        {
            self.at = self.at + 1;
        }
        if !self.at_byte(QUOTE) {
            return self.err();
        }
        let bytes = self.bytes;
        let out = &bytes[from..self.at];
        self.at = self.at + 1;
        Ok(out)
    }

    /// Skips a string up to the quote that closes the one just passed.
    fn skip_string(&mut self) -> (result: Result<(), FeedError>)
        requires
            old(self).inside(),
        ensures
            match skip_string(old(self).bytes@, old(self).at as int) {
                Some(end) => result is Ok && final(self).moved(*old(self), end)
                    && final(self).inside(),
                None => result == Err::<(), FeedError>(old(self).refusal()),
            },
    {
        let ghost end = skip_string(self.bytes@, self.at as int);
        while self.at < self.bytes.len()
            invariant
                self.inside(),
                self.bytes == old(self).bytes,
                self.start == old(self).start,
                end == skip_string(old(self).bytes@, old(self).at as int),
                end == skip_string(self.bytes@, self.at as int),
            decreases self.bytes@.len() - self.at,
        {
            let byte = self.bytes[self.at];
            self.at = self.at + 1;
            if byte == QUOTE {
                return Ok(());
            }
            if byte == BACKSLASH {
                if self.at == self.bytes.len() {
                    assert(skip_string(self.bytes@, self.at + 1) is None);
                    return self.err();
                }
                self.at = self.at + 1;
            }
        }
        self.err()
    }

    /// Skips structure up to the bracket that closes the one just passed.
    fn skip_structure(&mut self) -> (result: Result<(), FeedError>)
        requires
            old(self).inside(),
            old(self).at >= 1,
        ensures
            match skip_nested(old(self).bytes@, old(self).at as int, 1, false) {
                Some(end) => result is Ok && final(self).moved(*old(self), end)
                    && final(self).inside(),
                None => result == Err::<(), FeedError>(old(self).refusal()),
            },
    {
        let mut depth: usize = 1;
        let mut in_string = false;
        let ghost end = skip_nested(self.bytes@, self.at as int, 1, false);
        while self.at < self.bytes.len()
            invariant
                self.inside(),
                self.bytes == old(self).bytes,
                self.start == old(self).start,
                old(self).at <= self.at,
                1 <= depth <= self.at,
                end == skip_nested(old(self).bytes@, old(self).at as int, 1, false),
                end == skip_nested(self.bytes@, self.at as int, depth as int, in_string),
            decreases self.bytes@.len() - self.at,
        {
            let byte = self.bytes[self.at];
            self.at = self.at + 1;
            if byte == QUOTE {
                in_string = !in_string;
            } else if in_string {
                if byte == BACKSLASH {
                    if self.at == self.bytes.len() {
                        assert(skip_nested(self.bytes@, self.at + 1, depth as int, true) is None);
                        return self.err();
                    }
                    self.at = self.at + 1;
                }
            } else if byte == OPEN_BRACE || byte == OPEN_BRACKET {
                depth = depth + 1;
            } else if byte == CLOSE_BRACE || byte == CLOSE_BRACKET {
                if depth == 1 {
                    return Ok(());
                }
                depth = depth - 1;
            }
        }
        self.err()
    }

    /// Skips any value: nested structure balanced, strings opaque, anything
    /// else up to a delimiter.
    fn skip_value(&mut self) -> (result: Result<(), FeedError>)
        requires
            old(self).inside(),
        ensures
            match skip_value_spec(old(self).bytes@, old(self).at as int) {
                Some(end) => result is Ok && final(self).moved(*old(self), end)
                    && final(self).inside(),
                None => result == Err::<(), FeedError>(old(self).refusal()),
            },
    {
        self.skip_ws();
        if self.at_byte(QUOTE) {
            self.at = self.at + 1;
            self.skip_string()
        } else if self.at_byte(OPEN_BRACE) || self.at_byte(OPEN_BRACKET) {
            self.at = self.at + 1;
            self.skip_structure()
        } else {
            let ghost end = skip_scalar(self.bytes@, self.at as int);
            while self.at < self.bytes.len()
                invariant
                    self.inside(),
                    self.bytes == old(self).bytes,
                    self.start == old(self).start,
                    end == skip_scalar(self.bytes@, self.at as int),
                    end == skip_value_spec(old(self).bytes@, old(self).at as int),
                decreases self.bytes@.len() - self.at,
            {
                let byte = self.bytes[self.at];
                if byte == COMMA || byte == CLOSE_BRACE || byte == CLOSE_BRACKET || byte
                    == NEWLINE {
                    return Ok(());
                }
                self.at = self.at + 1;
            }
            self.err()
        }
    }

    /// `"1234.5678"`: a decimal wrapped in a string.
    fn quoted_decimal(&mut self) -> (result: Result<i64, FeedError>)
        requires
            old(self).inside(),
        ensures
            match quoted_decimal_spec(old(self).bytes@, old(self).at as int) {
                Some((value, end)) => result == Ok::<i64, FeedError>(value) && final(self).moved(
                    *old(self),
                    end,
                ) && final(self).inside(),
                None => result == Err::<i64, FeedError>(old(self).refusal()),
            },
    {
        let raw = match self.string() {
            Ok(raw) => raw,
            Err(error) => return Err(error),
        };
        match text::parse_fixed_point(raw) {
            Some(value) => Ok(value),
            None => self.err(),
        }
    }

    fn boolean(&mut self) -> (result: Result<bool, FeedError>)
        requires
            old(self).inside(),
        ensures
            match boolean_spec(old(self).bytes@, old(self).at as int) {
                Some((value, end)) => result == Ok::<bool, FeedError>(value) && final(self).moved(
                    *old(self),
                    end,
                ) && final(self).inside(),
                None => result == Err::<bool, FeedError>(old(self).refusal()),
            },
    {
        self.skip_ws();
        let left = self.bytes.len() - self.at;
        let bytes = self.bytes;
        assert(TRUE@ =~= true_word());
        assert(FALSE@ =~= false_word());
        if left >= 4 && feed::same_bytes(&bytes[self.at..self.at + 4], &TRUE) {
            self.at = self.at + 4;
            return Ok(true);
        }
        if left >= 5 && feed::same_bytes(&bytes[self.at..self.at + 5], &FALSE) {
            self.at = self.at + 5;
            Ok(false)
        } else {
            self.err()
        }
    }

    fn number(&mut self) -> (result: Result<u64, FeedError>)
        requires
            old(self).inside(),
        ensures
            match number_spec(old(self).bytes@, old(self).at as int) {
                Some((value, end)) => result == Ok::<u64, FeedError>(value) && final(self).moved(
                    *old(self),
                    end,
                ) && final(self).inside(),
                None => result == Err::<u64, FeedError>(old(self).refusal()),
            },
    {
        self.skip_ws();
        let from = self.at;
        while self.at < self.bytes.len() && self.bytes[self.at] >= text::DIGIT_ZERO
            && self.bytes[self.at] <= text::DIGIT_ZERO + 9
            invariant
                from <= self.at,
                self.inside(),
                self.bytes == old(self).bytes,
                self.start == old(self).start,
                forall|i: int| from <= i < self.at ==> text::is_digit(#[trigger] self.bytes@[i]),
            decreases self.bytes@.len() - self.at,
        {
            self.at = self.at + 1;
        }
        let bytes = self.bytes;
        let digits = &bytes[from..self.at];
        proof {
            text::lemma_skip_digits_is(self.bytes@, from as int, self.at as int);
            assert forall|i: int| 0 <= i < digits@.len() implies text::is_digit(
                #[trigger] digits@[i],
            ) by {
                assert(text::is_digit(self.bytes@[from + i]));
            }
        }
        if digits.len() == 0 {
            return self.err();
        }
        match text::decimal_u64(digits) {
            Some(value) => Ok(value),
            None => self.err(),
        }
    }
}

/// What the members read so far have said.
struct Said<'b> {
    kind: Option<&'b [u8]>,
    symbol: Option<u16>,
    price: i64,
    qty: i64,
    maker_is_buyer: bool,
    trade_id: u64,
}

impl<'b> Said<'b> {
    spec fn fields(&self) -> Fields {
        Fields {
            kind: match self.kind {
                Some(kind) => Some(kind@),
                None => None,
            },
            symbol: self.symbol,
            price: self.price,
            qty: self.qty,
            maker_is_buyer: self.maker_is_buyer,
            trade_id: self.trade_id,
        }
    }
}

/// One `["price","qty"]` level.
fn level<'b>(scan: &mut Scan<'b>) -> (result: Result<(i64, i64), FeedError>)
    requires
        old(scan).inside(),
    ensures
        match level_spec(old(scan).bytes@, old(scan).at as int) {
            Some((price, qty, end)) => result == Ok::<(i64, i64), FeedError>((price, qty))
                && final(scan).moved(*old(scan), end) && final(scan).inside(),
            None => result == Err::<(i64, i64), FeedError>(old(scan).refusal()),
        },
{
    match scan.expect(OPEN_BRACKET) {
        Ok(()) => {},
        Err(error) => return Err(error),
    }
    let price = match scan.quoted_decimal() {
        Ok(price) => price,
        Err(error) => return Err(error),
    };
    match scan.expect(COMMA) {
        Ok(()) => {},
        Err(error) => return Err(error),
    }
    let qty = match scan.quoted_decimal() {
        Ok(qty) => qty,
        Err(error) => return Err(error),
    };
    match scan.expect(CLOSE_BRACKET) {
        Ok(()) => Ok((price, qty)),
        Err(error) => Err(error),
    }
}

/// The levels of one side, emitted as they pass, up to behind the bracket that
/// closes them.
fn levels<'b, S: Sink>(
    scan: &mut Scan<'b>,
    side: Side,
    symbol: u16,
    sink: &mut S,
) -> (result: Result<(), FeedError>)
    requires
        old(scan).inside(),
    ensures
        ({
            let part = levels_spec(old(scan).bytes@, old(scan).at as int, side, symbol);
            &&& final(sink).received() == old(sink).received() + part.events
            &&& match part.end {
                Some(end) => result is Ok && final(scan).moved(*old(scan), end)
                    && final(scan).inside(),
                None => result == Err::<(), FeedError>(old(scan).refusal()),
            }
        }),
{
    let ghost whole = levels_spec(scan.bytes@, scan.at as int, side, symbol);
    let ghost mut passed = Seq::<Event>::empty();
    while !scan.at_byte(CLOSE_BRACKET)
        invariant
            scan.inside(),
            scan.bytes == old(scan).bytes,
            scan.start == old(scan).start,
            whole == levels_spec(old(scan).bytes@, old(scan).at as int, side, symbol),
            sink.received() == old(sink).received() + passed,
            ({
                let rest = levels_spec(scan.bytes@, scan.at as int, side, symbol);
                &&& whole.events == passed + rest.events
                &&& whole.end == rest.end
            }),
        decreases scan.bytes@.len() - scan.at,
    {
        let ghost from = scan.at as int;
        proof {
            lemma_level_advances(scan.bytes@, from);
        }
        let (price, qty) = match level(scan) {
            Ok(pair) => pair,
            Err(error) => {
                assert(whole.events =~= passed);
                return Err(error);
            },
        };
        let mut event = Event::zeroed();
        event.kind = Kind::Level;
        event.side = side;
        event.symbol = symbol;
        event.price = price;
        event.qty = qty;
        sink.accept(&event);
        scan.skip_ws();
        if !scan.at_byte(CLOSE_BRACKET) {
            let comma = scan.at_byte(COMMA);
            if comma {
                scan.at = scan.at + 1;
                scan.skip_ws();
            }
            if !comma || scan.at_byte(CLOSE_BRACKET) {
                assert(whole.events =~= passed.push(event));
                return scan.err();
            }
        }
        proof {
            let rest = levels_spec(scan.bytes@, scan.at as int, side, symbol);
            assert(whole.events =~= passed.push(event) + rest.events);
            passed = passed.push(event);
        }
    }
    scan.at = scan.at + 1;
    assert(whole.events =~= passed);
    Ok(())
}

/// Whether `word` marks a trade.
fn is_trade(word: &[u8]) -> (trade: bool)
    ensures
        trade == (word@ == trade_word()),
{
    let trade = word.len() == 5 && word[0] == TRADE[0] && word[1] == TRADE[1] && word[2]
        == TRADE[2] && word[3] == TRADE[3] && word[4] == TRADE[4];
    assert(trade ==> word@ =~= trade_word());
    trade
}

impl<'a> Json<'a> {
    /// One member's value: what it says, or the refusal.
    fn member<'b, S: Sink>(
        &self,
        scan: &mut Scan<'b>,
        key: &[u8],
        said: Said<'b>,
        sink: &mut S,
    ) -> (result: Result<Said<'b>, FeedError>)
        requires
            old(scan).inside(),
        ensures
            ({
                let read = member_spec(
                    feed::names(self.symbols@),
                    old(scan).bytes@,
                    old(scan).at as int,
                    old(scan).start as int,
                    key@,
                    said.fields(),
                );
                &&& final(sink).received() == old(sink).received() + read.events
                &&& match read.result {
                    Ok((fields, end)) => result is Ok && result->Ok_0.fields() == fields
                        && final(scan).moved(*old(scan), end) && final(scan).inside(),
                    Err(error) => result == Err::<Said<'b>, FeedError>(error),
                }
            }),
    {
        let ghost before = sink.received();
        assert(before + Seq::<Event>::empty() =~= before);
        let letter: u8 = if key.len() == 1 {
            key[0]
        } else {
            0
        };
        if letter == KEY_EVENT {
            match scan.string() {
                Ok(kind) => Ok(Said { kind: Some(kind), ..said }),
                Err(error) => Err(error),
            }
        } else if letter == KEY_SYMBOL {
            match scan.string() {
                Ok(name) => match feed::lookup(self.symbols, name) {
                    Some(symbol) => Ok(Said { symbol: Some(symbol), ..said }),
                    None => Err(FeedError::UnknownSymbol { offset: scan.start }),
                },
                Err(error) => Err(error),
            }
        } else if letter == KEY_PRICE {
            match scan.quoted_decimal() {
                Ok(price) => Ok(Said { price, ..said }),
                Err(error) => Err(error),
            }
        } else if letter == KEY_QTY {
            match scan.quoted_decimal() {
                Ok(qty) => Ok(Said { qty, ..said }),
                Err(error) => Err(error),
            }
        } else if letter == KEY_MAKER {
            match scan.boolean() {
                Ok(maker_is_buyer) => Ok(Said { maker_is_buyer, ..said }),
                Err(error) => Err(error),
            }
        } else if letter == KEY_TRADE {
            match scan.number() {
                Ok(trade_id) => Ok(Said { trade_id, ..said }),
                Err(error) => Err(error),
            }
        } else if letter == KEY_BIDS || letter == KEY_ASKS {
            let Some(symbol) = said.symbol else {
                return scan.err();
            };
            let side = if letter == KEY_BIDS {
                Side::Bid
            } else {
                Side::Ask
            };
            match scan.expect(OPEN_BRACKET) {
                Ok(()) => {},
                Err(error) => return Err(error),
            }
            scan.skip_ws();
            match levels(scan, side, symbol, sink) {
                Ok(()) => Ok(said),
                Err(error) => Err(error),
            }
        } else {
            match scan.skip_value() {
                Ok(()) => Ok(said),
                Err(error) => Err(error),
            }
        }
    }

    /// One `{...}` message. Two shapes: trade, and depth update whose `b`/`a`
    /// arrays carry `["price","qty"]` levels.
    #[verifier::rlimit(60)]
    #[verifier::spinoff_prover]
    fn message<'b, S: Sink>(&self, scan: &mut Scan<'b>, sink: &mut S) -> (result: Result<
        (),
        FeedError,
    >)
        requires
            old(scan).inside(),
        ensures
            ({
                let message = message_spec(
                    feed::names(self.symbols@),
                    old(scan).bytes@,
                    old(scan).at as int,
                    old(scan).start as int,
                );
                &&& final(sink).received() == old(sink).received() + message.events
                &&& match message.end {
                    Ok(end) => result is Ok && final(scan).moved(*old(scan), end)
                        && final(scan).inside(),
                    Err(error) => result == Err::<(), FeedError>(error),
                }
            }),
    {
        let ghost table = feed::names(self.symbols@);
        let ghost line = scan.bytes@;
        let ghost start = scan.start as int;
        assert(sink.received() + Seq::<Event>::empty() =~= sink.received());
        match scan.expect(OPEN_BRACE) {
            Ok(()) => {},
            Err(error) => return Err(error),
        }
        let mut said = Said {
            kind: None,
            symbol: None,
            price: 0,
            qty: 0,
            maker_is_buyer: false,
            trade_id: 0,
        };
        let ghost whole = members_spec(table, line, scan.at as int, start, said.fields());
        let ghost mut passed = Seq::<Event>::empty();
        let mut open = true;
        while open
            invariant
                table == feed::names(self.symbols@),
                line == scan.bytes@,
                start == scan.start,
                scan.inside(),
                scan.bytes == old(scan).bytes,
                scan.start == old(scan).start,
                sink.received() == old(sink).received() + passed,
                open ==> ({
                    let rest = members_spec(table, line, scan.at as int, start, said.fields());
                    &&& whole.events == passed + rest.events
                    &&& whole.result == rest.result
                }),
                !open ==> whole.events == passed && whole.result == Ok::<
                    (Fields, int),
                    FeedError,
                >((said.fields(), scan.at as int)),
                ({
                    let message = message_spec(
                        table,
                        line,
                        old(scan).at as int,
                        old(scan).start as int,
                    );
                    match whole.result {
                        Ok((fields, end)) => if fields.kind == Some(trade_word()) {
                            match fields.symbol {
                                Some(symbol) => {
                                    &&& message.events == whole.events.push(
                                        trade_event(fields, symbol),
                                    )
                                    &&& message.end == Ok::<int, FeedError>(end)
                                },
                                None => message.events == whole.events && message.end == Err::<
                                    int,
                                    FeedError,
                                >(malformed_at(start)),
                            }
                        } else {
                            message.events == whole.events && message.end == Ok::<int, FeedError>(
                                end,
                            )
                        },
                        Err(error) => message.events == whole.events && message.end == Err::<
                            int,
                            FeedError,
                        >(error),
                    }
                }),
            decreases line.len() - scan.at,
        {
            let ghost from = scan.at as int;
            let ghost fields = said.fields();
            proof {
                lemma_member_advances(table, line, from, start, fields);
            }
            let ghost rest = members_spec(table, line, from, start, fields);
            let key = match scan.string() {
                Ok(key) => key,
                Err(error) => {
                    assert(whole.events =~= passed);
                    return Err(error);
                },
            };
            match scan.expect(COLON) {
                Ok(()) => {},
                Err(error) => {
                    assert(whole.events =~= passed);
                    return Err(error);
                },
            }
            let ghost read = member_at(table, line, from, start, fields);
            assert(old(sink).received() + passed + read.events =~= old(sink).received() + (passed
                + read.events));
            said = match self.member(scan, key, said, sink) {
                Ok(said) => said,
                Err(error) => {
                    return Err(error);
                },
            };
            scan.skip_ws();
            if scan.at_byte(COMMA) {
                scan.at = scan.at + 1;
                proof {
                    let more = members_spec(table, line, scan.at as int, start, said.fields());
                    assert(passed + (read.events + more.events) =~= (passed + read.events)
                        + more.events);
                    passed = passed + read.events;
                }
            } else if scan.at_byte(CLOSE_BRACE) {
                scan.at = scan.at + 1;
                open = false;
                proof {
                    passed = passed + read.events;
                }
            } else {
                return scan.err();
            }
        }
        let trade = match said.kind {
            Some(kind) => is_trade(kind),
            None => false,
        };
        if trade {
            let Some(symbol) = said.symbol else {
                return scan.err();
            };
            let mut event = Event::zeroed();
            event.kind = Kind::Trade;
            event.side = if said.maker_is_buyer {
                Side::Ask
            } else {
                Side::Bid
            };
            event.symbol = symbol;
            event.price = said.price;
            event.qty = said.qty;
            event.aux = said.trade_id;
            sink.accept(&event);
            assert(old(sink).received() + passed.push(event) =~= (old(sink).received()
                + passed).push(event));
        }
        Ok(())
    }
}

impl<'a> Parser for Json<'a> {
    open spec fn decoding(&self, bytes: Seq<u8>) -> Decoding {
        lines_spec(feed::names(self.symbols@), bytes, 0)
    }

    #[verifier::rlimit(60)]
    #[verifier::spinoff_prover]
    fn parse<S: Sink>(&self, bytes: &[u8], sink: &mut S) -> (result: Result<usize, FeedError>) {
        let ghost table = feed::names(self.symbols@);
        let ghost whole = lines_spec(table, bytes@, 0);
        let ghost mut passed = Seq::<Event>::empty();
        let mut at: usize = 0;
        assert(sink.received() + passed =~= sink.received());
        loop
            invariant
                at <= bytes@.len(),
                table == feed::names(self.symbols@),
                whole == self.decoding(bytes@),
                sink.received() == old(sink).received() + passed,
                ({
                    let rest = lines_spec(table, bytes@, at as int);
                    &&& whole.events == passed + rest.events
                    &&& whole.outcome == rest.outcome
                }),
            decreases bytes@.len() - at,
        {
            let mut newline: usize = at;
            while newline < bytes.len() && bytes[newline] != NEWLINE
                invariant
                    at <= newline <= bytes@.len(),
                    forall|i: int| at <= i < newline ==> bytes@[i] != NEWLINE,
                decreases bytes@.len() - newline,
            {
                newline = newline + 1;
            }
            proof {
                text::lemma_find_byte_is(bytes@, at as int, NEWLINE, newline as int);
            }
            if newline == bytes.len() {
                assert(whole.events =~= passed);
                return Ok(at);
            }
            let line = &bytes[0..newline];
            let mut scan = Scan { bytes: line, at, start: at };
            let ghost message = message_spec(table, line@, at as int, at as int);
            assert(line@ =~= bytes@.take(newline as int));
            assert(old(sink).received() + passed + message.events =~= old(sink).received()
                + (passed + message.events));
            match self.message(&mut scan, sink) {
                Ok(()) => {},
                Err(error) => return Err(error),
            }
            scan.skip_ws();
            if scan.at != newline {
                return Err(FeedError::Malformed { offset: at });
            }
            proof {
                let rest = lines_spec(table, bytes@, newline + 1);
                assert(passed + (message.events + rest.events) =~= (passed + message.events)
                    + rest.events);
                passed = passed + message.events;
            }
            at = newline + 1;
        }
    }
}

// ------------------------------------------------------------- reading in pieces

proof fn lemma_skip_blanks_shifted(line: Seq<u8>, at: int, by: int)
    requires
        0 <= by <= at,
        by <= line.len(),
    ensures
        skip_blanks(line, at) == skip_blanks(line.skip(by), at - by) + by,
        skip_blanks(line, at) >= at,
    decreases line.len() - at,
{
    if at < line.len() && is_blank(line[at]) {
        lemma_skip_blanks_shifted(line, at + 1, by);
    }
}

proof fn lemma_string_end_shifted(line: Seq<u8>, at: int, by: int)
    requires
        0 <= by <= at,
        by <= line.len(),
    ensures
        string_end(line, at) == string_end(line.skip(by), at - by) + by,
        string_end(line, at) >= at,
    decreases line.len() - at,
{
    if at < line.len() && line[at] != 0x22 && line[at] != 0x5c {
        lemma_string_end_shifted(line, at + 1, by);
    }
}

/// A position that stands `by` further on.
pub open spec fn moved(end: Option<int>, by: int) -> Option<int> {
    match end {
        Some(end) => Some(end + by),
        None => None,
    }
}

proof fn lemma_expect_shifted(line: Seq<u8>, at: int, byte: u8, by: int)
    requires
        0 <= by <= at,
        by <= line.len(),
    ensures
        expect_spec(line, at, byte) == moved(expect_spec(line.skip(by), at - by, byte), by),
        expect_spec(line, at, byte) matches Some(end) ==> end > at,
{
    lemma_skip_blanks_shifted(line, at, by);
}

proof fn lemma_string_shifted(line: Seq<u8>, at: int, by: int)
    requires
        0 <= by <= at,
        by <= line.len(),
    ensures
        match string_spec(line.skip(by), at - by) {
            Some((s, end)) => string_spec(line, at) == Some((s, end + by)) && end + by > at,
            None => string_spec(line, at) is None,
        },
{
    lemma_expect_shifted(line, at, 0x22, by);
    if let Some(from) = expect_spec(line, at, 0x22) {
        lemma_string_end_shifted(line, from, by);
        let end = string_end(line, from);
        if holds(line, end, 0x22) {
            assert(line.subrange(from, end) =~= line.skip(by).subrange(from - by, end - by));
        }
    }
}

proof fn lemma_skip_nested_shifted(line: Seq<u8>, at: int, depth: int, in_string: bool, by: int)
    requires
        0 <= by <= at,
        by <= line.len(),
    ensures
        skip_nested(line, at, depth, in_string) == moved(
            skip_nested(line.skip(by), at - by, depth, in_string),
            by,
        ),
        skip_nested(line, at, depth, in_string) matches Some(end) ==> end > at,
    decreases line.len() + 1 - at,
{
    if at < line.len() {
        if line[at] == 0x22 {
            lemma_skip_nested_shifted(line, at + 1, depth, !in_string, by);
        } else if in_string {
            if line[at] == 0x5c {
                lemma_skip_nested_shifted(line, at + 2, depth, true, by);
            } else {
                lemma_skip_nested_shifted(line, at + 1, depth, true, by);
            }
        } else if line[at] == 0x7b || line[at] == 0x5b {
            lemma_skip_nested_shifted(line, at + 1, depth + 1, false, by);
        } else if line[at] == 0x7d || line[at] == 0x5d {
            if depth != 1 {
                lemma_skip_nested_shifted(line, at + 1, depth - 1, false, by);
            }
        } else {
            lemma_skip_nested_shifted(line, at + 1, depth, false, by);
        }
    }
}

proof fn lemma_skip_string_shifted(line: Seq<u8>, at: int, by: int)
    requires
        0 <= by <= at,
        by <= line.len(),
    ensures
        skip_string(line, at) == moved(skip_string(line.skip(by), at - by), by),
        skip_string(line, at) matches Some(end) ==> end > at,
    decreases line.len() + 1 - at,
{
    if at < line.len() {
        if line[at] == 0x5c {
            lemma_skip_string_shifted(line, at + 2, by);
        } else if line[at] != 0x22 {
            lemma_skip_string_shifted(line, at + 1, by);
        }
    }
}

proof fn lemma_skip_scalar_shifted(line: Seq<u8>, at: int, by: int)
    requires
        0 <= by <= at,
        by <= line.len(),
    ensures
        skip_scalar(line, at) == moved(skip_scalar(line.skip(by), at - by), by),
        skip_scalar(line, at) matches Some(end) ==> end >= at,
    decreases line.len() - at,
{
    if at < line.len() && !is_delimiter(line[at]) {
        lemma_skip_scalar_shifted(line, at + 1, by);
    }
}

proof fn lemma_skip_value_shifted(line: Seq<u8>, at: int, by: int)
    requires
        0 <= by <= at,
        by <= line.len(),
    ensures
        skip_value_spec(line, at) == moved(skip_value_spec(line.skip(by), at - by), by),
        skip_value_spec(line, at) matches Some(end) ==> end >= at,
{
    lemma_skip_blanks_shifted(line, at, by);
    let i = skip_blanks(line, at);
    lemma_skip_string_shifted(line, i + 1, by);
    lemma_skip_nested_shifted(line, i + 1, 1, false, by);
    lemma_skip_scalar_shifted(line, i, by);
}

proof fn lemma_quoted_decimal_shifted(line: Seq<u8>, at: int, by: int)
    requires
        0 <= by <= at,
        by <= line.len(),
    ensures
        match quoted_decimal_spec(line.skip(by), at - by) {
            Some((value, end)) => quoted_decimal_spec(line, at) == Some((value, end + by)) && end
                + by > at,
            None => quoted_decimal_spec(line, at) is None,
        },
{
    lemma_string_shifted(line, at, by);
}

proof fn lemma_scalars_shifted(line: Seq<u8>, at: int, by: int)
    requires
        0 <= by <= at <= line.len(),
    ensures
        match boolean_spec(line.skip(by), at - by) {
            Some((value, end)) => boolean_spec(line, at) == Some((value, end + by)) && end + by
                > at,
            None => boolean_spec(line, at) is None,
        },
        match number_spec(line.skip(by), at - by) {
            Some((value, end)) => number_spec(line, at) == Some((value, end + by)) && end + by
                >= at,
            None => number_spec(line, at) is None,
        },
{
    lemma_skip_blanks_shifted(line, at, by);
    let i = skip_blanks(line, at);
    text::lemma_skip_digits_shifted(line, i, by);
    let end = text::skip_digits(line, i);
    lemma_skip_blanks(line, at);
    text::lemma_skip_digits(line, i);
    assert(line.subrange(i, end) =~= line.skip(by).subrange(i - by, end - by));
    if i + 4 <= line.len() {
        assert(line.subrange(i, i + 4) =~= line.skip(by).subrange(i - by, i - by + 4));
    }
    if i + 5 <= line.len() {
        assert(line.subrange(i, i + 5) =~= line.skip(by).subrange(i - by, i - by + 5));
    }
}

proof fn lemma_level_shifted(line: Seq<u8>, at: int, by: int)
    requires
        0 <= by <= at,
        by <= line.len(),
    ensures
        match level_spec(line.skip(by), at - by) {
            Some((price, qty, end)) => level_spec(line, at) == Some((price, qty, end + by)) && end
                + by > at,
            None => level_spec(line, at) is None,
        },
{
    lemma_expect_shifted(line, at, 0x5b, by);
    if let Some(a) = expect_spec(line, at, 0x5b) {
        lemma_quoted_decimal_shifted(line, a, by);
        if let Some((_, b)) = quoted_decimal_spec(line, a) {
            lemma_expect_shifted(line, b, 0x2c, by);
            if let Some(c) = expect_spec(line, b, 0x2c) {
                lemma_quoted_decimal_shifted(line, c, by);
                if let Some((_, d)) = quoted_decimal_spec(line, c) {
                    lemma_expect_shifted(line, d, 0x5d, by);
                }
            }
        }
    }
}

proof fn lemma_levels_shifted(line: Seq<u8>, at: int, side: Side, symbol: u16, by: int)
    requires
        0 <= by <= at,
        by <= line.len(),
    ensures
        ({
            let here = levels_spec(line, at, side, symbol);
            let there = levels_spec(line.skip(by), at - by, side, symbol);
            &&& here.events == there.events
            &&& here.end == moved(there.end, by)
            &&& here.end matches Some(end) ==> end > at
        }),
    decreases line.len() - at,
{
    lemma_level_advances(line, at);
    lemma_level_shifted(line, at, by);
    if !holds(line, at, 0x5d) {
        if let Some((_, _, end)) = level_spec(line, at) {
            lemma_skip_blanks_shifted(line, end, by);
            let i = skip_blanks(line, end);
            lemma_skip_blanks_shifted(line, i + 1, by);
            if let Some(next) = next_level(line, end) {
                lemma_levels_shifted(line, next, side, symbol, by);
            }
        }
    }
}

/// The same members, read from text that stands `by` further on.
pub open spec fn members_shifted(members: Members, by: int) -> Members {
    Members {
        result: match members.result {
            Ok((fields, end)) => Ok((fields, end + by)),
            Err(error) => Err(feed::error_shifted(error, by)),
        },
        ..members
    }
}

#[verifier::rlimit(60)]
#[verifier::spinoff_prover]
proof fn lemma_member_value_shifted(
    table: Seq<Seq<u8>>,
    line: Seq<u8>,
    at: int,
    start: int,
    key: Seq<u8>,
    fields: Fields,
    by: int,
)
    requires
        0 <= by <= start <= at <= line.len(),
        start <= usize::MAX,
    ensures
        member_spec(table, line, at, start, key, fields) == members_shifted(
            member_spec(table, line.skip(by), at - by, start - by, key, fields),
            by,
        ),
        member_spec(table, line, at, start, key, fields).result matches Ok((_, end)) ==> end >= at,
{
    lemma_string_shifted(line, at, by);
    lemma_quoted_decimal_shifted(line, at, by);
    lemma_scalars_shifted(line, at, by);
    lemma_skip_value_shifted(line, at, by);
    lemma_expect_shifted(line, at, 0x5b, by);
    if let Some(from) = expect_spec(line, at, 0x5b) {
        lemma_skip_blanks_shifted(line, from, by);
        if let Some(symbol) = fields.symbol {
            let first = skip_blanks(line, from);
            lemma_levels_shifted(line, first, Side::Bid, symbol, by);
            lemma_levels_shifted(line, first, Side::Ask, symbol, by);
        }
    }
}

proof fn lemma_member_shifted(
    table: Seq<Seq<u8>>,
    line: Seq<u8>,
    at: int,
    start: int,
    fields: Fields,
    by: int,
)
    requires
        0 <= by <= start <= at,
        by <= line.len(),
        start <= usize::MAX,
    ensures
        member_at(table, line, at, start, fields) == members_shifted(
            member_at(table, line.skip(by), at - by, start - by, fields),
            by,
        ),
        member_at(table, line, at, start, fields).result matches Ok((_, end)) ==> end > at,
{
    lemma_string_shifted(line, at, by);
    if let Some((key, after_key)) = string_spec(line, at) {
        lemma_expect_shifted(line, after_key, 0x3a, by);
        if let Some(value) = expect_spec(line, after_key, 0x3a) {
            lemma_member_value_shifted(table, line, value, start, key, fields, by);
        }
    }
}

proof fn lemma_members_shifted(
    table: Seq<Seq<u8>>,
    line: Seq<u8>,
    at: int,
    start: int,
    fields: Fields,
    by: int,
)
    requires
        0 <= by <= start <= at,
        by <= line.len(),
        start <= usize::MAX,
    ensures
        members_spec(table, line, at, start, fields) == members_shifted(
            members_spec(table, line.skip(by), at - by, start - by, fields),
            by,
        ),
        members_spec(table, line, at, start, fields).result matches Ok((_, end)) ==> end > at,
    decreases line.len() - at,
{
    lemma_member_advances(table, line, at, start, fields);
    lemma_member_shifted(table, line, at, start, fields, by);
    if let Ok((said, end)) = member_at(table, line, at, start, fields).result {
        lemma_skip_blanks_shifted(line, end, by);
        let i = skip_blanks(line, end);
        if holds(line, i, 0x2c) {
            lemma_members_shifted(table, line, i + 1, start, said, by);
        }
    }
}

proof fn lemma_message_shifted(table: Seq<Seq<u8>>, line: Seq<u8>, at: int, by: int)
    requires
        0 <= by <= at,
        by <= line.len(),
        at <= usize::MAX,
    ensures
        ({
            let here = message_spec(table, line, at, at);
            let there = message_spec(table, line.skip(by), at - by, at - by);
            &&& here.events == there.events
            &&& match there.end {
                Ok(end) => here.end == Ok::<int, FeedError>(end + by) && end + by > at,
                Err(error) => here.end == Err::<int, FeedError>(feed::error_shifted(error, by)),
            }
        }),
{
    lemma_expect_shifted(line, at, 0x7b, by);
    if let Some(from) = expect_spec(line, at, 0x7b) {
        lemma_members_shifted(table, line, from, at, no_fields(), by);
    }
}

/// Where a stream stands does not matter to what it says.
#[verifier::rlimit(60)]
#[verifier::spinoff_prover]
proof fn lemma_lines_shifted(table: Seq<Seq<u8>>, bytes: Seq<u8>, at: int, by: int)
    requires
        0 <= by <= at <= bytes.len() <= usize::MAX,
    ensures
        lines_spec(table, bytes, at) == feed::shifted(
            lines_spec(table, bytes.skip(by), at - by),
            by,
        ),
    decreases bytes.len() - at,
{
    let rest = bytes.skip(by);
    text::lemma_find_byte(bytes, at, 0x0a);
    text::lemma_find_byte_shifted(bytes, at, 0x0a, by);
    let newline = text::find_byte(bytes, at, 0x0a);
    if newline < bytes.len() {
        let line = bytes.take(newline);
        assert(line.skip(by) =~= rest.take(newline - by));
        lemma_message_shifted(table, line, at, by);
        if let Ok(end) = message_spec(table, line, at, at).end {
            lemma_skip_blanks_shifted(line, end, by);
            lemma_lines_shifted(table, bytes, newline + 1, by);
        }
    }
}

/// Whole lines of a stream's first part read the same in the stream.
#[verifier::rlimit(60)]
#[verifier::spinoff_prover]
proof fn lemma_lines_extended(table: Seq<Seq<u8>>, a: Seq<u8>, b: Seq<u8>, at: int)
    requires
        0 <= at <= a.len(),
        (a + b).len() <= usize::MAX,
    ensures
        ({
            let part = lines_spec(table, a, at);
            let whole = lines_spec(table, a + b, at);
            match part.outcome {
                Ok(stop) => at <= stop <= a.len() && whole == lines_spec(
                    table,
                    a + b,
                    stop as int,
                ).after(part.events),
                Err(_) => whole == part,
            }
        }),
    decreases a.len() - at,
{
    let part = lines_spec(table, a, at);
    let whole = lines_spec(table, a + b, at);
    assert(whole.after(Seq::empty()) =~= whole);
    text::lemma_find_byte(a, at, 0x0a);
    let newline = text::find_byte(a, at, 0x0a);
    if newline < a.len() {
        text::lemma_find_byte_extended(a, b, at, 0x0a);
        let line = a.take(newline);
        assert(line =~= (a + b).take(newline));
        if let Ok(end) = message_spec(table, line, at, at).end {
            if skip_blanks(line, end) == line.len() {
                lemma_lines_extended(table, a, b, newline + 1);
                let rest = lines_spec(table, a, newline + 1);
                if let Ok(stop) = rest.outcome {
                    let tail = lines_spec(table, a + b, stop as int);
                    assert(whole =~= tail.after(part.events));
                } else {
                    assert(whole =~= part);
                }
            }
        }
    }
}

/// The whole lines of a stream, from `at`, up to one that is refused.
pub open spec fn spans(table: Seq<Seq<u8>>, bytes: Seq<u8>, at: int) -> Seq<Span>
    decreases bytes.len() - at,
{
    proof {
        if 0 <= at <= bytes.len() {
            text::lemma_find_byte(bytes, at, 0x0a);
        }
    }
    let newline = text::find_byte(bytes, at, 0x0a);
    if at < 0 || newline >= bytes.len() {
        Seq::empty()
    } else {
        let line = bytes.take(newline);
        let message = message_spec(table, line, at, at);
        if message.end is Ok && skip_blanks(line, message.end->Ok_0) == line.len() {
            seq![Span { end: newline + 1, events: message.events }] + spans(
                table,
                bytes,
                newline + 1,
            )
        } else {
            Seq::empty()
        }
    }
}

proof fn lemma_cut_from(table: Seq<Seq<u8>>, bytes: Seq<u8>, at: int, cut: int)
    requires
        0 <= at <= cut <= bytes.len(),
        lines_spec(table, bytes, at).outcome is Ok,
    ensures
        lines_spec(table, bytes.take(cut), at) == feed::read_until(
            spans(table, bytes, at),
            at,
            cut,
        ),
    decreases bytes.len() - at,
{
    let part = bytes.take(cut);
    let all = spans(table, bytes, at);
    let newline = text::find_byte(bytes, at, 0x0a);
    text::lemma_find_byte(bytes, at, 0x0a);
    text::lemma_find_byte(part, at, 0x0a);
    let found = text::find_byte(part, at, 0x0a);
    if found < cut {
        assert(part + bytes.skip(cut) =~= bytes);
        text::lemma_find_byte_extended(part, bytes.skip(cut), at, 0x0a);
    }
    if newline < bytes.len() {
        assert(all.skip(1) =~= spans(table, bytes, newline + 1));
        if newline < cut {
            assert(part[newline] == bytes[newline]);
            text::lemma_find_byte_is(part, at, 0x0a, newline);
            assert(part.take(newline) =~= bytes.take(newline));
            lemma_cut_from(table, bytes, newline + 1, cut);
        }
    }
}

/// A clean stream cut anywhere reads up to the end of its last whole line, with
/// exactly the events of the lines up to there.
pub proof fn lemma_cut(table: Seq<Seq<u8>>, bytes: Seq<u8>, cut: int)
    requires
        0 <= cut <= bytes.len(),
        lines_spec(table, bytes, 0).outcome is Ok,
    ensures
        lines_spec(table, bytes.take(cut), 0) == feed::read_until(
            spans(table, bytes, 0),
            0,
            cut,
        ),
{
    lemma_cut_from(table, bytes, 0, cut);
}

/// A stream split anywhere reads as it does whole, once what the first part
/// leaves over is glued to the second.
pub proof fn lemma_resumes(table: Seq<Seq<u8>>, a: Seq<u8>, b: Seq<u8>)
    requires
        (a + b).len() <= usize::MAX,
    ensures
        feed::resumes(
            lines_spec(table, a, 0),
            lines_spec(table, a + b, 0),
            |consumed: int| lines_spec(table, a.skip(consumed) + b, 0),
        ),
{
    lemma_lines_extended(table, a, b, 0);
    if let Ok(stop) = lines_spec(table, a, 0).outcome {
        lemma_lines_shifted(table, a + b, stop as int, stop as int);
        assert((a + b).skip(stop as int) =~= a.skip(stop as int) + b);
    }
}

// --------------------------------------------------------------------- the events

proof fn lemma_levels_normal(
    table: Seq<Seq<u8>>,
    line: Seq<u8>,
    at: int,
    side: Side,
    symbol: u16,
)
    requires
        symbol < table.len(),
    ensures
        feed::all_normal(table, levels_spec(line, at, side, symbol).events),
    decreases line.len() - at,
{
    lemma_level_advances(line, at);
    if !holds(line, at, 0x5d) && at >= 0 {
        if let Some((price, qty, end)) = level_spec(line, at) {
            if let Some(next) = next_level(line, end) {
                lemma_levels_normal(table, line, next, side, symbol);
                feed::lemma_normal_adds(
                    table,
                    seq![level_event(side, symbol, price, qty)],
                    levels_spec(line, next, side, symbol).events,
                );
            }
        }
    }
}

/// The symbol that was said stands in the table.
spec fn fields_known(table: Seq<Seq<u8>>, fields: Fields) -> bool {
    fields.symbol matches Some(symbol) ==> symbol < table.len()
}

proof fn lemma_member_normal(
    table: Seq<Seq<u8>>,
    line: Seq<u8>,
    at: int,
    start: int,
    fields: Fields,
)
    requires
        fields_known(table, fields),
    ensures
        feed::all_normal(table, member_at(table, line, at, start, fields).events),
        member_at(table, line, at, start, fields).result matches Ok((said, _)) ==> fields_known(
            table,
            said,
        ),
{
    if let Some((_, after_key)) = string_spec(line, at) {
        if let Some(value) = expect_spec(line, after_key, 0x3a) {
            if let Some((name, _)) = string_spec(line, value) {
                feed::lemma_symbol_index(table, name);
            }
            if let Some(symbol) = fields.symbol {
                if let Some(from) = expect_spec(line, value, 0x5b) {
                    let first = skip_blanks(line, from);
                    lemma_levels_normal(table, line, first, Side::Bid, symbol);
                    lemma_levels_normal(table, line, first, Side::Ask, symbol);
                }
            }
        }
    }
}

proof fn lemma_members_normal(
    table: Seq<Seq<u8>>,
    line: Seq<u8>,
    at: int,
    start: int,
    fields: Fields,
)
    requires
        fields_known(table, fields),
    ensures
        feed::all_normal(table, members_spec(table, line, at, start, fields).events),
        members_spec(table, line, at, start, fields).result matches Ok((said, _)) ==> fields_known(
            table,
            said,
        ),
    decreases line.len() - at,
{
    lemma_member_advances(table, line, at, start, fields);
    if at >= 0 {
        lemma_member_normal(table, line, at, start, fields);
        let member = member_at(table, line, at, start, fields);
        if let Ok((said, end)) = member.result {
            let i = skip_blanks(line, end);
            if holds(line, i, 0x2c) {
                lemma_members_normal(table, line, i + 1, start, said);
                feed::lemma_normal_adds(
                    table,
                    member.events,
                    members_spec(table, line, i + 1, start, said).events,
                );
            }
        }
    }
}

/// Every event of a stream is about a symbol of the table, and what its kind
/// does not use is zero.
pub proof fn lemma_events_normal(table: Seq<Seq<u8>>, bytes: Seq<u8>, at: int)
    ensures
        feed::all_normal(table, lines_spec(table, bytes, at).events),
    decreases bytes.len() - at,
{
    if 0 <= at <= bytes.len() {
        text::lemma_find_byte(bytes, at, 0x0a);
        let newline = text::find_byte(bytes, at, 0x0a);
        if newline < bytes.len() {
            let line = bytes.take(newline);
            let message = message_spec(table, line, at, at);
            if let Some(from) = expect_spec(line, at, 0x7b) {
                lemma_members_normal(table, line, from, at, no_fields());
            }
            assert(feed::all_normal(table, message.events));
            lemma_events_normal(table, bytes, newline + 1);
            feed::lemma_normal_adds(
                table,
                message.events,
                lines_spec(table, bytes, newline + 1).events,
            );
        }
    }
}

} // verus!
