//! Newline-delimited JSON: trade and depth messages, their bytes, their
//! meaning, and a random session of them.

use vstd::prelude::*;

use crate::feed;
use crate::feed::json as wire_format;
use crate::feed::synth;
use crate::feed::synth::Generated;
use crate::feed::text;
use crate::feed::{Event, Kind, Rng, Side};

verus! {

/// One message.
#[verifier::ext_equal]
pub enum Message {
    Trade { symbol: u16, price: u64, qty: u64, trade_id: u64, maker_is_buyer: bool },
    /// Price and quantity of each level, per side.
    Depth { symbol: u16, bids: Seq<(u64, u64)>, asks: Seq<(u64, u64)> },
}

// ------------------------------------------------------------------ the encoding

pub open spec fn quoted(s: Seq<u8>) -> Seq<u8> {
    seq![0x22u8] + s + seq![0x22u8]
}

/// `"k":value`.
pub open spec fn member(key: u8, value: Seq<u8>) -> Seq<u8> {
    seq![0x22u8, key, 0x22u8, 0x3au8] + value
}

pub open spec fn comma() -> Seq<u8> {
    seq![0x2cu8]
}

/// The event time that every message carries.
pub open spec fn event_time() -> Seq<u8> {
    text::digits(1_700_000_000_000)
}

/// `depthUpdate`.
pub open spec fn depth_word() -> Seq<u8> {
    seq![
        0x64u8,
        0x65u8,
        0x70u8,
        0x74u8,
        0x68u8,
        0x55u8,
        0x70u8,
        0x64u8,
        0x61u8,
        0x74u8,
        0x65u8,
    ]
}

/// `true` or `false`.
pub open spec fn bool_word(value: bool) -> Seq<u8> {
    if value {
        seq![0x74u8, 0x72u8, 0x75u8, 0x65u8]
    } else {
        seq![0x66u8, 0x61u8, 0x6cu8, 0x73u8, 0x65u8]
    }
}

/// One `["price","qty"]`.
pub open spec fn level_bytes(level: (u64, u64)) -> Seq<u8> {
    seq![0x5bu8] + quoted(text::scaled_text(level.0 as nat)) + comma() + quoted(
        text::scaled_text(level.1 as nat),
    ) + seq![0x5du8]
}

/// Levels with commas between them.
pub open spec fn levels_bytes(levels: Seq<(u64, u64)>) -> Seq<u8>
    decreases levels.len(),
{
    if levels.len() == 0 {
        Seq::empty()
    } else if levels.len() == 1 {
        level_bytes(levels[0])
    } else {
        levels_bytes(levels.drop_last()) + comma() + level_bytes(levels.last())
    }
}

pub open spec fn bracketed(levels: Seq<(u64, u64)>) -> Seq<u8> {
    seq![0x5bu8] + levels_bytes(levels) + seq![0x5du8]
}

/// The members that both shapes open with.
pub open spec fn opening(word: Seq<u8>, symbol: u16) -> Seq<u8> {
    seq![0x7bu8] + member(0x65, quoted(word)) + comma() + member(0x45, event_time()) + comma()
        + member(0x73, quoted(synth::crypto_names()[symbol as int])) + comma()
}

/// A message on the wire, with its newline.
#[verifier::opaque]
pub open spec fn line(message: Message) -> Seq<u8> {
    match message {
        Message::Trade { symbol, price, qty, trade_id, maker_is_buyer } => opening(
            wire_format::trade_word(),
            symbol,
        ) + member(0x74, text::digits(trade_id as nat)) + comma() + member(
            0x70,
            quoted(text::scaled_text(price as nat)),
        ) + comma() + member(0x71, quoted(text::scaled_text(qty as nat))) + comma() + member(
            0x6d,
            bool_word(maker_is_buyer),
        ) + seq![0x7du8, 0x0au8],
        Message::Depth { symbol, bids, asks } => opening(depth_word(), symbol) + member(
            0x55,
            text::digits(1),
        ) + comma() + member(0x75, text::digits(2)) + comma() + member(0x62, bracketed(bids))
            + comma() + member(0x61, bracketed(asks)) + seq![0x7du8, 0x0au8],
    }
}

pub open spec fn lines(messages: Seq<Message>) -> Seq<u8>
    decreases messages.len(),
{
    if messages.len() == 0 {
        Seq::empty()
    } else {
        lines(messages.drop_last()) + line(messages.last())
    }
}

pub open spec fn level_meanings(
    side: Side,
    symbol: u16,
    levels: Seq<(u64, u64)>,
) -> Seq<Event> {
    levels.map_values(
        |level: (u64, u64)|
            wire_format::level_event(side, symbol, level.0 as i64, level.1 as i64),
    )
}

/// What a message means.
pub open spec fn message_meanings(message: Message) -> Seq<Event> {
    match message {
        Message::Trade { symbol, price, qty, trade_id, maker_is_buyer } => seq![
            Event {
                kind: Kind::Trade,
                side: if maker_is_buyer {
                    Side::Ask
                } else {
                    Side::Bid
                },
                symbol,
                price: price as i64,
                qty: qty as i64,
                order_id: 0,
                aux: trade_id,
            },
        ],
        Message::Depth { symbol, bids, asks } => level_meanings(Side::Bid, symbol, bids)
            + level_meanings(Side::Ask, symbol, asks),
    }
}

pub open spec fn meanings(messages: Seq<Message>) -> Seq<Event>
    decreases messages.len(),
{
    if messages.len() == 0 {
        Seq::empty()
    } else {
        meanings(messages.drop_last()) + message_meanings(messages.last())
    }
}

// ------------------------------------------------------------------- the session

/// A random price: 10 to 50 units.
pub open spec fn drawn_price(rng: u64) -> u64 {
    (1_000_000_000 + synth::draw(rng, 4_000_000_000)) as u64
}

/// Random levels, two draws each, and the generator's state after them. A
/// quantity of zero removes a level.
pub open spec fn drawn_levels(rng: u64, count: nat) -> (u64, Seq<(u64, u64)>)
    decreases count,
{
    if count == 0 {
        (rng, Seq::empty())
    } else {
        let before = drawn_levels(rng, (count - 1) as nat);
        let r1 = feed::rng_next(before.0);
        (
            feed::rng_next(r1),
            before.1.push((drawn_price(before.0), synth::draw(r1, 500_000_000))),
        )
    }
}

/// A random message, and the generator's state after it.
pub open spec fn drawn_message(rng: u64) -> (u64, Message) {
    let r1 = feed::rng_next(rng);
    let r2 = feed::rng_next(r1);
    let r3 = feed::rng_next(r2);
    let r4 = feed::rng_next(r3);
    let r5 = feed::rng_next(r4);
    let symbol = synth::draw(rng, 3) as u16;
    if synth::draw(r1, 2) == 0 {
        (
            feed::rng_next(r5),
            Message::Trade {
                symbol,
                price: drawn_price(r2),
                qty: (1_000_000 + synth::draw(r3, 500_000_000)) as u64,
                trade_id: synth::draw(r4, 0x100_0000_0000),
                maker_is_buyer: synth::draw(r5, 2) == 0,
            },
        )
    } else {
        let bids = drawn_levels(r4, (1 + synth::draw(r2, 3)) as nat);
        let asks = drawn_levels(bids.0, (1 + synth::draw(r3, 3)) as nat);
        (asks.0, Message::Depth { symbol, bids: bids.1, asks: asks.1 })
    }
}

pub open spec fn session(rng: u64, count: nat) -> (u64, Seq<Message>)
    decreases count,
{
    if count == 0 {
        (rng, Seq::empty())
    } else {
        let before = session(rng, (count - 1) as nat);
        let last = drawn_message(before.0);
        (last.0, before.1.push(last.1))
    }
}

// ----------------------------------------------------------------- the generator

fn push_all(out: &mut Vec<u8>, bytes: &[u8])
    ensures
        final(out)@ == old(out)@ + bytes@,
{
    out.extend_from_slice(bytes);
    assert(out@ =~= old(out)@ + bytes@);
}

/// `"k":`.
fn push_key(out: &mut Vec<u8>, key: u8)
    ensures
        forall|value: Seq<u8>|
            #![trigger member(key, value)]
            final(out)@ + value == old(out)@ + member(key, value),
{
    push_all(out, &[0x22u8, key, 0x22u8, 0x3au8]);
    assert forall|value: Seq<u8>|
        #![trigger member(key, value)]
        out@ + value == old(out)@ + member(key, value) by {
        assert(out@ + value =~= old(out)@ + member(key, value));
    }
}

fn push_text_member(out: &mut Vec<u8>, key: u8, value: &[u8])
    ensures
        final(out)@ == old(out)@ + member(key, quoted(value@)),
{
    push_key(out, key);
    let ghost keyed = out@;
    out.push(0x22);
    push_all(out, value);
    out.push(0x22);
    assert(out@ =~= keyed + quoted(value@));
}

fn push_number_member(out: &mut Vec<u8>, key: u8, value: u64)
    ensures
        final(out)@ == old(out)@ + member(key, text::digits(value as nat)),
{
    push_key(out, key);
    text::put_digits(out, value);
}

fn push_scaled_member(out: &mut Vec<u8>, key: u8, value: u64)
    ensures
        final(out)@ == old(out)@ + member(key, quoted(text::scaled_text(value as nat))),
{
    let mut digits: Vec<u8> = Vec::new();
    text::put_scaled(&mut digits, value);
    assert(digits@ =~= text::scaled_text(value as nat));
    push_text_member(out, key, &digits);
}

fn push_opening(out: &mut Vec<u8>, word: &[u8], symbol: u16)
    requires
        symbol < 3,
    ensures
        final(out)@ == old(out)@ + opening(word@, symbol),
{
    let table = synth::crypto();
    assert(feed::names(table@)[symbol as int] == table@[symbol as int]@);
    out.push(0x7b);
    push_text_member(out, 0x65, word);
    out.push(0x2c);
    push_number_member(out, 0x45, 1_700_000_000_000);
    out.push(0x2c);
    push_text_member(out, 0x73, table[symbol as usize]);
    out.push(0x2c);
    assert(out@ =~= old(out)@ + opening(word@, symbol));
}

fn push_level(out: &mut Vec<u8>, price: u64, qty: u64)
    ensures
        final(out)@ == old(out)@ + level_bytes((price, qty)),
{
    out.push(0x5b);
    out.push(0x22);
    text::put_scaled(out, price);
    out.push(0x22);
    out.push(0x2c);
    out.push(0x22);
    text::put_scaled(out, qty);
    out.push(0x22);
    out.push(0x5d);
    assert(out@ =~= old(out)@ + level_bytes((price, qty)));
}

/// Random levels of one side, in brackets, and what they mean.
fn push_levels(
    out: &mut Vec<u8>,
    events: &mut Vec<Event>,
    side: Side,
    symbol: u16,
    count: u64,
    rng: &mut Rng,
)
    ensures
        ({
            let (state, levels) = drawn_levels(old(rng).0, count as nat);
            &&& final(out)@ == old(out)@ + bracketed(levels)
            &&& final(events)@ == old(events)@ + level_meanings(side, symbol, levels)
            &&& final(rng).0 == state
        }),
{
    out.push(0x5b);
    let ghost start = out@;
    let mut i: u64 = 0;
    assert(start + levels_bytes(Seq::empty()) =~= start);
    assert(events@ + level_meanings(side, symbol, Seq::empty()) =~= events@);
    while i < count
        invariant
            i <= count,
            ({
                let (state, levels) = drawn_levels(old(rng).0, i as nat);
                &&& levels.len() == i
                &&& out@ == start + levels_bytes(levels)
                &&& events@ == old(events)@ + level_meanings(side, symbol, levels)
                &&& rng.0 == state
            }),
        decreases count - i,
    {
        let ghost levels = drawn_levels(old(rng).0, i as nat).1;
        let price = 1_000_000_000 + rng.below(4_000_000_000);
        let qty = rng.below(500_000_000);
        if i > 0 {
            out.push(0x2c);
        }
        push_level(out, price, qty);
        events.push(
            Event {
                kind: Kind::Level,
                side,
                symbol,
                price: price as i64,
                qty: qty as i64,
                order_id: 0,
                aux: 0,
            },
        );
        proof {
            let after = levels.push((price, qty));
            assert(after.drop_last() =~= levels);
            assert(out@ =~= start + levels_bytes(after));
            assert(events@ =~= old(events)@ + level_meanings(side, symbol, after));
        }
        i = i + 1;
    }
    out.push(0x5d);
    assert(out@ =~= old(out)@ + bracketed(drawn_levels(old(rng).0, count as nat).1));
}

/// Writes a trade and what it means, field order as the venue sends it.
fn push_trade(
    out: &mut Generated,
    symbol: u16,
    price: u64,
    qty: u64,
    trade_id: u64,
    maker_is_buyer: bool,
)
    requires
        symbol < 3,
        price <= i64::MAX,
        qty <= i64::MAX,
    ensures
        ({
            let message = Message::Trade { symbol, price, qty, trade_id, maker_is_buyer };
            &&& final(out).bytes@ == old(out).bytes@ + line(message)
            &&& final(out).events@ == old(out).events@ + message_meanings(message)
        }),
{
    let ghost word = wire_format::trade_word();
    let word_bytes = [0x74u8, 0x72u8, 0x61u8, 0x64u8, 0x65u8];
    assert(word_bytes@ =~= word);
    push_opening(&mut out.bytes, &word_bytes, symbol);
    push_number_member(&mut out.bytes, 0x74, trade_id);
    out.bytes.push(0x2c);
    push_scaled_member(&mut out.bytes, 0x70, price);
    out.bytes.push(0x2c);
    push_scaled_member(&mut out.bytes, 0x71, qty);
    out.bytes.push(0x2c);
    push_key(&mut out.bytes, 0x6d);
    if maker_is_buyer {
        push_all(&mut out.bytes, &[0x74u8, 0x72u8, 0x75u8, 0x65u8]);
    } else {
        push_all(&mut out.bytes, &[0x66u8, 0x61u8, 0x6cu8, 0x73u8, 0x65u8]);
    }
    push_all(&mut out.bytes, &[0x7du8, 0x0au8]);
    out.events.push(
        Event {
            kind: Kind::Trade,
            side: if maker_is_buyer {
                Side::Ask
            } else {
                Side::Bid
            },
            symbol,
            price: price as i64,
            qty: qty as i64,
            order_id: 0,
            aux: trade_id,
        },
    );
    proof {
        reveal(line);
        let message = Message::Trade { symbol, price, qty, trade_id, maker_is_buyer };
        let m1 = member(0x74, text::digits(trade_id as nat));
        let m2 = member(0x70, quoted(text::scaled_text(price as nat)));
        let m3 = member(0x71, quoted(text::scaled_text(qty as nat)));
        let m4 = member(0x6d, bool_word(maker_is_buyer));
        assert(out.bytes@ =~= old(out).bytes@ + (opening(word, symbol) + m1 + comma() + m2
            + comma() + m3 + comma() + m4 + seq![0x7du8, 0x0au8]));
        assert(out.events@ =~= old(out).events@ + message_meanings(message));
    }
}

/// Writes a random depth update and what it means.
#[verifier::rlimit(60)]
#[verifier::spinoff_prover]
fn push_depth(out: &mut Generated, symbol: u16, bids: u64, asks: u64, rng: &mut Rng)
    requires
        symbol < 3,
    ensures
        ({
            let (middle, bid_levels) = drawn_levels(old(rng).0, bids as nat);
            let (state, ask_levels) = drawn_levels(middle, asks as nat);
            let message = Message::Depth { symbol, bids: bid_levels, asks: ask_levels };
            &&& final(out).bytes@ == old(out).bytes@ + line(message)
            &&& final(out).events@ == old(out).events@ + message_meanings(message)
            &&& final(rng).0 == state
        }),
{
    let ghost (middle, bid_levels) = drawn_levels(rng.0, bids as nat);
    let ghost ask_levels = drawn_levels(middle, asks as nat).1;
    let word_bytes = [
        0x64u8,
        0x65u8,
        0x70u8,
        0x74u8,
        0x68u8,
        0x55u8,
        0x70u8,
        0x64u8,
        0x61u8,
        0x74u8,
        0x65u8,
    ];
    assert(word_bytes@ =~= depth_word());
    push_opening(&mut out.bytes, &word_bytes, symbol);
    push_number_member(&mut out.bytes, 0x55, 1);
    out.bytes.push(0x2c);
    push_number_member(&mut out.bytes, 0x75, 2);
    out.bytes.push(0x2c);
    push_key(&mut out.bytes, 0x62);
    push_levels(&mut out.bytes, &mut out.events, Side::Bid, symbol, bids, rng);
    out.bytes.push(0x2c);
    push_key(&mut out.bytes, 0x61);
    push_levels(&mut out.bytes, &mut out.events, Side::Ask, symbol, asks, rng);
    push_all(&mut out.bytes, &[0x7du8, 0x0au8]);
    proof {
        reveal(line);
        let message = Message::Depth { symbol, bids: bid_levels, asks: ask_levels };
        let m1 = member(0x55, text::digits(1));
        let m2 = member(0x75, text::digits(2));
        let m3 = member(0x62, bracketed(bid_levels));
        let m4 = member(0x61, bracketed(ask_levels));
        assert(out.bytes@ =~= old(out).bytes@ + (opening(depth_word(), symbol) + m1 + comma() + m2
            + comma() + m3 + comma() + m4 + seq![0x7du8, 0x0au8]));
        assert(out.events@ =~= old(out).events@ + message_meanings(message));
    }
}

/// A random session of `count` messages.
pub fn json(count: usize, rng: &mut Rng) -> (out: Generated)
    ensures
        ({
            let (state, messages) = session(old(rng).0, count as nat);
            &&& out.bytes@ == lines(messages)
            &&& out.events@ == meanings(messages)
            &&& final(rng).0 == state
        }),
{
    let mut out = Generated::default();
    let mut i: usize = 0;
    while i < count
        invariant
            i <= count,
            ({
                let (state, messages) = session(old(rng).0, i as nat);
                &&& out.bytes@ == lines(messages)
                &&& out.events@ == meanings(messages)
                &&& rng.0 == state
            }),
        decreases count - i,
    {
        let ghost (before, messages) = session(old(rng).0, i as nat);
        let ghost message = drawn_message(before).1;
        let ghost held = out.bytes@;
        let ghost said = out.events@;
        let symbol = rng.below(3) as u16;
        if rng.below(2) == 0 {
            let price = 1_000_000_000 + rng.below(4_000_000_000);
            let qty = 1_000_000 + rng.below(500_000_000);
            let trade_id = rng.below(0x100_0000_0000);
            let maker_is_buyer = rng.below(2) == 0;
            push_trade(&mut out, symbol, price, qty, trade_id, maker_is_buyer);
        } else {
            let bids = 1 + rng.below(3);
            let asks = 1 + rng.below(3);
            push_depth(&mut out, symbol, bids, asks, rng);
        }
        proof {
            let after = messages.push(message);
            assert(after.drop_last() =~= messages);
            assert(out.bytes@ == held + line(message));
            assert(out.events@ == said + message_meanings(message));
            assert(session(old(rng).0, (i + 1) as nat).1 == after);
        }
        i = i + 1;
    }
    out
}

// ---------------------------------------------------------------- reading it back

/// No byte of a string's contents ends the string.
pub open spec fn plain(s: Seq<u8>) -> bool {
    forall|i: int| #![trigger s[i]] 0 <= i < s.len() ==> s[i] != 0x22 && s[i] != 0x5c
}

/// Text on one line.
pub open spec fn one_line(s: Seq<u8>) -> bool {
    forall|i: int| #![trigger s[i]] 0 <= i < s.len() ==> s[i] != 0x0a
}

proof fn lemma_one_line_adds(a: Seq<u8>, b: Seq<u8>)
    requires
        one_line(a),
        one_line(b),
    ensures
        one_line(a + b),
{
    assert forall|i: int| #![trigger (a + b)[i]] 0 <= i < (a + b).len() implies (a + b)[i]
        != 0x0a by {
        if i < a.len() {
            assert((a + b)[i] == a[i]);
        } else {
            assert((a + b)[i] == b[i - a.len()]);
        }
    }
}

proof fn lemma_string_end(text: Seq<u8>, at: int, end: int)
    requires
        0 <= at <= end < text.len(),
        forall|i: int| #![trigger text[i]] at <= i < end ==> text[i] != 0x22 && text[i] != 0x5c,
        text[end] == 0x22,
    ensures
        wire_format::string_end(text, at) == end,
    decreases end - at,
{
    if at < end {
        lemma_string_end(text, at + 1, end);
    }
}

/// A quoted string is read.
proof fn lemma_quoted(text: Seq<u8>, at: int, s: Seq<u8>)
    requires
        text::stands(text, at, quoted(s)),
        plain(s),
    ensures
        wire_format::string_spec(text, at) == Some((s, (at + s.len() + 2) as int)),
{
    let mark = seq![0x22u8];
    text::lemma_stands_split(text, at, mark + s, mark);
    text::lemma_stands_split(text, at, mark, s);
    text::lemma_stands_at(text, at, mark, 0);
    let end = (at + 1 + s.len()) as int;
    text::lemma_stands_at(text, end, mark, 0);
    assert forall|i: int| #![trigger text[i]] at + 1 <= i < end implies text[i] != 0x22 && text[i]
        != 0x5c by {
        text::lemma_stands_at(text, at + 1, s, i - at - 1);
        assert(s[i - at - 1] != 0x22);
    }
    lemma_string_end(text, at + 1, end);
    assert(wire_format::skip_blanks(text, at) == at);
}

/// A member's key is read, and its value follows.
proof fn lemma_key(
    table: Seq<Seq<u8>>,
    text: Seq<u8>,
    at: int,
    start: int,
    key: u8,
    value: Seq<u8>,
    fields: wire_format::Fields,
)
    requires
        text::stands(text, at, member(key, value)),
        key != 0x22 && key != 0x5c,
    ensures
        wire_format::member_at(table, text, at, start, fields) == wire_format::member_spec(
            table,
            text,
            at + 4,
            start,
            seq![key],
            fields,
        ),
        text::stands(text, at + 4, value),
{
    let front = seq![0x22u8, key, 0x22u8, 0x3au8];
    text::lemma_stands_split(text, at, front, value);
    text::lemma_stands_at(text, at, front, 3);
    assert(front =~= quoted(seq![key]) + seq![0x3au8]);
    text::lemma_stands_split(text, at, quoted(seq![key]), seq![0x3au8]);
    lemma_quoted(text, at, seq![key]);
    assert(wire_format::skip_blanks(text, at + 3) == at + 3);
}

/// A member that a comma follows.
proof fn lemma_member_then(
    table: Seq<Seq<u8>>,
    text: Seq<u8>,
    at: int,
    start: int,
    fields: wire_format::Fields,
    said: wire_format::Fields,
    end: int,
)
    requires
        0 <= at,
        wire_format::member_at(table, text, at, start, fields).result == Ok::<
            (wire_format::Fields, int),
            feed::FeedError,
        >((said, end)),
        wire_format::holds(text, end, 0x2c),
    ensures
        ({
            let member = wire_format::member_at(table, text, at, start, fields);
            let read = wire_format::members_spec(table, text, at, start, fields);
            let rest = wire_format::members_spec(table, text, end + 1, start, said);
            &&& read.events == member.events + rest.events
            &&& read.result == rest.result
        }),
{
    assert(wire_format::skip_blanks(text, end) == end);
}

/// A member that the closing brace follows.
proof fn lemma_member_last(
    table: Seq<Seq<u8>>,
    text: Seq<u8>,
    at: int,
    start: int,
    fields: wire_format::Fields,
    said: wire_format::Fields,
    end: int,
)
    requires
        0 <= at,
        wire_format::member_at(table, text, at, start, fields).result == Ok::<
            (wire_format::Fields, int),
            feed::FeedError,
        >((said, end)),
        wire_format::holds(text, end, 0x7d),
    ensures
        ({
            let member = wire_format::member_at(table, text, at, start, fields);
            let read = wire_format::members_spec(table, text, at, start, fields);
            &&& read.events == member.events
            &&& read.result == Ok::<(wire_format::Fields, int), feed::FeedError>((said, end + 1))
        }),
{
    assert(wire_format::skip_blanks(text, end) == end);
}

/// A member that nobody asked for, a number under one of the update IDs' keys.
proof fn lemma_skipped_member(
    text: Seq<u8>,
    at: int,
    start: int,
    fields: wire_format::Fields,
    key: u8,
    n: nat,
)
    requires
        text::stands(text, at, member(key, text::digits(n))),
        key == 0x55 || key == 0x75,
        wire_format::holds(text, (at + member(key, text::digits(n)).len()) as int, 0x2c),
    ensures
        ({
            let end = (at + member(key, text::digits(n)).len()) as int;
            let read = wire_format::member_at(synth::crypto_names(), text, at, start, fields);
            &&& read.events == Seq::<Event>::empty()
            &&& read.result == Ok::<(wire_format::Fields, int), feed::FeedError>((fields, end))
        }),
{
    lemma_key(synth::crypto_names(), text, at, start, key, text::digits(n), fields);
    lemma_skip_number(text, at + 4, n);
}

/// A number is skipped up to the comma behind it.
proof fn lemma_skip_number(text: Seq<u8>, at: int, n: nat)
    requires
        text::stands(text, at, text::digits(n)),
        wire_format::holds(text, (at + text::digits(n).len()) as int, 0x2c),
    ensures
        wire_format::skip_value_spec(text, at) == Some((at + text::digits(n).len()) as int),
{
    let digits = text::digits(n);
    let end = (at + digits.len()) as int;
    text::lemma_digits(n);
    assert forall|i: int| #![trigger text[i]] at <= i < end implies text::is_digit(text[i]) by {
        text::lemma_stands_at(text, at, digits, i - at);
        assert(text::is_digit(digits[i - at]));
    }
    assert(text::is_digit(text[at]));
    assert(wire_format::skip_blanks(text, at) == at);
    lemma_skip_scalar(text, at, end);
}

proof fn lemma_skip_scalar(text: Seq<u8>, at: int, end: int)
    requires
        0 <= at <= end < text.len(),
        forall|i: int| #![trigger text[i]] at <= i < end ==> text::is_digit(text[i]),
        text[end] == 0x2c,
    ensures
        wire_format::skip_scalar(text, at) == Some(end),
    decreases end - at,
{
    if at < end {
        assert(text::is_digit(text[at]));
        lemma_skip_scalar(text, at + 1, end);
    }
}

/// A decimal in quotes is read.
proof fn lemma_decimal(text: Seq<u8>, at: int, value: u64)
    requires
        text::stands(text, at, quoted(text::scaled_text(value as nat))),
        value <= i64::MAX,
    ensures
        wire_format::quoted_decimal_spec(text, at) == Some(
            (value as i64, (at + quoted(text::scaled_text(value as nat)).len()) as int),
        ),
{
    let s = text::scaled_text(value as nat);
    text::lemma_scaled_text(value as nat);
    assert(plain(s));
    lemma_quoted(text, at, s);
}

/// A level is read.
proof fn lemma_level(text: Seq<u8>, at: int, level: (u64, u64))
    requires
        text::stands(text, at, level_bytes(level)),
        level.0 <= i64::MAX,
        level.1 <= i64::MAX,
    ensures
        wire_format::level_spec(text, at) == Some(
            (level.0 as i64, level.1 as i64, (at + level_bytes(level).len()) as int),
        ),
        text[at] == 0x5b,
{
    let open = seq![0x5bu8];
    let price = quoted(text::scaled_text(level.0 as nat));
    let qty = quoted(text::scaled_text(level.1 as nat));
    let close = seq![0x5du8];
    text::lemma_stands_split(text, at, open + price + comma() + qty, close);
    text::lemma_stands_split(text, at, open + price + comma(), qty);
    text::lemma_stands_split(text, at, open + price, comma());
    text::lemma_stands_split(text, at, open, price);
    text::lemma_stands_at(text, at, open, 0);
    let a = at + 1;
    let b = a + price.len();
    let c = b + 1;
    let d = c + qty.len();
    text::lemma_stands_at(text, b, comma(), 0);
    text::lemma_stands_at(text, d, close, 0);
    lemma_decimal(text, a, level.0);
    lemma_decimal(text, c, level.1);
    assert(wire_format::skip_blanks(text, at) == at);
    assert(wire_format::skip_blanks(text, b) == b);
    assert(wire_format::skip_blanks(text, d) == d);
}

/// Levels fall into those before a comma and those behind it.
pub proof fn lemma_levels_split(levels: Seq<(u64, u64)>, m: int)
    requires
        0 < m < levels.len(),
    ensures
        levels_bytes(levels) == levels_bytes(levels.take(m)) + comma() + levels_bytes(
            levels.skip(m),
        ),
    decreases levels.len(),
{
    let front = levels.drop_last();
    let last = levels.last();
    if m == levels.len() - 1 {
        assert(levels.take(m) =~= front);
        assert(levels.skip(m) =~= seq![last]);
    } else {
        lemma_levels_split(front, m);
        assert(front.take(m) =~= levels.take(m));
        assert(levels.skip(m).drop_last() =~= front.skip(m));
        assert(levels.skip(m).last() == last);
        assert(levels_bytes(levels) =~= levels_bytes(levels.take(m)) + comma() + levels_bytes(
            levels.skip(m),
        ));
    }
}

/// The levels of a side are read.
proof fn lemma_levels(
    text: Seq<u8>,
    at: int,
    side: Side,
    symbol: u16,
    levels: Seq<(u64, u64)>,
)
    requires
        text::stands(text, at, levels_bytes(levels)),
        wire_format::holds(text, (at + levels_bytes(levels).len()) as int, 0x5d),
        forall|i: int|
            #![trigger levels[i]]
            0 <= i < levels.len() ==> levels[i].0 <= i64::MAX && levels[i].1 <= i64::MAX,
    ensures
        wire_format::levels_spec(text, at, side, symbol) == (wire_format::Part {
            events: level_meanings(side, symbol, levels),
            end: Some((at + levels_bytes(levels).len() + 1) as int),
        }),
    decreases levels.len(),
{
    let close = (at + levels_bytes(levels).len()) as int;
    let read = wire_format::levels_spec(text, at, side, symbol);
    if levels.len() == 0 {
        assert(level_meanings(side, symbol, levels) =~= Seq::empty());
        assert(read.events =~= Seq::empty());
    } else {
        let first = levels[0];
        let rest = levels.skip(1);
        let end = (at + level_bytes(first).len()) as int;
        if levels.len() == 1 {
            lemma_level(text, at, first);
            assert(wire_format::skip_blanks(text, end) == end);
            assert(wire_format::next_level(text, end) == Some(close));
            assert(rest =~= Seq::empty());
            assert(levels_bytes(rest) =~= Seq::empty());
        } else {
            lemma_levels_split(levels, 1);
            assert(levels.take(1) =~= seq![first]);
            assert(levels_bytes(levels.take(1)) == level_bytes(first));
            text::lemma_stands_split(
                text,
                at,
                level_bytes(first) + comma(),
                levels_bytes(rest),
            );
            text::lemma_stands_split(text, at, level_bytes(first), comma());
            text::lemma_stands_at(text, end, comma(), 0);
            lemma_level(text, at, first);
            // The next level opens right behind the comma.
            assert(text[end + 1] == 0x5b) by {
                if rest.len() > 1 {
                    lemma_levels_split(rest, 1);
                    assert(rest.take(1) =~= seq![rest[0]]);
                    text::lemma_stands_split(
                        text,
                        end + 1,
                        level_bytes(rest[0]) + comma(),
                        levels_bytes(rest.skip(1)),
                    );
                    text::lemma_stands_split(text, end + 1, level_bytes(rest[0]), comma());
                }
                assert(rest[0] == levels[1]);
                lemma_level(text, end + 1, rest[0]);
            }
            assert(wire_format::skip_blanks(text, end) == end);
            assert(wire_format::skip_blanks(text, end + 1) == end + 1);
            assert(wire_format::next_level(text, end) == Some(end + 1));
        }
        assert forall|i: int| #![trigger rest[i]] 0 <= i < rest.len() implies rest[i].0 <= i64::MAX
            && rest[i].1 <= i64::MAX by {
            assert(rest[i] == levels[i + 1]);
        }
        let next = wire_format::next_level(text, end)->0;
        assert(text::stands(text, next, levels_bytes(rest))) by {
            if levels.len() == 1 {
                assert(text.subrange(next, next) =~= Seq::empty());
            }
        }
        lemma_levels(text, next, side, symbol, rest);
        assert(level_meanings(side, symbol, levels) =~= seq![
            wire_format::level_event(side, symbol, first.0 as i64, first.1 as i64),
        ] + level_meanings(side, symbol, rest));
        assert(read.events =~= level_meanings(side, symbol, levels));
    }
}

/// Every name of the table is found where it stands.
proof fn lemma_symbol_index(symbol: u16)
    requires
        symbol < 3,
    ensures
        feed::symbol_index(
            synth::crypto_names(),
            synth::crypto_names()[symbol as int],
        ) == Some(symbol),
        plain(synth::crypto_names()[symbol as int]),
        one_line(synth::crypto_names()[symbol as int]),
{
    let table = synth::crypto_names();
    let name = table[symbol as int];
    table.index_of_first_ensures(name);
    assert(table.contains(name)) by {
        assert(table[symbol as int] == name);
    }
    assert(synth::BTCUSDT@[0] == 0x42 && synth::ETHUSDT@[0] == 0x45 && synth::SOLUSDT@[0] == 0x53);
    let found = table.index_of_first(name)->0;
    assert(table[found][0] == name[0]);
}

/// What the opening members say.
pub open spec fn opened(word: Seq<u8>, symbol: u16) -> wire_format::Fields {
    wire_format::Fields {
        kind: Some(word),
        symbol: Some(symbol),
        ..wire_format::no_fields()
    }
}

/// The opening members are read.
#[verifier::rlimit(60)]
#[verifier::spinoff_prover]
proof fn lemma_opening(text: Seq<u8>, at: int, start: int, word: Seq<u8>, symbol: u16)
    requires
        text::stands(text, at, opening(word, symbol)),
        plain(word),
        symbol < 3,
    ensures
        ({
            let table = synth::crypto_names();
            let next = (at + opening(word, symbol).len()) as int;
            let read = wire_format::members_spec(
                table,
                text,
                at + 1,
                start,
                wire_format::no_fields(),
            );
            let rest = wire_format::members_spec(table, text, next, start, opened(word, symbol));
            &&& wire_format::expect_spec(text, at, 0x7b) == Some(at + 1)
            &&& read.events == rest.events
            &&& read.result == rest.result
        }),
{
    let table = synth::crypto_names();
    let none = wire_format::no_fields();
    let name = table[symbol as int];
    let brace = seq![0x7bu8];
    let m1 = member(0x65, quoted(word));
    let m2 = member(0x45, event_time());
    let m3 = member(0x73, quoted(name));
    lemma_symbol_index(symbol);
    text::lemma_stands_split(text, at, brace + m1 + comma() + m2 + comma() + m3, comma());
    text::lemma_stands_split(text, at, brace + m1 + comma() + m2 + comma(), m3);
    text::lemma_stands_split(text, at, brace + m1 + comma() + m2, comma());
    text::lemma_stands_split(text, at, brace + m1 + comma(), m2);
    text::lemma_stands_split(text, at, brace + m1, comma());
    text::lemma_stands_split(text, at, brace, m1);
    text::lemma_stands_at(text, at, brace, 0);
    assert(wire_format::skip_blanks(text, at) == at);
    let p1 = at + 1;
    let e1 = p1 + m1.len();
    let p2 = e1 + 1;
    let e2 = p2 + m2.len();
    let p3 = e2 + 1;
    let e3 = p3 + m3.len();
    text::lemma_stands_at(text, e1, comma(), 0);
    text::lemma_stands_at(text, e2, comma(), 0);
    text::lemma_stands_at(text, e3, comma(), 0);
    // "e"
    lemma_key(table, text, p1, start, 0x65, quoted(word), none);
    lemma_quoted(text, p1 + 4, word);
    let s1 = wire_format::Fields { kind: Some(word), ..none };
    lemma_member_then(table, text, p1, start, none, s1, e1);
    // "E"
    lemma_key(table, text, p2, start, 0x45, event_time(), s1);
    lemma_skip_number(text, p2 + 4, 1_700_000_000_000);
    lemma_member_then(table, text, p2, start, s1, s1, e2);
    // "s"
    lemma_key(table, text, p3, start, 0x73, quoted(name), s1);
    lemma_quoted(text, p3 + 4, name);
    let s3 = opened(word, symbol);
    lemma_member_then(table, text, p3, start, s1, s3, e3);
    let rest = wire_format::members_spec(table, text, e3 + 1, start, s3);
    let r3 = wire_format::members_spec(table, text, p3, start, s1);
    let r2 = wire_format::members_spec(table, text, p2, start, s1);
    let r1 = wire_format::members_spec(table, text, p1, start, none);
    assert(r3.events =~= rest.events);
    assert(r2.events =~= rest.events);
    assert(r1.events =~= rest.events);
}

/// The members of a trade behind its opening.
pub open spec fn trade_tail(price: u64, qty: u64, trade_id: u64, maker_is_buyer: bool) -> Seq<u8> {
    member(0x74, text::digits(trade_id as nat)) + comma() + member(
        0x70,
        quoted(text::scaled_text(price as nat)),
    ) + comma() + member(0x71, quoted(text::scaled_text(qty as nat))) + comma() + member(
        0x6d,
        bool_word(maker_is_buyer),
    ) + seq![0x7du8]
}

/// A trade's ID is read.
proof fn lemma_id_member(
    text: Seq<u8>,
    at: int,
    start: int,
    fields: wire_format::Fields,
    trade_id: u64,
)
    requires
        text::stands(text, at, member(0x74, text::digits(trade_id as nat))),
        wire_format::holds(
            text,
            (at + member(0x74, text::digits(trade_id as nat)).len()) as int,
            0x2c,
        ),
    ensures
        wire_format::member_at(synth::crypto_names(), text, at, start, fields)
            == wire_format::Members::silent(
            Ok(
                (
                    wire_format::Fields { trade_id, ..fields },
                    (at + member(0x74, text::digits(trade_id as nat)).len()) as int,
                ),
            ),
        ),
{
    let number = text::digits(trade_id as nat);
    lemma_key(synth::crypto_names(), text, at, start, 0x74, number, fields);
    text::lemma_stands_digits(text, at + 4, trade_id as nat);
    text::lemma_digits(trade_id as nat);
    text::lemma_stands_at(text, at + 4, number, 0);
    assert(text::is_digit(number[0]));
    assert(wire_format::skip_blanks(text, at + 4) == at + 4);
}

/// A trade's price or quantity is read.
proof fn lemma_decimal_member(
    text: Seq<u8>,
    at: int,
    start: int,
    fields: wire_format::Fields,
    key: u8,
    value: u64,
)
    requires
        key == 0x70 || key == 0x71,
        text::stands(text, at, member(key, quoted(text::scaled_text(value as nat)))),
        value <= i64::MAX,
    ensures
        wire_format::member_at(synth::crypto_names(), text, at, start, fields)
            == wire_format::Members::silent(
            Ok(
                (
                    if key == 0x70 {
                        wire_format::Fields { price: value as i64, ..fields }
                    } else {
                        wire_format::Fields { qty: value as i64, ..fields }
                    },
                    (at + member(key, quoted(text::scaled_text(value as nat))).len()) as int,
                ),
            ),
        ),
{
    let value_text = quoted(text::scaled_text(value as nat));
    lemma_key(synth::crypto_names(), text, at, start, key, value_text, fields);
    lemma_decimal(text, at + 4, value);
}

/// A trade's maker flag is read.
proof fn lemma_maker_member(
    text: Seq<u8>,
    at: int,
    start: int,
    fields: wire_format::Fields,
    maker_is_buyer: bool,
)
    requires
        text::stands(text, at, member(0x6d, bool_word(maker_is_buyer))),
    ensures
        wire_format::member_at(synth::crypto_names(), text, at, start, fields)
            == wire_format::Members::silent(
            Ok(
                (
                    wire_format::Fields { maker_is_buyer, ..fields },
                    (at + member(0x6d, bool_word(maker_is_buyer)).len()) as int,
                ),
            ),
        ),
{
    let word = bool_word(maker_is_buyer);
    lemma_key(synth::crypto_names(), text, at, start, 0x6d, word, fields);
    text::lemma_stands_at(text, at + 4, word, 0);
    assert(wire_format::skip_blanks(text, at + 4) == at + 4);
    assert(text.subrange(at + 4, (at + 4 + word.len()) as int) =~= word) by {
        assert forall|i: int| 0 <= i < word.len() implies #[trigger] text[at + 4 + i]
            == word[i] by {
            text::lemma_stands_at(text, at + 4, word, i);
        }
    }
    if !maker_is_buyer && wire_format::holds_word(text, at + 4, wire_format::true_word()) {
        assert(text.subrange(at + 4, at + 8)[0] == 0x74);
    }
}

#[verifier::rlimit(60)]
#[verifier::spinoff_prover]
proof fn lemma_trade_tail(
    text: Seq<u8>,
    at: int,
    start: int,
    fields: wire_format::Fields,
    price: u64,
    qty: u64,
    trade_id: u64,
    maker_is_buyer: bool,
)
    requires
        text::stands(text, at, trade_tail(price, qty, trade_id, maker_is_buyer)),
        price <= i64::MAX,
        qty <= i64::MAX,
    ensures
        ({
            let end = (at + trade_tail(price, qty, trade_id, maker_is_buyer).len()) as int;
            let said = wire_format::Fields {
                price: price as i64,
                qty: qty as i64,
                trade_id,
                maker_is_buyer,
                ..fields
            };
            let read = wire_format::members_spec(
                synth::crypto_names(),
                text,
                at,
                start,
                fields,
            );
            &&& read.events == Seq::<Event>::empty()
            &&& read.result == Ok::<(wire_format::Fields, int), feed::FeedError>((said, end))
        }),
{
    let table = synth::crypto_names();
    let number = text::digits(trade_id as nat);
    let price_text = quoted(text::scaled_text(price as nat));
    let qty_text = quoted(text::scaled_text(qty as nat));
    let word = bool_word(maker_is_buyer);
    let brace = seq![0x7du8];
    let m1 = member(0x74, number);
    let m2 = member(0x70, price_text);
    let m3 = member(0x71, qty_text);
    let m4 = member(0x6d, word);
    text::lemma_stands_split(
        text,
        at,
        m1 + comma() + m2 + comma() + m3 + comma() + m4,
        brace,
    );
    text::lemma_stands_split(text, at, m1 + comma() + m2 + comma() + m3 + comma(), m4);
    text::lemma_stands_split(text, at, m1 + comma() + m2 + comma() + m3, comma());
    text::lemma_stands_split(text, at, m1 + comma() + m2 + comma(), m3);
    text::lemma_stands_split(text, at, m1 + comma() + m2, comma());
    text::lemma_stands_split(text, at, m1 + comma(), m2);
    text::lemma_stands_split(text, at, m1, comma());
    let e1 = at + m1.len();
    let p2 = e1 + 1;
    let e2 = p2 + m2.len();
    let p3 = e2 + 1;
    let e3 = p3 + m3.len();
    let p4 = e3 + 1;
    let e4 = p4 + m4.len();
    text::lemma_stands_at(text, e1, comma(), 0);
    text::lemma_stands_at(text, e2, comma(), 0);
    text::lemma_stands_at(text, e3, comma(), 0);
    text::lemma_stands_at(text, e4, brace, 0);
    lemma_id_member(text, at, start, fields, trade_id);
    let s1 = wire_format::Fields { trade_id, ..fields };
    lemma_member_then(table, text, at, start, fields, s1, e1);
    lemma_decimal_member(text, p2, start, s1, 0x70, price);
    let s2 = wire_format::Fields { price: price as i64, ..s1 };
    lemma_member_then(table, text, p2, start, s1, s2, e2);
    lemma_decimal_member(text, p3, start, s2, 0x71, qty);
    let s3 = wire_format::Fields { qty: qty as i64, ..s2 };
    lemma_member_then(table, text, p3, start, s2, s3, e3);
    lemma_maker_member(text, p4, start, s3, maker_is_buyer);
    let s4 = wire_format::Fields { maker_is_buyer, ..s3 };
    lemma_member_last(table, text, p4, start, s3, s4, e4);
    assert(Seq::<Event>::empty() + Seq::<Event>::empty() =~= Seq::<Event>::empty());
}

/// The members of a depth update behind its opening.
pub open spec fn depth_tail(bids: Seq<(u64, u64)>, asks: Seq<(u64, u64)>) -> Seq<u8> {
    member(0x55, text::digits(1)) + comma() + member(0x75, text::digits(2)) + comma() + member(
        0x62,
        bracketed(bids),
    ) + comma() + member(0x61, bracketed(asks)) + seq![0x7du8]
}

/// One side's member is read.
proof fn lemma_side_member(
    text: Seq<u8>,
    at: int,
    start: int,
    fields: wire_format::Fields,
    key: u8,
    symbol: u16,
    levels: Seq<(u64, u64)>,
)
    requires
        text::stands(text, at, member(key, bracketed(levels))),
        key == 0x62 || key == 0x61,
        fields.symbol == Some(symbol),
        forall|i: int|
            #![trigger levels[i]]
            0 <= i < levels.len() ==> levels[i].0 <= i64::MAX && levels[i].1 <= i64::MAX,
    ensures
        ({
            let side = if key == 0x62 {
                Side::Bid
            } else {
                Side::Ask
            };
            let end = (at + member(key, bracketed(levels)).len()) as int;
            let read = wire_format::member_at(synth::crypto_names(), text, at, start, fields);
            &&& read.events == level_meanings(side, symbol, levels)
            &&& read.result == Ok::<(wire_format::Fields, int), feed::FeedError>((fields, end))
        }),
{
    let open = seq![0x5bu8];
    let close = seq![0x5du8];
    let inner = levels_bytes(levels);
    let side = if key == 0x62 {
        Side::Bid
    } else {
        Side::Ask
    };
    lemma_key(synth::crypto_names(), text, at, start, key, bracketed(levels), fields);
    text::lemma_stands_split(text, at + 4, open + inner, close);
    text::lemma_stands_split(text, at + 4, open, inner);
    text::lemma_stands_at(text, at + 4, open, 0);
    let from = at + 5;
    let shut = (from + inner.len()) as int;
    text::lemma_stands_at(text, shut, close, 0);
    assert(wire_format::skip_blanks(text, at + 4) == at + 4);
    // A level or the closing bracket stands first.
    assert(wire_format::skip_blanks(text, from) == from) by {
        if levels.len() == 1 {
            lemma_level(text, from, levels[0]);
        } else if levels.len() > 1 {
            lemma_levels_split(levels, 1);
            assert(levels.take(1) =~= seq![levels[0]]);
            text::lemma_stands_split(
                text,
                from,
                level_bytes(levels[0]) + comma(),
                levels_bytes(levels.skip(1)),
            );
            text::lemma_stands_split(text, from, level_bytes(levels[0]), comma());
            lemma_level(text, from, levels[0]);
        }
    }
    lemma_levels(text, from, side, symbol, levels);
}

/// The two sides of a depth update.
spec fn depth_sides(bids: Seq<(u64, u64)>, asks: Seq<(u64, u64)>) -> Seq<u8> {
    member(0x62, bracketed(bids)) + comma() + member(0x61, bracketed(asks)) + seq![0x7du8]
}

proof fn lemma_depth_sides(
    text: Seq<u8>,
    at: int,
    start: int,
    fields: wire_format::Fields,
    symbol: u16,
    bids: Seq<(u64, u64)>,
    asks: Seq<(u64, u64)>,
)
    requires
        text::stands(text, at, depth_sides(bids, asks)),
        fields.symbol == Some(symbol),
        forall|i: int|
            #![trigger bids[i]]
            0 <= i < bids.len() ==> bids[i].0 <= i64::MAX && bids[i].1 <= i64::MAX,
        forall|i: int|
            #![trigger asks[i]]
            0 <= i < asks.len() ==> asks[i].0 <= i64::MAX && asks[i].1 <= i64::MAX,
    ensures
        ({
            let end = (at + depth_sides(bids, asks).len()) as int;
            let read = wire_format::members_spec(
                synth::crypto_names(),
                text,
                at,
                start,
                fields,
            );
            &&& read.events == level_meanings(Side::Bid, symbol, bids) + level_meanings(
                Side::Ask,
                symbol,
                asks,
            )
            &&& read.result == Ok::<(wire_format::Fields, int), feed::FeedError>((fields, end))
        }),
{
    let table = synth::crypto_names();
    let brace = seq![0x7du8];
    let m1 = member(0x62, bracketed(bids));
    let m2 = member(0x61, bracketed(asks));
    text::lemma_stands_split(text, at, m1 + comma() + m2, brace);
    text::lemma_stands_split(text, at, m1 + comma(), m2);
    text::lemma_stands_split(text, at, m1, comma());
    let e1 = at + m1.len();
    let p2 = e1 + 1;
    let e2 = p2 + m2.len();
    text::lemma_stands_at(text, e1, comma(), 0);
    text::lemma_stands_at(text, e2, brace, 0);
    lemma_side_member(text, at, start, fields, 0x62, symbol, bids);
    lemma_member_then(table, text, at, start, fields, fields, e1);
    lemma_side_member(text, p2, start, fields, 0x61, symbol, asks);
    lemma_member_last(table, text, p2, start, fields, fields, e2);
}

proof fn lemma_depth_tail(
    text: Seq<u8>,
    at: int,
    start: int,
    fields: wire_format::Fields,
    symbol: u16,
    bids: Seq<(u64, u64)>,
    asks: Seq<(u64, u64)>,
)
    requires
        text::stands(text, at, depth_tail(bids, asks)),
        fields.symbol == Some(symbol),
        forall|i: int|
            #![trigger bids[i]]
            0 <= i < bids.len() ==> bids[i].0 <= i64::MAX && bids[i].1 <= i64::MAX,
        forall|i: int|
            #![trigger asks[i]]
            0 <= i < asks.len() ==> asks[i].0 <= i64::MAX && asks[i].1 <= i64::MAX,
    ensures
        ({
            let end = (at + depth_tail(bids, asks).len()) as int;
            let read = wire_format::members_spec(
                synth::crypto_names(),
                text,
                at,
                start,
                fields,
            );
            &&& read.events == level_meanings(Side::Bid, symbol, bids) + level_meanings(
                Side::Ask,
                symbol,
                asks,
            )
            &&& read.result == Ok::<(wire_format::Fields, int), feed::FeedError>((fields, end))
        }),
{
    let table = synth::crypto_names();
    let m1 = member(0x55, text::digits(1));
    let m2 = member(0x75, text::digits(2));
    let sides = depth_sides(bids, asks);
    assert(depth_tail(bids, asks) =~= m1 + comma() + m2 + comma() + sides);
    text::lemma_stands_split(text, at, m1 + comma() + m2 + comma(), sides);
    text::lemma_stands_split(text, at, m1 + comma() + m2, comma());
    text::lemma_stands_split(text, at, m1 + comma(), m2);
    text::lemma_stands_split(text, at, m1, comma());
    let e1 = at + m1.len();
    let p2 = e1 + 1;
    let e2 = p2 + m2.len();
    text::lemma_stands_at(text, e1, comma(), 0);
    text::lemma_stands_at(text, e2, comma(), 0);
    lemma_skipped_member(text, at, start, fields, 0x55, 1);
    lemma_member_then(table, text, at, start, fields, fields, e1);
    lemma_skipped_member(text, p2, start, fields, 0x75, 2);
    lemma_member_then(table, text, p2, start, fields, fields, e2);
    lemma_depth_sides(text, e2 + 1, start, fields, symbol, bids, asks);
    let events = level_meanings(Side::Bid, symbol, bids) + level_meanings(
        Side::Ask,
        symbol,
        asks,
    );
    assert(Seq::<Event>::empty() + events =~= events);
}

/// Whether the wire can carry a message: prices and quantities fit the event
/// that they become.
pub open spec fn carried(message: Message) -> bool {
    match message {
        Message::Trade { symbol, price, qty, .. } => symbol < 3 && price <= i64::MAX && qty
            <= i64::MAX,
        Message::Depth { symbol, bids, asks } => {
            &&& symbol < 3
            &&& forall|i: int|
                #![trigger bids[i]]
                0 <= i < bids.len() ==> bids[i].0 <= i64::MAX && bids[i].1 <= i64::MAX
            &&& forall|i: int|
                #![trigger asks[i]]
                0 <= i < asks.len() ==> asks[i].0 <= i64::MAX && asks[i].1 <= i64::MAX
        },
    }
}

/// The word that names a message's shape.
pub open spec fn shape(message: Message) -> Seq<u8> {
    match message {
        Message::Trade { .. } => wire_format::trade_word(),
        Message::Depth { .. } => depth_word(),
    }
}

pub open spec fn symbol_of(message: Message) -> u16 {
    match message {
        Message::Trade { symbol, .. } => symbol,
        Message::Depth { symbol, .. } => symbol,
    }
}

/// The members behind the opening.
pub open spec fn tail(message: Message) -> Seq<u8> {
    match message {
        Message::Trade { price, qty, trade_id, maker_is_buyer, .. } => trade_tail(
            price,
            qty,
            trade_id,
            maker_is_buyer,
        ),
        Message::Depth { bids, asks, .. } => depth_tail(bids, asks),
    }
}

#[verifier::rlimit(60)]
#[verifier::spinoff_prover]
proof fn lemma_line_parts(message: Message)
    ensures
        line(message) == opening(shape(message), symbol_of(message)) + tail(message) + seq![0x0au8],
{
    reveal(line);
    let front = opening(shape(message), symbol_of(message));
    match message {
        Message::Trade { symbol, price, qty, trade_id, maker_is_buyer } => {
            let m1 = member(0x74, text::digits(trade_id as nat));
            let m2 = member(0x70, quoted(text::scaled_text(price as nat)));
            let m3 = member(0x71, quoted(text::scaled_text(qty as nat)));
            let m4 = member(0x6d, bool_word(maker_is_buyer));
            let inner = m1 + comma() + m2 + comma() + m3 + comma() + m4;
            assert(line(message) =~= front + inner + seq![0x7du8, 0x0au8]);
            assert(line(message) =~= front + (inner + seq![0x7du8]) + seq![0x0au8]);
        },
        Message::Depth { symbol, bids, asks } => {
            let m1 = member(0x55, text::digits(1));
            let m2 = member(0x75, text::digits(2));
            let m3 = member(0x62, bracketed(bids));
            let m4 = member(0x61, bracketed(asks));
            let inner = m1 + comma() + m2 + comma() + m3 + comma() + m4;
            assert(line(message) =~= front + inner + seq![0x7du8, 0x0au8]);
            assert(line(message) =~= front + (inner + seq![0x7du8]) + seq![0x0au8]);
        },
    }
}

proof fn lemma_digits_one_line(n: nat)
    ensures
        one_line(text::digits(n)),
{
    text::lemma_digits(n);
    assert forall|i: int|
        #![trigger text::digits(n)[i]]
        0 <= i < text::digits(n).len() implies text::digits(n)[i] != 0x0a by {
        assert(text::is_digit(text::digits(n)[i]));
    }
}

proof fn lemma_quoted_one_line(s: Seq<u8>)
    requires
        one_line(s),
    ensures
        one_line(quoted(s)),
{
    lemma_one_line_adds(seq![0x22u8], s);
    lemma_one_line_adds(seq![0x22u8] + s, seq![0x22u8]);
}

proof fn lemma_member_one_line(key: u8, value: Seq<u8>)
    requires
        key != 0x0a,
        one_line(value),
    ensures
        one_line(member(key, value)),
{
    lemma_one_line_adds(seq![0x22u8, key, 0x22u8, 0x3au8], value);
}

proof fn lemma_scaled_one_line(value: nat)
    ensures
        one_line(quoted(text::scaled_text(value))),
{
    text::lemma_scaled_text(value);
    lemma_quoted_one_line(text::scaled_text(value));
}

proof fn lemma_level_one_line(level: (u64, u64))
    ensures
        one_line(level_bytes(level)),
{
    let price = quoted(text::scaled_text(level.0 as nat));
    let qty = quoted(text::scaled_text(level.1 as nat));
    lemma_scaled_one_line(level.0 as nat);
    lemma_scaled_one_line(level.1 as nat);
    let open = seq![0x5bu8];
    lemma_one_line_adds(open, price);
    lemma_one_line_adds(open + price, comma());
    lemma_one_line_adds(open + price + comma(), qty);
    lemma_one_line_adds(open + price + comma() + qty, seq![0x5du8]);
}

proof fn lemma_levels_one_line(levels: Seq<(u64, u64)>)
    ensures
        one_line(levels_bytes(levels)),
        one_line(bracketed(levels)),
    decreases levels.len(),
{
    if levels.len() == 1 {
        lemma_level_one_line(levels[0]);
    } else if levels.len() > 1 {
        lemma_levels_one_line(levels.drop_last());
        lemma_level_one_line(levels.last());
        lemma_one_line_adds(levels_bytes(levels.drop_last()), comma());
        lemma_one_line_adds(
            levels_bytes(levels.drop_last()) + comma(),
            level_bytes(levels.last()),
        );
    }
    lemma_one_line_adds(seq![0x5bu8], levels_bytes(levels));
    lemma_one_line_adds(seq![0x5bu8] + levels_bytes(levels), seq![0x5du8]);
}

proof fn lemma_four_members_one_line(m1: Seq<u8>, m2: Seq<u8>, m3: Seq<u8>, m4: Seq<u8>)
    requires
        one_line(m1),
        one_line(m2),
        one_line(m3),
        one_line(m4),
    ensures
        one_line(m1 + comma() + m2 + comma() + m3 + comma() + m4 + seq![0x7du8]),
{
    lemma_one_line_adds(m1, comma());
    lemma_one_line_adds(m1 + comma(), m2);
    lemma_one_line_adds(m1 + comma() + m2, comma());
    lemma_one_line_adds(m1 + comma() + m2 + comma(), m3);
    lemma_one_line_adds(m1 + comma() + m2 + comma() + m3, comma());
    lemma_one_line_adds(m1 + comma() + m2 + comma() + m3 + comma(), m4);
    lemma_one_line_adds(m1 + comma() + m2 + comma() + m3 + comma() + m4, seq![0x7du8]);
}

proof fn lemma_opening_one_line(word: Seq<u8>, symbol: u16)
    requires
        one_line(word),
        symbol < 3,
    ensures
        one_line(opening(word, symbol)),
{
    let name = synth::crypto_names()[symbol as int];
    let brace = seq![0x7bu8];
    let m1 = member(0x65, quoted(word));
    let m2 = member(0x45, event_time());
    let m3 = member(0x73, quoted(name));
    lemma_symbol_index(symbol);
    lemma_quoted_one_line(word);
    lemma_quoted_one_line(name);
    lemma_digits_one_line(1_700_000_000_000);
    lemma_member_one_line(0x65, quoted(word));
    lemma_member_one_line(0x45, event_time());
    lemma_member_one_line(0x73, quoted(name));
    lemma_one_line_adds(brace, m1);
    lemma_one_line_adds(brace + m1, comma());
    lemma_one_line_adds(brace + m1 + comma(), m2);
    lemma_one_line_adds(brace + m1 + comma() + m2, comma());
    lemma_one_line_adds(brace + m1 + comma() + m2 + comma(), m3);
    lemma_one_line_adds(brace + m1 + comma() + m2 + comma() + m3, comma());
}

/// A message holds no newline but the one that ends it.
proof fn lemma_message_one_line(message: Message)
    requires
        carried(message),
    ensures
        one_line(opening(shape(message), symbol_of(message)) + tail(message)),
{
    lemma_opening_one_line(shape(message), symbol_of(message));
    match message {
        Message::Trade { symbol, price, qty, trade_id, maker_is_buyer } => {
            lemma_digits_one_line(trade_id as nat);
            lemma_scaled_one_line(price as nat);
            lemma_scaled_one_line(qty as nat);
            let price_text = quoted(text::scaled_text(price as nat));
            let qty_text = quoted(text::scaled_text(qty as nat));
            lemma_member_one_line(0x74, text::digits(trade_id as nat));
            lemma_member_one_line(0x70, price_text);
            lemma_member_one_line(0x71, qty_text);
            lemma_member_one_line(0x6d, bool_word(maker_is_buyer));
            lemma_four_members_one_line(
                member(0x74, text::digits(trade_id as nat)),
                member(0x70, price_text),
                member(0x71, qty_text),
                member(0x6d, bool_word(maker_is_buyer)),
            );
        },
        Message::Depth { symbol, bids, asks } => {
            lemma_digits_one_line(1);
            lemma_digits_one_line(2);
            lemma_levels_one_line(bids);
            lemma_levels_one_line(asks);
            lemma_member_one_line(0x55, text::digits(1));
            lemma_member_one_line(0x75, text::digits(2));
            lemma_member_one_line(0x62, bracketed(bids));
            lemma_member_one_line(0x61, bracketed(asks));
            lemma_four_members_one_line(
                member(0x55, text::digits(1)),
                member(0x75, text::digits(2)),
                member(0x62, bracketed(bids)),
                member(0x61, bracketed(asks)),
            );
        },
    }
    lemma_one_line_adds(opening(shape(message), symbol_of(message)), tail(message));
}

/// The text of a message, up to its newline, reads back as its meaning.
proof fn lemma_message(text: Seq<u8>, at: int, message: Message)
    requires
        carried(message),
        text::stands(text, at, opening(shape(message), symbol_of(message)) + tail(message)),
    ensures
        wire_format::message_spec(synth::crypto_names(), text, at, at) == (wire_format::Message {
            events: message_meanings(message),
            end: Ok(
                (at + opening(shape(message), symbol_of(message)).len() + tail(
                    message,
                ).len()) as int,
            ),
        }),
{
    let word = shape(message);
    let symbol = symbol_of(message);
    let front = opening(word, symbol);
    let next = (at + front.len()) as int;
    text::lemma_stands_split(text, at, front, tail(message));
    assert(plain(word));
    lemma_opening(text, at, at, word, symbol);
    let fields = opened(word, symbol);
    let read = wire_format::message_spec(synth::crypto_names(), text, at, at);
    match message {
        Message::Trade { price, qty, trade_id, maker_is_buyer, .. } => {
            lemma_trade_tail(text, next, at, fields, price, qty, trade_id, maker_is_buyer);
            assert(read.events =~= message_meanings(message));
        },
        Message::Depth { bids, asks, .. } => {
            lemma_depth_tail(text, next, at, fields, symbol, bids, asks);
            assert(depth_word().len() != wire_format::trade_word().len());
            assert(read.events =~= message_meanings(message));
        },
    }
}

/// One line read off a stream.
pub proof fn lemma_line_read_back(bytes: Seq<u8>, at: int, message: Message)
    requires
        carried(message),
        text::stands(bytes, at, line(message)),
    ensures
        wire_format::lines_spec(synth::crypto_names(), bytes, at) == wire_format::lines_spec(
            synth::crypto_names(),
            bytes,
            (at + line(message).len()) as int,
        ).after(message_meanings(message)),
{
    let inner = opening(shape(message), symbol_of(message)) + tail(message);
    let newline = (at + inner.len()) as int;
    lemma_line_parts(message);
    text::lemma_stands_split(bytes, at, inner, seq![0x0au8]);
    text::lemma_stands_at(bytes, newline, seq![0x0au8], 0);
    lemma_message_one_line(message);
    text::lemma_stands_until(bytes, at, inner, 0x0a);
    let text = bytes.take(newline);
    assert(text::stands(text, at, inner)) by {
        assert(text.subrange(at, newline) =~= bytes.subrange(at, newline));
    }
    lemma_message(text, at, message);
    assert(wire_format::skip_blanks(text, newline) == newline);
}

pub proof fn lemma_lines_adds(a: Seq<Message>, b: Seq<Message>)
    ensures
        lines(a + b) == lines(a) + lines(b),
    decreases b.len(),
{
    if b.len() == 0 {
        assert(a + b =~= a);
        assert(lines(a) + lines(b) =~= lines(a));
    } else {
        lemma_lines_adds(a, b.drop_last());
        assert((a + b).drop_last() =~= a + b.drop_last());
        assert(lines(a + b) =~= lines(a) + lines(b));
    }
}

pub proof fn lemma_meanings_adds(a: Seq<Message>, b: Seq<Message>)
    ensures
        meanings(a + b) == meanings(a) + meanings(b),
    decreases b.len(),
{
    if b.len() == 0 {
        assert(a + b =~= a);
        assert(meanings(a) + meanings(b) =~= meanings(a));
    } else {
        lemma_meanings_adds(a, b.drop_last());
        assert((a + b).drop_last() =~= a + b.drop_last());
        assert(meanings(a + b) =~= meanings(a) + meanings(b));
    }
}

/// Where a line stands in the stream of all of them.
proof fn lemma_line_stands(messages: Seq<Message>, k: int)
    requires
        0 <= k < messages.len(),
    ensures
        ({
            let at = lines(messages.take(k)).len() as int;
            &&& text::stands(lines(messages), at, line(messages[k]))
            &&& lines(messages.take(k + 1)).len() == at + line(messages[k]).len()
        }),
{
    let bytes = lines(messages);
    let more = messages.take(k + 1);
    assert(more.drop_last() =~= messages.take(k));
    assert(more.last() == messages[k]);
    lemma_lines_adds(more, messages.skip(k + 1));
    assert(more + messages.skip(k + 1) =~= messages);
    assert(text::stands(bytes, 0, lines(more) + lines(messages.skip(k + 1)))) by {
        assert(bytes.subrange(0, bytes.len() as int) =~= bytes);
    }
    text::lemma_stands_split(bytes, 0, lines(more), lines(messages.skip(k + 1)));
    text::lemma_stands_split(bytes, 0, lines(messages.take(k)), line(messages[k]));
}

proof fn lemma_meanings_from(messages: Seq<Message>, k: int)
    requires
        0 <= k < messages.len(),
    ensures
        meanings(messages.skip(k)) == message_meanings(messages[k]) + meanings(
            messages.skip(k + 1),
        ),
{
    let one = seq![messages[k]];
    assert(messages.skip(k) =~= one + messages.skip(k + 1));
    lemma_meanings_adds(one, messages.skip(k + 1));
    assert(one.drop_last() =~= Seq::<Message>::empty());
    assert(meanings(one.drop_last()) =~= Seq::empty());
    assert(meanings(one) =~= message_meanings(messages[k]));
}

proof fn lemma_read_from(messages: Seq<Message>, k: int)
    requires
        0 <= k <= messages.len(),
        forall|i: int| #![trigger messages[i]] 0 <= i < messages.len() ==> carried(messages[i]),
        lines(messages).len() <= usize::MAX,
    ensures
        ({
            let bytes = lines(messages);
            let at = lines(messages.take(k)).len() as int;
            let read = wire_format::lines_spec(synth::crypto_names(), bytes, at);
            &&& read.events == meanings(messages.skip(k))
            &&& read.outcome == Ok::<usize, feed::FeedError>(bytes.len() as usize)
        }),
    decreases messages.len() - k,
{
    let bytes = lines(messages);
    let at = lines(messages.take(k)).len() as int;
    if k == messages.len() {
        assert(messages.take(k) =~= messages);
        assert(messages.skip(k) =~= Seq::empty());
        assert(meanings(messages.skip(k)) =~= Seq::empty());
    } else {
        lemma_read_from(messages, k + 1);
        lemma_line_stands(messages, k);
        lemma_line_read_back(bytes, at, messages[k]);
        lemma_meanings_from(messages, k);
    }
}

/// The parser reads back what was written: every byte consumed, every message
/// its events, in order.
pub proof fn lemma_stream_read_back(messages: Seq<Message>)
    requires
        forall|i: int| #![trigger messages[i]] 0 <= i < messages.len() ==> carried(messages[i]),
        lines(messages).len() <= usize::MAX,
    ensures
        ({
            let bytes = lines(messages);
            let read = wire_format::lines_spec(synth::crypto_names(), bytes, 0);
            &&& read.events == meanings(messages)
            &&& read.outcome == Ok::<usize, feed::FeedError>(bytes.len() as usize)
        }),
{
    lemma_read_from(messages, 0);
    assert(messages.take(0) =~= Seq::empty());
    assert(messages.skip(0) =~= messages);
}

proof fn lemma_drawn_levels(rng: u64, count: nat)
    ensures
        forall|i: int|
            #![trigger drawn_levels(rng, count).1[i]]
            0 <= i < drawn_levels(rng, count).1.len() ==> {
                &&& drawn_levels(rng, count).1[i].0 <= i64::MAX
                &&& drawn_levels(rng, count).1[i].1 <= i64::MAX
            },
    decreases count,
{
    if count > 0 {
        lemma_drawn_levels(rng, (count - 1) as nat);
        let (before, levels) = drawn_levels(rng, (count - 1) as nat);
        let last = (drawn_price(before), synth::draw(feed::rng_next(before), 500_000_000));
        assert(drawn_levels(rng, count).1 == levels.push(last));
        assert(synth::draw(before, 4_000_000_000) < 4_000_000_000);
        assert(last.0 <= i64::MAX && last.1 <= i64::MAX);
    }
}

/// Generated messages are within what the wire carries.
pub proof fn lemma_session_carried(rng: u64, count: nat)
    ensures
        forall|i: int|
            #![trigger session(rng, count).1[i]]
            0 <= i < session(rng, count).1.len() ==> carried(session(rng, count).1[i]),
    decreases count,
{
    if count > 0 {
        lemma_session_carried(rng, (count - 1) as nat);
        let state = session(rng, (count - 1) as nat).0;
        let r2 = feed::rng_next(feed::rng_next(state));
        let r3 = feed::rng_next(r2);
        let r4 = feed::rng_next(r3);
        let bids = (1 + synth::draw(r2, 3)) as nat;
        lemma_drawn_levels(r4, bids);
        lemma_drawn_levels(drawn_levels(r4, bids).0, (1 + synth::draw(r3, 3)) as nat);
        assert(carried(drawn_message(state).1));
    }
}

/// The parser reads back every session that the generator writes.
pub proof fn lemma_session_read_back(rng: u64, count: nat)
    requires
        lines(session(rng, count).1).len() <= usize::MAX,
    ensures
        ({
            let messages = session(rng, count).1;
            let bytes = lines(messages);
            let read = wire_format::lines_spec(synth::crypto_names(), bytes, 0);
            &&& read.events == meanings(messages)
            &&& read.outcome == Ok::<usize, feed::FeedError>(bytes.len() as usize)
        }),
{
    lemma_session_carried(rng, count);
    lemma_stream_read_back(session(rng, count).1);
}

// ------------------------------------------------------------- a session cut short

/// How many messages of a stream lie whole in its first `cut` bytes.
pub open spec fn whole_in(messages: Seq<Message>, cut: int) -> int
    decreases messages.len(),
{
    if messages.len() == 0 || lines(messages).len() <= cut {
        messages.len() as int
    } else {
        whole_in(messages.drop_last(), cut)
    }
}

/// Those lie whole in them, and the next one does not.
proof fn lemma_whole_in(messages: Seq<Message>, cut: int)
    requires
        cut >= 0,
    ensures
        ({
            let k = whole_in(messages, cut);
            &&& 0 <= k <= messages.len()
            &&& lines(messages.take(k)).len() <= cut
            &&& k < messages.len() ==> lines(messages.take(k + 1)).len() > cut
        }),
    decreases messages.len(),
{
    assert(messages.take(messages.len() as int) =~= messages);
    if messages.len() > 0 && lines(messages).len() > cut {
        let fewer = messages.drop_last();
        let k = whole_in(fewer, cut);
        lemma_whole_in(fewer, cut);
        assert(fewer.take(k) =~= messages.take(k));
        if k < fewer.len() {
            assert(fewer.take(k + 1) =~= messages.take(k + 1));
        } else {
            assert(messages.take(k + 1) =~= messages);
        }
    }
}

/// A line cut short is a short read.
proof fn lemma_partial(message: Message, cut: int)
    requires
        carried(message),
        0 <= cut < line(message).len(),
    ensures
        wire_format::lines_spec(synth::crypto_names(), line(message).take(cut), 0)
            == feed::Decoding::stop(Ok(0)),
{
    let part = line(message).take(cut);
    let inner = opening(shape(message), symbol_of(message)) + tail(message);
    lemma_line_parts(message);
    lemma_message_one_line(message);
    text::lemma_find_byte(part, 0, 0x0a);
    let newline = text::find_byte(part, 0, 0x0a);
    if newline < part.len() {
        assert(part[newline] == inner[newline]);
    }
}

/// A stream cut anywhere reads as the messages that lie whole before the cut.
pub proof fn lemma_stream_cut(messages: Seq<Message>, cut: int)
    requires
        forall|i: int|
            #![trigger messages[i]]
            0 <= i < messages.len() ==> carried(messages[i]),
        lines(messages).len() <= usize::MAX,
        0 <= cut <= lines(messages).len(),
    ensures
        ({
            let k = whole_in(messages, cut);
            let read = wire_format::lines_spec(synth::crypto_names(), lines(messages).take(cut), 0);
            &&& read.events == meanings(messages.take(k))
            &&& read.outcome == Ok::<usize, feed::FeedError>(
                lines(messages.take(k)).len() as usize,
            )
        }),
{
    let table = synth::crypto_names();
    let k = whole_in(messages, cut);
    let front = messages.take(k);
    let whole = lines(front);
    let part = lines(messages).take(cut);
    lemma_whole_in(messages, cut);
    lemma_lines_adds(front, messages.skip(k));
    assert(front + messages.skip(k) =~= messages);
    assert forall|i: int| #![trigger front[i]] 0 <= i < front.len() implies carried(
        front[i],
    ) by {
        assert(front[i] == messages[i]);
    }
    lemma_stream_read_back(front);
    let rest = part.skip(whole.len() as int);
    assert(part =~= whole + rest);
    assert(wire_format::lines_spec(table, rest, 0) == feed::Decoding::stop(Ok(0))) by {
        if k < messages.len() {
            let more = messages.take(k + 1);
            assert(more.drop_last() =~= front);
            assert(more.last() == messages[k]);
            lemma_lines_adds(more, messages.skip(k + 1));
            assert(more + messages.skip(k + 1) =~= messages);
            assert(rest =~= line(messages[k]).take(rest.len() as int));
            lemma_partial(messages[k], rest.len() as int);
        } else {
            assert(front =~= messages);
            assert(rest =~= Seq::empty());
        }
    }
    wire_format::lemma_resumes(table, whole, rest);
    assert(whole.skip(whole.len() as int) + rest =~= rest);
    let read = wire_format::lines_spec(table, part, 0);
    assert(read.events =~= meanings(front));
}

/// Every prefix of a generated session is a clean short read: the messages that
/// lie whole in it, and nothing else.
pub proof fn lemma_session_cut(rng: u64, count: nat, cut: int)
    requires
        lines(session(rng, count).1).len() <= usize::MAX,
        0 <= cut <= lines(session(rng, count).1).len(),
    ensures
        ({
            let messages = session(rng, count).1;
            let k = whole_in(messages, cut);
            let read = wire_format::lines_spec(synth::crypto_names(), lines(messages).take(cut), 0);
            &&& read.events == meanings(messages.take(k))
            &&& read.outcome == Ok::<usize, feed::FeedError>(
                lines(messages.take(k)).len() as usize,
            )
        }),
{
    lemma_session_carried(rng, count);
    lemma_stream_cut(session(rng, count).1, cut);
}

} // verus!
