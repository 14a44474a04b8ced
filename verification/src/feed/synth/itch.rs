//! Framed ITCH: messages, their bytes, their meaning, and a random session of
//! them.

use vstd::prelude::*;

use crate::feed;
use crate::feed::itch as wire_format;
use crate::feed::synth;
use crate::feed::synth::Generated;
use crate::feed::{Event, Kind, Rng, Side};
use crate::wire;

verus! {

/// One message that moves a book.
#[derive(Clone, Copy, Debug)]
pub enum Message {
    Add { symbol: u16, order: u64, side: Side, shares: u32, price: u32 },
    Execute { symbol: u16, order: u64, shares: u32, match_no: u64 },
    Cancel { symbol: u16, order: u64, shares: u32 },
    Delete { symbol: u16, order: u64 },
    Replace { symbol: u16, order: u64, replacement: u64, shares: u32, price: u32 },
    Trade { symbol: u16, order: u64, side: Side, shares: u32, price: u32, match_no: u64 },
}

// ------------------------------------------------------------------ the encoding

pub open spec fn side_byte(side: Side) -> u8 {
    match side {
        Side::Bid => 0x42,
        Side::Ask => 0x53,
    }
}

/// A stock's name, padded with spaces to eight bytes.
pub open spec fn stock_bytes(symbol: u16) -> Seq<u8> {
    synth::tradfi_names()[symbol as int] + seq![0x20u8, 0x20u8, 0x20u8, 0x20u8]
}

/// Type, locate, tracking and timestamp, and the order reference.
pub open spec fn opening(kind: u8, symbol: u16, order: u64) -> Seq<u8> {
    seq![kind] + wire::be_bytes(symbol as nat, 2) + seq![0u8, 0, 0, 0, 0, 0, 0, 0]
        + wire::be_bytes(order as nat, 8)
}

/// A message's body on the wire.
pub open spec fn body(message: Message) -> Seq<u8> {
    match message {
        Message::Add { symbol, order, side, shares, price } => opening(0x41, symbol, order) + seq![
            side_byte(side),
        ] + wire::be_bytes(shares as nat, 4) + stock_bytes(symbol) + wire::be_bytes(
            price as nat,
            4,
        ),
        Message::Execute { symbol, order, shares, match_no } => opening(0x45, symbol, order)
            + wire::be_bytes(shares as nat, 4) + wire::be_bytes(match_no as nat, 8),
        Message::Cancel { symbol, order, shares } => opening(0x58, symbol, order)
            + wire::be_bytes(shares as nat, 4),
        Message::Delete { symbol, order } => opening(0x44, symbol, order),
        Message::Replace { symbol, order, replacement, shares, price } => opening(
            0x55,
            symbol,
            order,
        ) + wire::be_bytes(replacement as nat, 8) + wire::be_bytes(shares as nat, 4)
            + wire::be_bytes(price as nat, 4),
        Message::Trade { symbol, order, side, shares, price, match_no } => opening(
            0x50,
            symbol,
            order,
        ) + seq![side_byte(side)] + wire::be_bytes(shares as nat, 4) + stock_bytes(symbol)
            + wire::be_bytes(price as nat, 4) + wire::be_bytes(match_no as nat, 8),
    }
}

/// A message on the wire, behind its length.
pub open spec fn framed(message: Message) -> Seq<u8> {
    wire::be_bytes(body(message).len(), 2) + body(message)
}

pub open spec fn framed_all(messages: Seq<Message>) -> Seq<u8>
    decreases messages.len(),
{
    if messages.len() == 0 {
        Seq::empty()
    } else {
        framed_all(messages.drop_last()) + framed(messages.last())
    }
}

/// What a message means.
pub open spec fn meaning(message: Message) -> Event {
    match message {
        Message::Add { symbol, order, side, shares, price } => Event {
            kind: Kind::Add,
            side,
            symbol,
            price: (price * 10_000) as i64,
            qty: (shares * 100_000_000) as i64,
            order_id: order,
            aux: 0,
        },
        Message::Execute { symbol, order, shares, match_no } => Event {
            kind: Kind::Execute,
            symbol,
            qty: (shares * 100_000_000) as i64,
            order_id: order,
            aux: match_no,
            ..feed::zero_event()
        },
        Message::Cancel { symbol, order, shares } => Event {
            kind: Kind::Cancel,
            symbol,
            qty: (shares * 100_000_000) as i64,
            order_id: order,
            ..feed::zero_event()
        },
        Message::Delete { symbol, order } => Event {
            kind: Kind::Delete,
            symbol,
            order_id: order,
            ..feed::zero_event()
        },
        Message::Replace { symbol, order, replacement, shares, price } => Event {
            kind: Kind::Replace,
            symbol,
            price: (price * 10_000) as i64,
            qty: (shares * 100_000_000) as i64,
            order_id: order,
            aux: replacement,
            ..feed::zero_event()
        },
        Message::Trade { symbol, order, side, shares, price, match_no } => Event {
            kind: Kind::Trade,
            side,
            symbol,
            price: (price * 10_000) as i64,
            qty: (shares * 100_000_000) as i64,
            order_id: order,
            aux: match_no,
        },
    }
}

pub open spec fn meanings(messages: Seq<Message>) -> Seq<Event> {
    messages.map_values(|message: Message| meaning(message))
}

pub open spec fn symbol_of(message: Message) -> u16 {
    match message {
        Message::Add { symbol, .. } => symbol,
        Message::Execute { symbol, .. } => symbol,
        Message::Cancel { symbol, .. } => symbol,
        Message::Delete { symbol, .. } => symbol,
        Message::Replace { symbol, .. } => symbol,
        Message::Trade { symbol, .. } => symbol,
    }
}

// ------------------------------------------------------------------- the session

/// Where a random session stands.
#[verifier::ext_equal]
pub struct Market {
    pub rng: u64,
    /// Resting orders and their symbols.
    pub live: Seq<(u64, u16)>,
    pub next_order: nat,
    /// Each symbol's mid price, in raw units of four implied decimals.
    pub mids: Seq<i64>,
}

pub open spec fn opening_market(rng: u64) -> Market {
    Market {
        rng,
        live: Seq::empty(),
        next_order: 1,
        mids: seq![1_250_000i64, 1_250_000i64, 1_250_000i64, 1_250_000i64],
    }
}

pub open spec fn clamped(value: int, least: int, most: int) -> int {
    if value < least {
        least
    } else if value > most {
        most
    } else {
        value
    }
}

/// One step of a mid-price walk.
pub open spec fn walked_mid(mid: i64, rng: u64) -> i64 {
    clamped(mid + (synth::draw(rng, 3) - 1) * 100, 1_000_000, 1_500_000) as i64
}

/// A price near the mid that a walk from `mid` reaches.
pub open spec fn walked_price(mid: i64, rng: u64) -> u32 {
    (walked_mid(mid, rng) + (synth::draw(feed::rng_next(rng), 65) - 32) * 100) as u32
}

pub open spec fn coin(rng: u64) -> Side {
    if synth::draw(rng, 2) == 0 {
        Side::Bid
    } else {
        Side::Ask
    }
}

/// The next message of a session, and the session after it. Weighted like a
/// real one: adds dominate, deletes and executions follow, replaces and prints
/// are the tail.
pub open spec fn next_message(market: Market) -> (Market, Message) {
    let r0 = market.rng;
    let r1 = feed::rng_next(r0);
    let r2 = feed::rng_next(r1);
    let r3 = feed::rng_next(r2);
    let r4 = feed::rng_next(r3);
    let r5 = feed::rng_next(r4);
    let r6 = feed::rng_next(r5);
    let r7 = feed::rng_next(r6);
    let r8 = feed::rng_next(r7);
    let drawn = synth::draw(r0, 4) as u16;
    let roll = synth::draw(r1, 100);
    if roll < 40 || market.live.len() == 0 {
        let mid = market.mids[drawn as int];
        let order = market.next_order as u64;
        (
            Market {
                rng: r6,
                live: market.live.push((order, drawn)),
                next_order: market.next_order + 1,
                mids: market.mids.update(drawn as int, walked_mid(mid, r4)),
            },
            Message::Add {
                symbol: drawn,
                order,
                side: coin(r2),
                shares: (1 + synth::draw(r3, 5_000)) as u32,
                price: walked_price(mid, r4),
            },
        )
    } else {
        let pick = synth::draw(r2, market.live.len() as u64) as int;
        let (order, symbol) = market.live[pick];
        let mid = market.mids[symbol as int];
        if roll < 60 {
            (
                Market { rng: r5, ..market },
                Message::Execute {
                    symbol,
                    order,
                    shares: (1 + synth::draw(r3, 500)) as u32,
                    match_no: feed::rng_mix(r5),
                },
            )
        } else if roll < 75 {
            (
                Market { rng: r4, ..market },
                Message::Cancel { symbol, order, shares: (1 + synth::draw(r3, 500)) as u32 },
            )
        } else if roll < 90 {
            (
                Market {
                    rng: r3,
                    live: market.live.update(pick, market.live.last()).drop_last(),
                    ..market
                },
                Message::Delete { symbol, order },
            )
        } else if roll < 96 {
            let replacement = market.next_order as u64;
            (
                Market {
                    rng: r6,
                    live: market.live.update(pick, (replacement, symbol)),
                    next_order: market.next_order + 1,
                    mids: market.mids.update(symbol as int, walked_mid(mid, r4)),
                },
                Message::Replace {
                    symbol,
                    order,
                    replacement,
                    shares: (1 + synth::draw(r3, 5_000)) as u32,
                    price: walked_price(mid, r4),
                },
            )
        } else {
            (
                Market {
                    rng: r8,
                    mids: market.mids.update(symbol as int, walked_mid(mid, r5)),
                    ..market
                },
                Message::Trade {
                    symbol,
                    order,
                    side: coin(r3),
                    shares: (1 + synth::draw(r4, 500)) as u32,
                    price: walked_price(mid, r5),
                    match_no: feed::rng_mix(r8),
                },
            )
        }
    }
}

/// The session after `count` messages, and the messages.
pub open spec fn session(market: Market, count: nat) -> (Market, Seq<Message>)
    decreases count,
{
    if count == 0 {
        (market, Seq::empty())
    } else {
        let before = session(market, (count - 1) as nat);
        let last = next_message(before.0);
        (last.0, before.1.push(last.1))
    }
}

// ----------------------------------------------------------------- the generator

fn push_all(out: &mut Vec<u8>, bytes: &[u8])
    ensures
        final(out)@ == old(out)@ + bytes@,
{
    out.extend_from_slice(bytes);
    assert(out@ =~= old(out)@ + bytes@);
}

fn push_opening(out: &mut Vec<u8>, kind: u8, symbol: u16, order: u64)
    ensures
        final(out)@ == old(out)@ + opening(kind, symbol, order),
{
    out.push(kind);
    wire::put_be(out, symbol as u64, 2);
    // Tracking and timestamp.
    push_all(out, &[0u8, 0, 0, 0, 0, 0, 0, 0]);
    wire::put_be(out, order, 8);
    assert(out@ =~= old(out)@ + opening(kind, symbol, order));
}

fn push_side(out: &mut Vec<u8>, side: Side)
    ensures
        final(out)@ == old(out)@ + seq![side_byte(side)],
{
    out.push(
        match side {
            Side::Bid => 0x42,
            Side::Ask => 0x53,
        },
    );
    assert(out@ =~= old(out)@ + seq![side_byte(side)]);
}

fn push_stock(out: &mut Vec<u8>, symbol: u16)
    requires
        symbol < 4,
    ensures
        final(out)@ == old(out)@ + stock_bytes(symbol),
{
    let table = synth::tradfi();
    proof {
        assert(feed::names(table@)[symbol as int] == table@[symbol as int]@);
    }
    push_all(out, table[symbol as usize]);
    push_all(out, &[0x20u8, 0x20u8, 0x20u8, 0x20u8]);
    assert(out@ =~= old(out)@ + stock_bytes(symbol));
}

/// A message's body.
fn encode(message: &Message) -> (out: Vec<u8>)
    requires
        symbol_of(*message) < 4,
    ensures
        out@ == body(*message),
        out@.len() <= 44,
{
    let mut out: Vec<u8> = Vec::new();
    match *message {
        Message::Add { symbol, order, side, shares, price } => {
            push_opening(&mut out, 0x41, symbol, order);
            push_side(&mut out, side);
            wire::put_be(&mut out, shares as u64, 4);
            push_stock(&mut out, symbol);
            wire::put_be(&mut out, price as u64, 4);
        },
        Message::Execute { symbol, order, shares, match_no } => {
            push_opening(&mut out, 0x45, symbol, order);
            wire::put_be(&mut out, shares as u64, 4);
            wire::put_be(&mut out, match_no, 8);
        },
        Message::Cancel { symbol, order, shares } => {
            push_opening(&mut out, 0x58, symbol, order);
            wire::put_be(&mut out, shares as u64, 4);
        },
        Message::Delete { symbol, order } => {
            push_opening(&mut out, 0x44, symbol, order);
        },
        Message::Replace { symbol, order, replacement, shares, price } => {
            push_opening(&mut out, 0x55, symbol, order);
            wire::put_be(&mut out, replacement, 8);
            wire::put_be(&mut out, shares as u64, 4);
            wire::put_be(&mut out, price as u64, 4);
        },
        Message::Trade { symbol, order, side, shares, price, match_no } => {
            push_opening(&mut out, 0x50, symbol, order);
            push_side(&mut out, side);
            wire::put_be(&mut out, shares as u64, 4);
            push_stock(&mut out, symbol);
            wire::put_be(&mut out, price as u64, 4);
            wire::put_be(&mut out, match_no, 8);
        },
    }
    proof {
        lemma_body_len(*message);
        assert(out@ =~= body(*message));
    }
    out
}

/// The event that a message stands for.
fn decoded(message: &Message) -> (event: Event)
    ensures
        event == meaning(*message),
{
    let mut event = Event::zeroed();
    match *message {
        Message::Add { symbol, order, side, shares, price } => {
            event.kind = Kind::Add;
            event.symbol = symbol;
            event.order_id = order;
            event.side = side;
            event.qty = shares as i64 * 100_000_000;
            event.price = price as i64 * 10_000;
        },
        Message::Execute { symbol, order, shares, match_no } => {
            event.kind = Kind::Execute;
            event.symbol = symbol;
            event.order_id = order;
            event.qty = shares as i64 * 100_000_000;
            event.aux = match_no;
        },
        Message::Cancel { symbol, order, shares } => {
            event.kind = Kind::Cancel;
            event.symbol = symbol;
            event.order_id = order;
            event.qty = shares as i64 * 100_000_000;
        },
        Message::Delete { symbol, order } => {
            event.kind = Kind::Delete;
            event.symbol = symbol;
            event.order_id = order;
        },
        Message::Replace { symbol, order, replacement, shares, price } => {
            event.kind = Kind::Replace;
            event.symbol = symbol;
            event.order_id = order;
            event.aux = replacement;
            event.qty = shares as i64 * 100_000_000;
            event.price = price as i64 * 10_000;
        },
        Message::Trade { symbol, order, side, shares, price, match_no } => {
            event.kind = Kind::Trade;
            event.symbol = symbol;
            event.order_id = order;
            event.side = side;
            event.qty = shares as i64 * 100_000_000;
            event.price = price as i64 * 10_000;
            event.aux = match_no;
        },
    }
    event
}

/// Bodies have the length of their layout.
pub proof fn lemma_body_len(message: Message)
    requires
        symbol_of(message) < 4,
    ensures
        body(message).len() == match message {
            Message::Add { .. } => 36nat,
            Message::Execute { .. } => 31,
            Message::Cancel { .. } => 23,
            Message::Delete { .. } => 19,
            Message::Replace { .. } => 35,
            Message::Trade { .. } => 44,
        },
        symbol_of(message) < synth::tradfi_names().len(),
        synth::tradfi_names()[symbol_of(message) as int].len() == 4,
{
    assert forall|value: nat| #[trigger]
        wire::be_bytes(value, 2).len() == 2 by {
        wire::lemma_be_bytes_len(value, 2);
    }
    assert forall|value: nat| #[trigger]
        wire::be_bytes(value, 4).len() == 4 by {
        wire::lemma_be_bytes_len(value, 4);
    }
    assert forall|value: nat| #[trigger]
        wire::be_bytes(value, 8).len() == 8 by {
        wire::lemma_be_bytes_len(value, 8);
    }
}

/// Appends a message behind its length.
pub fn push_framed(out: &mut Vec<u8>, message: &Message)
    requires
        symbol_of(*message) < 4,
    ensures
        final(out)@ == old(out)@ + framed(*message),
{
    let body = encode(message);
    wire::put_be(out, body.len() as u64, 2);
    push_all(out, &body);
    assert(out@ =~= old(out)@ + framed(*message));
}

/// Writes a message and what it means.
fn push_message(out: &mut Generated, message: &Message)
    requires
        symbol_of(*message) < 4,
    ensures
        final(out).bytes@ == old(out).bytes@ + framed(*message),
        final(out).events@ == old(out).events@.push(meaning(*message)),
{
    push_framed(&mut out.bytes, message);
    out.events.push(decoded(message));
}

/// One step of a symbol's mid-price walk, and a price near it.
///
/// Real feeds cluster activity at the touch: the mid wanders one tick at a
/// time and orders land within a few dozen ticks of it.
fn walk_price(mid: i64, rng: &mut Rng) -> (walked: (i64, u32))
    requires
        1_000_000 <= mid <= 1_500_000,
    ensures
        walked.0 == walked_mid(mid, old(rng).0),
        walked.1 == walked_price(mid, old(rng).0),
        1_000_000 <= walked.0 <= 1_500_000,
        final(rng).0 == feed::rng_next(feed::rng_next(old(rng).0)),
{
    // One-cent steps in raw units of four implied decimals.
    let moved = mid + (rng.below(3) as i64 - 1) * 100;
    let mid: i64 = if moved < 1_000_000 {
        1_000_000
    } else if moved > 1_500_000 {
        1_500_000
    } else {
        moved
    };
    let offset = (rng.below(65) as i64 - 32) * 100;
    (mid, (mid + offset) as u32)
}

fn flip(rng: &mut Rng) -> (side: Side)
    ensures
        side == coin(old(rng).0),
        final(rng).0 == feed::rng_next(old(rng).0),
{
    if rng.below(2) == 0 {
        Side::Bid
    } else {
        Side::Ask
    }
}

/// A random session of `count` messages.
#[verifier::rlimit(60)]
#[verifier::spinoff_prover]
pub fn itch(count: usize, rng: &mut Rng) -> (out: Generated)
    requires
        count < usize::MAX,
    ensures
        ({
            let (market, messages) = session(opening_market(old(rng).0), count as nat);
            &&& out.bytes@ == framed_all(messages)
            &&& out.events@ == meanings(messages)
            &&& final(rng).0 == market.rng
        }),
{
    let mut out = Generated::default();
    let mut live: Vec<(u64, u16)> = Vec::new();  // order and symbol
    let mut next_order: u64 = 1;
    let mut mids: [i64; 4] = [1_250_000, 1_250_000, 1_250_000, 1_250_000];
    let ghost start = opening_market(rng.0);
    proof {
        assert(mids@ =~= start.mids);
        assert(live@ =~= start.live);
        assert(meanings(Seq::<Message>::empty()) =~= Seq::<Event>::empty());
    }
    let mut i: usize = 0;
    while i < count
        invariant
            i <= count < usize::MAX,
            start == opening_market(old(rng).0),
            ({
                let (market, messages) = session(start, i as nat);
                &&& market.rng == rng.0
                &&& market.live == live@
                &&& market.next_order == next_order
                &&& market.mids == mids@
                &&& out.bytes@ == framed_all(messages)
                &&& out.events@ == meanings(messages)
            }),
            live@.len() <= i,
            1 <= next_order <= i + 1,
            forall|k: int| #![trigger live@[k]] 0 <= k < live@.len() ==> live@[k].1 < 4,
            forall|k: int| #![trigger mids@[k]] 0 <= k < 4 ==> 1_000_000 <= mids@[k] <= 1_500_000,
        decreases count - i,
    {
        let ghost (market, messages) = session(start, i as nat);
        let drawn = rng.below(4) as u16;
        let roll = rng.below(100);
        let message: Message;
        if roll < 40 || live.len() == 0 {
            let order = next_order;
            next_order = next_order + 1;
            let side = flip(rng);
            let shares = 1 + rng.below(5_000) as u32;
            let (mid, price) = walk_price(mids[drawn as usize], rng);
            mids[drawn as usize] = mid;
            live.push((order, drawn));
            message = Message::Add { symbol: drawn, order, side, shares, price };
        } else {
            let pick = rng.below(live.len() as u64) as usize;
            let (order, symbol) = live[pick];
            if roll < 60 {
                let shares = 1 + rng.below(500) as u32;
                let match_no = rng.step();
                message = Message::Execute { symbol, order, shares, match_no };
            } else if roll < 75 {
                let shares = 1 + rng.below(500) as u32;
                message = Message::Cancel { symbol, order, shares };
            } else if roll < 90 {
                live.swap_remove(pick);
                message = Message::Delete { symbol, order };
            } else if roll < 96 {
                let replacement = next_order;
                next_order = next_order + 1;
                live[pick] = (replacement, symbol);
                let shares = 1 + rng.below(5_000) as u32;
                let (mid, price) = walk_price(mids[symbol as usize], rng);
                mids[symbol as usize] = mid;
                message = Message::Replace { symbol, order, replacement, shares, price };
            } else {
                let side = flip(rng);
                let shares = 1 + rng.below(500) as u32;
                let (mid, price) = walk_price(mids[symbol as usize], rng);
                mids[symbol as usize] = mid;
                let match_no = rng.step();
                message = Message::Trade { symbol, order, side, shares, price, match_no };
            }
        }
        assert(message == next_message(market).1);
        push_message(&mut out, &message);
        proof {
            let after = messages.push(message);
            assert(after.drop_last() =~= messages);
            assert(meanings(after) =~= meanings(messages).push(meaning(message)));
            assert(session(start, (i + 1) as nat).1 == after);
        }
        i = i + 1;
    }
    out
}

// ---------------------------------------------------------------- reading it back

/// A number is read back from the middle of a body.
proof fn lemma_number(body: Seq<u8>, before: Seq<u8>, value: nat, n: nat, after: Seq<u8>)
    requires
        body == before + wire::be_bytes(value, n) + after,
        value < wire::pow256(n),
    ensures
        wire_format::number(body, before.len() as int, n as int) == value,
{
    wire::lemma_be_roundtrip(value, n);
    assert(body.subrange(before.len() as int, (before.len() + n) as int) =~= wire::be_bytes(value, n));
}

/// A padded name loses its padding and nothing else.
proof fn lemma_trim_stock(symbol: u16)
    requires
        symbol < 4,
    ensures
        wire_format::trim_end(stock_bytes(symbol)) == synth::tradfi_names()[symbol as int],
        stock_bytes(symbol).len() == 8,
{
    let name = synth::tradfi_names()[symbol as int];
    let s4 = stock_bytes(symbol);
    let s3 = name + seq![0x20u8, 0x20u8, 0x20u8];
    let s2 = name + seq![0x20u8, 0x20u8];
    let s1 = name + seq![0x20u8];
    assert(name.len() == 4 && name.last() != 0x20);
    assert(s4.drop_last() =~= s3 && s4.last() == 0x20);
    assert(s3.drop_last() =~= s2 && s3.last() == 0x20);
    assert(s2.drop_last() =~= s1 && s2.last() == 0x20);
    assert(s1.drop_last() =~= name && s1.last() == 0x20);
    assert(wire_format::trim_end(name) == name);
    assert(wire_format::trim_end(s1) == name);
    assert(wire_format::trim_end(s2) == name);
    assert(wire_format::trim_end(s3) == name);
}

proof fn lemma_opening(body: Seq<u8>, kind: u8, symbol: u16, order: u64, after: Seq<u8>)
    requires
        body == opening(kind, symbol, order) + after,
    ensures
        opening(kind, symbol, order).len() == 19,
        body[0] == kind,
        wire_format::number(body, 1, 2) == symbol,
        wire_format::number(body, 11, 8) == order,
{
    wire::lemma_pow256();
    wire::lemma_be_bytes_len(symbol as nat, 2);
    wire::lemma_be_bytes_len(order as nat, 8);
    let zeros = seq![0u8, 0, 0, 0, 0, 0, 0, 0];
    let head = seq![kind];
    let order_bytes = wire::be_bytes(order as nat, 8);
    assert(body =~= head + wire::be_bytes(symbol as nat, 2) + (zeros + order_bytes + after));
    lemma_number(body, head, symbol as nat, 2, zeros + order_bytes + after);
    let front = head + wire::be_bytes(symbol as nat, 2) + zeros;
    assert(body =~= front + order_bytes + after);
    lemma_number(body, front, order as nat, 8, after);
}

/// A body read back is the message it was written from.
#[verifier::rlimit(60)]
#[verifier::spinoff_prover]
pub proof fn lemma_body_read_back(message: Message, at: int)
    requires
        symbol_of(message) < 4,
    ensures
        wire_format::message_spec(synth::tradfi_names(), body(message), at) == Ok::<
            Option<Event>,
            feed::FeedError,
        >(Some(meaning(message))),
{
    let whole = body(message);
    lemma_body_len(message);
    wire::lemma_pow256();
    match message {
        Message::Add { symbol, order, side, shares, price } => {
            let open = opening(0x41, symbol, order);
            let stock = stock_bytes(symbol);
            let shares_bytes = wire::be_bytes(shares as nat, 4);
            let price_bytes = wire::be_bytes(price as nat, 4);
            wire::lemma_be_bytes_len(shares as nat, 4);
            lemma_trim_stock(symbol);
            assert(whole =~= open + (seq![side_byte(side)] + shares_bytes + stock + price_bytes));
            lemma_opening(
                whole,
                0x41,
                symbol,
                order,
                seq![side_byte(side)] + shares_bytes + stock + price_bytes,
            );
            let front = open + seq![side_byte(side)];
            assert(whole =~= front + shares_bytes + (stock + price_bytes));
            lemma_number(whole, front, shares as nat, 4, stock + price_bytes);
            assert(whole.subrange(24, 32) =~= stock);
            let far = front + shares_bytes + stock;
            assert(whole =~= far + price_bytes + Seq::<u8>::empty());
            lemma_number(whole, far, price as nat, 4, Seq::empty());
            assert(whole[19] == side_byte(side));
        },
        Message::Execute { symbol, order, shares, match_no } => {
            let open = opening(0x45, symbol, order);
            let shares_bytes = wire::be_bytes(shares as nat, 4);
            let match_bytes = wire::be_bytes(match_no as nat, 8);
            wire::lemma_be_bytes_len(shares as nat, 4);
            assert(whole =~= open + (shares_bytes + match_bytes));
            lemma_opening(whole, 0x45, symbol, order, shares_bytes + match_bytes);
            lemma_number(whole, open, shares as nat, 4, match_bytes);
            assert(whole =~= (open + shares_bytes) + match_bytes + Seq::<u8>::empty());
            lemma_number(whole, open + shares_bytes, match_no as nat, 8, Seq::empty());
        },
        Message::Cancel { symbol, order, shares } => {
            let open = opening(0x58, symbol, order);
            let shares_bytes = wire::be_bytes(shares as nat, 4);
            lemma_opening(whole, 0x58, symbol, order, shares_bytes);
            assert(whole =~= open + shares_bytes + Seq::<u8>::empty());
            lemma_number(whole, open, shares as nat, 4, Seq::empty());
        },
        Message::Delete { symbol, order } => {
            assert(whole =~= opening(0x44, symbol, order) + Seq::<u8>::empty());
            lemma_opening(whole, 0x44, symbol, order, Seq::empty());
        },
        Message::Replace { symbol, order, replacement, shares, price } => {
            let open = opening(0x55, symbol, order);
            let new_bytes = wire::be_bytes(replacement as nat, 8);
            let shares_bytes = wire::be_bytes(shares as nat, 4);
            let price_bytes = wire::be_bytes(price as nat, 4);
            wire::lemma_be_bytes_len(replacement as nat, 8);
            wire::lemma_be_bytes_len(shares as nat, 4);
            assert(whole =~= open + (new_bytes + shares_bytes + price_bytes));
            lemma_opening(whole, 0x55, symbol, order, new_bytes + shares_bytes + price_bytes);
            assert(whole =~= open + new_bytes + (shares_bytes + price_bytes));
            lemma_number(whole, open, replacement as nat, 8, shares_bytes + price_bytes);
            lemma_number(whole, open + new_bytes, shares as nat, 4, price_bytes);
            let far = open + new_bytes + shares_bytes;
            assert(whole =~= far + price_bytes + Seq::<u8>::empty());
            lemma_number(whole, far, price as nat, 4, Seq::empty());
        },
        Message::Trade { symbol, order, side, shares, price, match_no } => {
            let open = opening(0x50, symbol, order);
            let stock = stock_bytes(symbol);
            let shares_bytes = wire::be_bytes(shares as nat, 4);
            let price_bytes = wire::be_bytes(price as nat, 4);
            let match_bytes = wire::be_bytes(match_no as nat, 8);
            wire::lemma_be_bytes_len(shares as nat, 4);
            wire::lemma_be_bytes_len(price as nat, 4);
            lemma_trim_stock(symbol);
            let tail = seq![side_byte(side)] + shares_bytes + stock + price_bytes + match_bytes;
            assert(whole =~= open + tail);
            lemma_opening(whole, 0x50, symbol, order, tail);
            let front = open + seq![side_byte(side)];
            assert(whole =~= front + shares_bytes + (stock + price_bytes + match_bytes));
            lemma_number(whole, front, shares as nat, 4, stock + price_bytes + match_bytes);
            let far = front + shares_bytes + stock;
            assert(whole =~= far + price_bytes + match_bytes);
            lemma_number(whole, far, price as nat, 4, match_bytes);
            assert(whole =~= (far + price_bytes) + match_bytes + Seq::<u8>::empty());
            lemma_number(whole, far + price_bytes, match_no as nat, 8, Seq::empty());
            assert(whole[19] == side_byte(side));
            assert(whole.subrange(24, 32) =~= stock);
        },
    }
    assert(wire_format::symbol_known(synth::tradfi_names(), whole));
    assert(wire_format::event_spec(whole) == Some(meaning(message)));
}

/// The stream of two runs of messages is the one stream after the other.
pub proof fn lemma_framed_all_adds(a: Seq<Message>, b: Seq<Message>)
    ensures
        framed_all(a + b) == framed_all(a) + framed_all(b),
    decreases b.len(),
{
    if b.len() == 0 {
        assert(a + b =~= a);
        assert(framed_all(a) + framed_all(b) =~= framed_all(a));
    } else {
        lemma_framed_all_adds(a, b.drop_last());
        assert((a + b).drop_last() =~= a + b.drop_last());
        assert((a + b).last() == b.last());
        assert(framed_all(a + b) =~= framed_all(a) + framed_all(b));
    }
}

/// One message read off a stream.
proof fn lemma_one_frame(bytes: Seq<u8>, front: Seq<u8>, message: Message, rest: Seq<u8>)
    requires
        symbol_of(message) < 4,
        bytes == front + framed(message) + rest,
    ensures
        wire_format::frames_spec(synth::tradfi_names(), bytes, front.len() as int)
            == wire_format::frames_spec(
            synth::tradfi_names(),
            bytes,
            (front.len() + framed(message).len()) as int,
        ).after(seq![meaning(message)]),
        framed(message).len() == 2 + body(message).len(),
{
    let at = front.len() as int;
    let len = body(message).len();
    lemma_body_len(message);
    wire::lemma_pow256();
    wire::lemma_be_roundtrip(len, 2);
    assert(bytes =~= front + wire::be_bytes(len, 2) + (body(message) + rest));
    lemma_number(bytes, front, len, 2, body(message) + rest);
    assert(bytes.subrange(at + 2, at + 2 + len) =~= body(message));
    lemma_body_read_back(message, at);
}

/// The messages of a stream from the `k`th on.
proof fn lemma_read_from(messages: Seq<Message>, k: int)
    requires
        0 <= k <= messages.len(),
        forall|i: int|
            #![trigger messages[i]]
            0 <= i < messages.len() ==> symbol_of(messages[i]) < 4,
        framed_all(messages).len() <= usize::MAX,
    ensures
        ({
            let bytes = framed_all(messages);
            let at = framed_all(messages.take(k)).len() as int;
            let read = wire_format::frames_spec(synth::tradfi_names(), bytes, at);
            &&& 0 <= at <= bytes.len()
            &&& read.events == meanings(messages.skip(k))
            &&& read.outcome == Ok::<usize, feed::FeedError>(bytes.len() as usize)
        }),
    decreases messages.len() - k,
{
    let bytes = framed_all(messages);
    let table = synth::tradfi_names();
    let at = framed_all(messages.take(k)).len() as int;
    lemma_framed_all_adds(messages.take(k), messages.skip(k));
    assert(messages.take(k) + messages.skip(k) =~= messages);
    let read = wire_format::frames_spec(table, bytes, at);
    if k == messages.len() {
        assert(messages.skip(k) =~= Seq::empty());
        assert(read.events =~= meanings(messages.skip(k)));
    } else {
        let message = messages[k];
        lemma_read_from(messages, k + 1);
        assert(messages.take(k + 1) =~= messages.take(k).push(message));
        assert(messages.take(k + 1).drop_last() =~= messages.take(k));
        lemma_framed_all_adds(messages.take(k + 1), messages.skip(k + 1));
        assert(messages.take(k + 1) + messages.skip(k + 1) =~= messages);
        lemma_one_frame(
            bytes,
            framed_all(messages.take(k)),
            message,
            framed_all(messages.skip(k + 1)),
        );
        assert(messages.skip(k) =~= seq![message] + messages.skip(k + 1));
        assert(read.events =~= meanings(messages.skip(k)));
    }
}

/// The parser reads back what was written: every byte consumed, every message
/// its event, in order.
pub proof fn lemma_stream_read_back(messages: Seq<Message>)
    requires
        forall|i: int|
            #![trigger messages[i]]
            0 <= i < messages.len() ==> symbol_of(messages[i]) < 4,
        framed_all(messages).len() <= usize::MAX,
    ensures
        ({
            let bytes = framed_all(messages);
            let read = wire_format::frames_spec(synth::tradfi_names(), bytes, 0);
            &&& read.events == meanings(messages)
            &&& read.outcome == Ok::<usize, feed::FeedError>(bytes.len() as usize)
        }),
{
    lemma_read_from(messages, 0);
    assert(messages.take(0) =~= Seq::empty());
    assert(messages.skip(0) =~= messages);
}

/// A generated session names only symbols of the table.
pub proof fn lemma_session_symbols(market: Market, count: nat)
    requires
        forall|i: int|
            #![trigger market.live[i]]
            0 <= i < market.live.len() ==> market.live[i].1 < 4,
    ensures
        forall|i: int|
            #![trigger session(market, count).1[i]]
            0 <= i < session(market, count).1.len() ==> symbol_of(session(market, count).1[i]) < 4,
        forall|i: int|
            #![trigger session(market, count).0.live[i]]
            0 <= i < session(market, count).0.live.len() ==> session(market, count).0.live[i].1 < 4,
    decreases count,
{
    if count > 0 {
        lemma_session_symbols(market, (count - 1) as nat);
        let (before, messages) = session(market, (count - 1) as nat);
        let (after, message) = next_message(before);
        if before.live.len() > 0 {
            let pick = synth::draw(
                feed::rng_next(feed::rng_next(before.rng)),
                before.live.len() as u64,
            ) as int;
            assert(before.live.last() == before.live[before.live.len() - 1]);
        }
    }
}

/// The parser reads back every session that the generator writes.
pub proof fn lemma_session_read_back(rng: u64, count: nat)
    requires
        framed_all(session(opening_market(rng), count).1).len() <= usize::MAX,
    ensures
        ({
            let messages = session(opening_market(rng), count).1;
            let bytes = framed_all(messages);
            let read = wire_format::frames_spec(synth::tradfi_names(), bytes, 0);
            &&& read.events == meanings(messages)
            &&& read.outcome == Ok::<usize, feed::FeedError>(bytes.len() as usize)
        }),
{
    lemma_session_symbols(opening_market(rng), count);
    lemma_stream_read_back(session(opening_market(rng), count).1);
}

// ------------------------------------------------------------- a session cut short

/// How many messages of a stream lie whole in its first `cut` bytes.
pub open spec fn whole_in(messages: Seq<Message>, cut: int) -> int
    decreases messages.len(),
{
    if messages.len() == 0 || framed_all(messages).len() <= cut {
        messages.len() as int
    } else {
        whole_in(messages.drop_last(), cut)
    }
}

/// Those lie whole in them, and the next one does not.
proof fn lemma_whole_in(messages: Seq<Message>, cut: int)
    requires
        cut >= 0,
    ensures
        ({
            let k = whole_in(messages, cut);
            &&& 0 <= k <= messages.len()
            &&& framed_all(messages.take(k)).len() <= cut
            &&& k < messages.len() ==> framed_all(messages.take(k + 1)).len() > cut
        }),
    decreases messages.len(),
{
    assert(messages.take(messages.len() as int) =~= messages);
    if messages.len() > 0 && framed_all(messages).len() > cut {
        let fewer = messages.drop_last();
        let k = whole_in(fewer, cut);
        lemma_whole_in(fewer, cut);
        assert(fewer.take(k) =~= messages.take(k));
        if k < fewer.len() {
            assert(fewer.take(k + 1) =~= messages.take(k + 1));
        } else {
            assert(messages.take(k + 1) =~= messages);
        }
    }
}

/// A message cut short is a short read.
proof fn lemma_partial(message: Message, cut: int)
    requires
        symbol_of(message) < 4,
        0 <= cut < framed(message).len(),
    ensures
        wire_format::frames_spec(synth::tradfi_names(), framed(message).take(cut), 0)
            == feed::Decoding::stop(Ok(0)),
{
    let bytes = framed(message);
    let part = bytes.take(cut);
    let len = body(message).len();
    lemma_body_len(message);
    wire::lemma_pow256();
    wire::lemma_be_roundtrip(len, 2);
    wire::lemma_be_bytes_len(len, 2);
    if cut >= 2 {
        assert(part.subrange(0, 2) =~= wire::be_bytes(len, 2));
        assert(wire_format::number(part, 0, 2) == len);
    }
}

/// A stream cut anywhere reads as the messages that lie whole before the cut.
pub proof fn lemma_stream_cut(messages: Seq<Message>, cut: int)
    requires
        forall|i: int|
            #![trigger messages[i]]
            0 <= i < messages.len() ==> symbol_of(messages[i]) < 4,
        framed_all(messages).len() <= usize::MAX,
        0 <= cut <= framed_all(messages).len(),
    ensures
        ({
            let k = whole_in(messages, cut);
            let read = wire_format::frames_spec(synth::tradfi_names(), framed_all(messages).take(cut), 0);
            &&& read.events == meanings(messages.take(k))
            &&& read.outcome == Ok::<usize, feed::FeedError>(
                framed_all(messages.take(k)).len() as usize,
            )
        }),
{
    let table = synth::tradfi_names();
    let k = whole_in(messages, cut);
    let front = messages.take(k);
    let whole = framed_all(front);
    let part = framed_all(messages).take(cut);
    lemma_whole_in(messages, cut);
    lemma_framed_all_adds(front, messages.skip(k));
    assert(front + messages.skip(k) =~= messages);
    assert forall|i: int| #![trigger front[i]] 0 <= i < front.len() implies symbol_of(
        front[i],
    ) < 4 by {
        assert(front[i] == messages[i]);
    }
    lemma_stream_read_back(front);
    let rest = part.skip(whole.len() as int);
    assert(part =~= whole + rest);
    assert(wire_format::frames_spec(table, rest, 0) == feed::Decoding::stop(Ok(0))) by {
        if k < messages.len() {
            let more = messages.take(k + 1);
            assert(more.drop_last() =~= front);
            assert(more.last() == messages[k]);
            lemma_framed_all_adds(more, messages.skip(k + 1));
            assert(more + messages.skip(k + 1) =~= messages);
            assert(rest =~= framed(messages[k]).take(rest.len() as int));
            lemma_partial(messages[k], rest.len() as int);
        } else {
            assert(front =~= messages);
            assert(rest =~= Seq::empty());
        }
    }
    wire_format::lemma_resumes(table, whole, rest);
    assert(whole.skip(whole.len() as int) + rest =~= rest);
    let read = wire_format::frames_spec(table, part, 0);
    assert(read.events =~= meanings(front));
}

/// Every prefix of a generated session is a clean short read: the messages that
/// lie whole in it, and nothing else.
pub proof fn lemma_session_cut(rng: u64, count: nat, cut: int)
    requires
        framed_all(session(opening_market(rng), count).1).len() <= usize::MAX,
        0 <= cut <= framed_all(session(opening_market(rng), count).1).len(),
    ensures
        ({
            let messages = session(opening_market(rng), count).1;
            let k = whole_in(messages, cut);
            let read = wire_format::frames_spec(synth::tradfi_names(), framed_all(messages).take(cut), 0);
            &&& read.events == meanings(messages.take(k))
            &&& read.outcome == Ok::<usize, feed::FeedError>(
                framed_all(messages.take(k)).len() as usize,
            )
        }),
{
    lemma_session_symbols(opening_market(rng), count);
    lemma_stream_cut(session(opening_market(rng), count).1, cut);
}

} // verus!
