//! FIX market data: reports, their bytes, their meaning, and a random session
//! of them.

use vstd::prelude::*;

use crate::feed;
use crate::feed::fix as wire_format;
use crate::feed::synth;
use crate::feed::synth::Generated;
use crate::feed::text;
use crate::feed::{Event, Kind, Rng, Side};

verus! {

/// One entry of a report.
#[derive(Clone, Copy, Debug)]
pub struct Quote {
    pub is_trade: bool,
    pub side: Side,
    /// Price in cents.
    pub cents: u64,
    /// Whole units.
    pub qty: u64,
}

/// One incremental refresh message.
#[verifier::ext_equal]
pub struct Report {
    pub sequence: nat,
    pub symbol: u16,
    pub quotes: Seq<Quote>,
}

// ------------------------------------------------------------------ the encoding

/// `tag=value` and its end.
pub open spec fn field(tag: nat, value: Seq<u8>) -> Seq<u8> {
    text::digits(tag) + seq![0x3du8] + value + seq![0x01u8]
}

pub open spec fn type_bytes(quote: Quote) -> Seq<u8> {
    if quote.is_trade {
        seq![0x32u8]
    } else if quote.side is Bid {
        seq![0x30u8]
    } else {
        seq![0x31u8]
    }
}

/// Dollars and cents.
pub open spec fn price_bytes(cents: nat) -> Seq<u8> {
    text::digits(cents / 100) + seq![0x2eu8] + text::padded(cents % 100, 2)
}

pub open spec fn quote_bytes(quote: Quote) -> Seq<u8> {
    field(269, type_bytes(quote)) + field(270, price_bytes(quote.cents as nat)) + field(
        271,
        text::digits(quote.qty as nat),
    )
}

pub open spec fn quotes_bytes(quotes: Seq<Quote>) -> Seq<u8>
    decreases quotes.len(),
{
    if quotes.len() == 0 {
        Seq::empty()
    } else {
        quotes_bytes(quotes.drop_last()) + quote_bytes(quotes.last())
    }
}

/// `X`.
pub open spec fn refresh_type() -> Seq<u8> {
    seq![0x58u8]
}

/// `VENUE`.
pub open spec fn sender() -> Seq<u8> {
    seq![0x56u8, 0x45u8, 0x4eu8, 0x55u8, 0x45u8]
}

/// `HANDLER`.
pub open spec fn target() -> Seq<u8> {
    seq![0x48u8, 0x41u8, 0x4eu8, 0x44u8, 0x4cu8, 0x45u8, 0x52u8]
}

/// `FIX.4.4`.
pub open spec fn version() -> Seq<u8> {
    seq![0x46u8, 0x49u8, 0x58u8, 0x2eu8, 0x34u8, 0x2eu8, 0x34u8]
}

/// The fields before the entries.
pub open spec fn preamble(sequence: nat, symbol: u16, entries: nat) -> Seq<u8> {
    field(35, refresh_type()) + field(49, sender()) + field(56, target()) + field(
        34,
        text::digits(sequence),
    ) + field(55, synth::tradfi_names()[symbol as int]) + field(268, text::digits(entries))
}

pub open spec fn body(report: Report) -> Seq<u8> {
    preamble(report.sequence, report.symbol, report.quotes.len()) + quotes_bytes(report.quotes)
}

/// A message up to its trailer.
pub open spec fn headed(body: Seq<u8>) -> Seq<u8> {
    field(8, version()) + field(9, text::digits(body.len())) + body
}

/// A message on the wire.
#[verifier::opaque]
pub open spec fn framed(report: Report) -> Seq<u8> {
    let front = headed(body(report));
    front + field(10, text::padded(wire_format::byte_sum(front) % 256, 3))
}

pub open spec fn framed_all(reports: Seq<Report>) -> Seq<u8>
    decreases reports.len(),
{
    if reports.len() == 0 {
        Seq::empty()
    } else {
        framed_all(reports.drop_last()) + framed(reports.last())
    }
}

/// What an entry means.
pub open spec fn meaning(symbol: u16, quote: Quote) -> Event {
    Event {
        kind: if quote.is_trade {
            Kind::Trade
        } else {
            Kind::Level
        },
        side: if quote.is_trade {
            Side::Bid
        } else {
            quote.side
        },
        symbol,
        price: (quote.cents * 1_000_000) as i64,
        qty: (quote.qty * 100_000_000) as i64,
        order_id: 0,
        aux: 0,
    }
}

pub open spec fn report_meanings(report: Report) -> Seq<Event> {
    report.quotes.map_values(|quote: Quote| meaning(report.symbol, quote))
}

pub open spec fn meanings(reports: Seq<Report>) -> Seq<Event>
    decreases reports.len(),
{
    if reports.len() == 0 {
        Seq::empty()
    } else {
        meanings(reports.drop_last()) + report_meanings(reports.last())
    }
}

// ------------------------------------------------------------------- the session

/// A random entry; four draws.
pub open spec fn drawn_quote(rng: u64) -> Quote {
    let r1 = feed::rng_next(rng);
    let r2 = feed::rng_next(r1);
    let r3 = feed::rng_next(r2);
    Quote {
        is_trade: synth::draw(rng, 5) == 0,
        side: if synth::draw(r1, 2) == 0 {
            Side::Bid
        } else {
            Side::Ask
        },
        cents: (10_000 + synth::draw(r2, 90_000)) as u64,
        qty: (1 + synth::draw(r3, 9_999)) as u64,
    }
}

/// The generator's state after four draws.
pub open spec fn after_quote(rng: u64) -> u64 {
    feed::rng_next(feed::rng_next(feed::rng_next(feed::rng_next(rng))))
}

/// Random entries, and the generator's state after them.
pub open spec fn drawn_quotes(rng: u64, count: nat) -> (u64, Seq<Quote>)
    decreases count,
{
    if count == 0 {
        (rng, Seq::empty())
    } else {
        let before = drawn_quotes(rng, (count - 1) as nat);
        (after_quote(before.0), before.1.push(drawn_quote(before.0)))
    }
}

/// A random report, and the generator's state after it.
pub open spec fn drawn_report(rng: u64, sequence: nat) -> (u64, Report) {
    let r1 = feed::rng_next(rng);
    let r2 = feed::rng_next(r1);
    let entries = 1 + synth::draw(r1, 3) as nat;
    let drawn = drawn_quotes(r2, entries);
    (drawn.0, Report { sequence, symbol: synth::draw(rng, 4) as u16, quotes: drawn.1 })
}

/// The generator's state after `count` reports, and the reports.
pub open spec fn session(rng: u64, count: nat) -> (u64, Seq<Report>)
    decreases count,
{
    if count == 0 {
        (rng, Seq::empty())
    } else {
        let before = session(rng, (count - 1) as nat);
        let last = drawn_report(before.0, count);
        (last.0, before.1.push(last.1))
    }
}

// ----------------------------------------------------------------- the generator

fn push_fix(out: &mut Vec<u8>, tag: u32, value: &[u8])
    ensures
        final(out)@ == old(out)@ + field(tag as nat, value@),
{
    text::put_digits(out, tag as u64);
    out.push(0x3d);
    out.extend_from_slice(value);
    out.push(0x01);
    assert(out@ =~= old(out)@ + field(tag as nat, value@));
}

fn push_fix_number(out: &mut Vec<u8>, tag: u32, value: u64)
    ensures
        final(out)@ == old(out)@ + field(tag as nat, text::digits(value as nat)),
{
    let mut digits: Vec<u8> = Vec::new();
    text::put_digits(&mut digits, value);
    assert(digits@ =~= text::digits(value as nat));
    push_fix(out, tag, &digits);
}

fn push_quote(out: &mut Vec<u8>, quote: &Quote)
    ensures
        final(out)@ == old(out)@ + quote_bytes(*quote),
{
    let kind: u8 = if quote.is_trade {
        0x32
    } else {
        match quote.side {
            Side::Bid => 0x30,
            Side::Ask => 0x31,
        }
    };
    push_fix(out, 269, &[kind]);
    let mut price: Vec<u8> = Vec::new();
    text::put_digits(&mut price, quote.cents / 100);
    price.push(0x2e);
    text::put_padded(&mut price, quote.cents % 100, 2);
    assert(price@ =~= price_bytes(quote.cents as nat));
    push_fix(out, 270, &price);
    push_fix_number(out, 271, quote.qty);
    assert(seq![kind] =~= type_bytes(*quote));
    assert(out@ =~= old(out)@ + quote_bytes(*quote));
}

fn draw_quote(rng: &mut Rng) -> (quote: Quote)
    ensures
        quote == drawn_quote(old(rng).0),
        final(rng).0 == after_quote(old(rng).0),
        10_000 <= quote.cents < 100_000,
        1 <= quote.qty < 10_000,
{
    let is_trade = rng.below(5) == 0;
    let side = if rng.below(2) == 0 {
        Side::Bid
    } else {
        Side::Ask
    };
    let cents = 10_000 + rng.below(90_000);
    let qty = 1 + rng.below(9_999);
    Quote { is_trade, side, cents, qty }
}

fn decoded(symbol: u16, quote: &Quote) -> (event: Event)
    requires
        quote.cents < 100_000,
        quote.qty < 10_000,
    ensures
        event == meaning(symbol, *quote),
{
    Event {
        kind: if quote.is_trade {
            Kind::Trade
        } else {
            Kind::Level
        },
        side: if quote.is_trade {
            Side::Bid
        } else {
            quote.side
        },
        symbol,
        price: quote.cents as i64 * 1_000_000,
        qty: quote.qty as i64 * 100_000_000,
        order_id: 0,
        aux: 0,
    }
}

fn sum_bytes(bytes: &[u8]) -> (sum: u64)
    ensures
        sum == wire_format::byte_sum(bytes@) % 256,
{
    let mut sum: u64 = 0;
    let mut i: usize = 0;
    assert(bytes@.take(0) =~= Seq::empty());
    while i < bytes.len()
        invariant
            i <= bytes@.len(),
            sum < 256,
            sum == wire_format::byte_sum(bytes@.take(i as int)) % 256,
        decreases bytes@.len() - i,
    {
        assert(bytes@.take(i + 1).drop_last() =~= bytes@.take(i as int));
        sum = (sum + bytes[i] as u64) % 256;
        i = i + 1;
    }
    assert(bytes@.take(i as int) =~= bytes@);
    sum
}

/// Frames a body: version, length, body, checksum.
fn push_framed(out: &mut Vec<u8>, body: &[u8])
    ensures
        ({
            let front = headed(body@);
            final(out)@ == old(out)@ + front + field(
                10,
                text::padded(wire_format::byte_sum(front) % 256, 3),
            )
        }),
{
    let mut message: Vec<u8> = Vec::new();
    push_fix(&mut message, 8, &[0x46u8, 0x49u8, 0x58u8, 0x2eu8, 0x34u8, 0x2eu8, 0x34u8]);
    push_fix_number(&mut message, 9, body.len() as u64);
    message.extend_from_slice(body);
    assert(message@ =~= headed(body@));
    let sum = sum_bytes(&message);
    let mut claimed: Vec<u8> = Vec::new();
    text::put_padded(&mut claimed, sum, 3);
    assert(claimed@ =~= text::padded(sum as nat, 3));
    push_fix(&mut message, 10, &claimed);
    out.extend_from_slice(&message);
    assert(out@ =~= old(out)@ + headed(body@) + field(10, claimed@));
}

/// A random session of `count` reports.
pub fn fix(count: usize, rng: &mut Rng) -> (out: Generated)
    requires
        count < usize::MAX,
    ensures
        ({
            let (state, reports) = session(old(rng).0, count as nat);
            &&& out.bytes@ == framed_all(reports)
            &&& out.events@ == meanings(reports)
            &&& final(rng).0 == state
        }),
{
    let mut out = Generated::default();
    let table = synth::tradfi();
    let mut sequence: usize = 0;
    while sequence < count
        invariant
            sequence <= count < usize::MAX,
            feed::names(table@) == synth::tradfi_names(),
            table@.len() == 4,
            ({
                let (state, reports) = session(old(rng).0, sequence as nat);
                &&& out.bytes@ == framed_all(reports)
                &&& out.events@ == meanings(reports)
                &&& rng.0 == state
            }),
        decreases count - sequence,
    {
        let ghost (before, reports) = session(old(rng).0, sequence as nat);
        let symbol = rng.below(4) as u16;
        let entries = 1 + rng.below(3);
        let mut body: Vec<u8> = Vec::new();
        assert(feed::names(table@)[symbol as int] == table@[symbol as int]@);
        push_fix(&mut body, 35, &[0x58u8]);
        push_fix(&mut body, 49, &[0x56u8, 0x45u8, 0x4eu8, 0x55u8, 0x45u8]);
        push_fix(&mut body, 56, &[0x48u8, 0x41u8, 0x4eu8, 0x44u8, 0x4cu8, 0x45u8, 0x52u8]);
        push_fix_number(&mut body, 34, sequence as u64 + 1);
        push_fix(&mut body, 55, table[symbol as usize]);
        push_fix_number(&mut body, 268, entries);
        let ghost opening = preamble((sequence + 1) as nat, symbol, entries as nat);
        assert(body@ =~= opening);
        let ghost start = rng.0;
        let ghost held = out.events@;
        let mut i: u64 = 0;
        assert(held + Seq::<Quote>::empty().map_values(|quote: Quote| meaning(symbol, quote))
            =~= held);
        while i < entries
            invariant
                i <= entries,
                rng.0 == drawn_quotes(start, i as nat).0,
                body@ == opening + quotes_bytes(drawn_quotes(start, i as nat).1),
                drawn_quotes(start, i as nat).1.len() == i,
                out.events@ == held + drawn_quotes(start, i as nat).1.map_values(
                    |quote: Quote| meaning(symbol, quote),
                ),
                out.bytes@ == framed_all(reports),
            decreases entries - i,
        {
            let ghost quotes = drawn_quotes(start, i as nat).1;
            let quote = draw_quote(rng);
            push_quote(&mut body, &quote);
            out.events.push(decoded(symbol, &quote));
            proof {
                assert(quotes.push(quote).drop_last() =~= quotes);
                assert(body@ =~= opening + quotes_bytes(quotes.push(quote)));
                assert(out.events@ =~= held + quotes.push(quote).map_values(
                    |quote: Quote| meaning(symbol, quote),
                ));
            }
            i = i + 1;
        }
        let ghost report = Report {
            sequence: (sequence + 1) as nat,
            symbol,
            quotes: drawn_quotes(start, entries as nat).1,
        };
        push_framed(&mut out.bytes, &body);
        proof {
            let after = reports.push(report);
            reveal(framed);
            assert(report == drawn_report(before, (sequence + 1) as nat).1);
            assert(after.drop_last() =~= reports);
            assert(session(old(rng).0, (sequence + 1) as nat).1 == after);
            assert(out.bytes@ =~= framed_all(after));
            assert(out.events@ =~= meanings(after));
        }
        sequence = sequence + 1;
    }
    out
}

// ---------------------------------------------------------------- reading it back

/// Whether the wire can carry a report: prices and sizes fit the event that
/// they become.
pub open spec fn carried(report: Report) -> bool {
    &&& report.symbol < 4
    &&& forall|i: int|
        #![trigger report.quotes[i]]
        0 <= i < report.quotes.len() ==> {
            &&& report.quotes[i].cents * 1_000_000 <= i64::MAX
            &&& report.quotes[i].qty * 100_000_000 <= i64::MAX
        }
    &&& body(report).len() < 1_000_000_000_000_000_000
}

/// No field ends inside a value.
pub open spec fn unbroken(value: Seq<u8>) -> bool {
    forall|i: int| #![trigger value[i]] 0 <= i < value.len() ==> value[i] != 0x01
}

proof fn lemma_field_pair(bytes: Seq<u8>, at: int, tag: nat, value: Seq<u8>)
    requires
        text::stands(bytes, at, field(tag, value)),
        tag < 1_000_000_000,
        unbroken(value),
    ensures
        wire_format::pair_spec(bytes, at) == (wire_format::Pair::Field {
            tag,
            value,
            next: (at + field(tag, value).len()) as int,
        }),
{
    let number = text::digits(tag);
    text::lemma_digits(tag);
    assert(text::ten_to(9) == 1_000_000_000) by {
        reveal_with_fuel(text::ten_to, 10);
    }
    assert(number.len() <= 9);
    let equals = at + number.len();
    text::lemma_stands_split(bytes, at, number + seq![0x3du8] + value, seq![0x01u8]);
    text::lemma_stands_split(bytes, at, number + seq![0x3du8], value);
    text::lemma_stands_split(bytes, at, number, seq![0x3du8]);
    text::lemma_stands_at(bytes, equals, seq![0x3du8], 0);
    text::lemma_stands_at(bytes, equals + 1 + value.len(), seq![0x01u8], 0);
    text::lemma_stands_digits(bytes, at, tag);
    text::lemma_stands_until(bytes, equals + 1, value, 0x01);
}

/// One field of a body, read.
proof fn lemma_body_field(
    bytes: Seq<u8>,
    at: int,
    end: int,
    start: int,
    said: wire_format::Body,
    tag: nat,
    value: Seq<u8>,
)
    requires
        text::stands(bytes, at, field(tag, value)),
        tag < 1_000_000_000,
        unbroken(value),
        at < end,
    ensures
        ({
            let table = synth::tradfi_names();
            let next = (at + field(tag, value).len()) as int;
            let read = wire_format::body_spec(table, bytes, at, end, start, said);
            let taken = wire_format::field_spec(table, said, tag, value, start);
            taken.result matches Ok(then) ==> {
                let rest = wire_format::body_spec(table, bytes, next, end, start, then);
                &&& read.events == taken.events + rest.events
                &&& read.result == rest.result
            }
        }),
        forall|market: bool|
            #![trigger wire_format::market_spec(bytes, at, end, market)]
            wire_format::market_spec(bytes, at, end, market) == wire_format::market_spec(
                bytes,
                (at + field(tag, value).len()) as int,
                end,
                if tag == 35 {
                    wire_format::is_market(value)
                } else {
                    market
                },
            ),
{
    lemma_field_pair(bytes, at, tag, value);
}

/// A field that says nothing about the entries.
proof fn lemma_ignored_field(
    bytes: Seq<u8>,
    at: int,
    end: int,
    start: int,
    said: wire_format::Body,
    tag: nat,
    value: Seq<u8>,
)
    requires
        text::stands(bytes, at, field(tag, value)),
        tag < 1_000_000_000,
        tag != 35 && tag != 55 && tag != 269 && tag != 270 && tag != 271,
        unbroken(value),
        at < end,
    ensures
        ({
            let table = synth::tradfi_names();
            let next = (at + field(tag, value).len()) as int;
            wire_format::body_spec(table, bytes, at, end, start, said) == wire_format::body_spec(
                table,
                bytes,
                next,
                end,
                start,
                said,
            )
        }),
        forall|market: bool|
            #![trigger wire_format::market_spec(bytes, at, end, market)]
            wire_format::market_spec(bytes, at, end, market) == wire_format::market_spec(
                bytes,
                (at + field(tag, value).len()) as int,
                end,
                market,
            ),
{
    let table = synth::tradfi_names();
    let next = (at + field(tag, value).len()) as int;
    lemma_body_field(bytes, at, end, start, said, tag, value);
    let read = wire_format::body_spec(table, bytes, at, end, start, said);
    let rest = wire_format::body_spec(table, bytes, next, end, start, said);
    assert(read.events =~= rest.events);
    assert(read =~= rest);
}

proof fn lemma_digits_unbroken(n: nat)
    ensures
        unbroken(text::digits(n)),
{
    text::lemma_digits(n);
    assert forall|i: int|
        #![trigger text::digits(n)[i]]
        0 <= i < text::digits(n).len() implies text::digits(n)[i] != 0x01 by {
        assert(text::is_digit(text::digits(n)[i]));
    }
}

/// Every name of the table is found where it stands.
proof fn lemma_symbol_index(symbol: u16)
    requires
        symbol < 4,
    ensures
        feed::symbol_index(
            synth::tradfi_names(),
            synth::tradfi_names()[symbol as int],
        ) == Some(symbol),
        unbroken(synth::tradfi_names()[symbol as int]),
{
    let table = synth::tradfi_names();
    let name = table[symbol as int];
    table.index_of_first_ensures(name);
    assert(table.contains(name)) by {
        assert(table[symbol as int] == name);
    }
    assert(synth::AAPL@[0] == 0x41 && synth::MSFT@[0] == 0x4d && synth::NVDA@[0] == 0x4e
        && synth::TSLA@[0] == 0x54);
    let found = table.index_of_first(name)->0;
    assert(table[found][0] == name[0]);
}

proof fn lemma_preamble(
    bytes: Seq<u8>,
    at: int,
    end: int,
    start: int,
    sequence: nat,
    symbol: u16,
    entries: nat,
)
    requires
        symbol < 4,
        text::stands(bytes, at, preamble(sequence, symbol, entries)),
        at + preamble(sequence, symbol, entries).len() <= end,
    ensures
        ({
            let table = synth::tradfi_names();
            let next = (at + preamble(sequence, symbol, entries).len()) as int;
            let empty = wire_format::empty_body(true);
            &&& wire_format::body_spec(table, bytes, at, end, start, empty)
                == wire_format::body_spec(
                table,
                bytes,
                next,
                end,
                start,
                (wire_format::Body { symbol: Some(symbol), ..empty }),
            )
            &&& wire_format::market_spec(bytes, at, end, false) == wire_format::market_spec(
                bytes,
                next,
                end,
                true,
            )
        }),
{
    let table = synth::tradfi_names();
    let empty = wire_format::empty_body(true);
    let f1 = field(35, refresh_type());
    let f2 = field(49, sender());
    let f3 = field(56, target());
    let f4 = field(34, text::digits(sequence));
    let f5 = field(55, table[symbol as int]);
    let f6 = field(268, text::digits(entries));
    text::lemma_stands_split(bytes, at, f1 + f2 + f3 + f4 + f5, f6);
    text::lemma_stands_split(bytes, at, f1 + f2 + f3 + f4, f5);
    text::lemma_stands_split(bytes, at, f1 + f2 + f3, f4);
    text::lemma_stands_split(bytes, at, f1 + f2, f3);
    text::lemma_stands_split(bytes, at, f1, f2);
    lemma_digits_unbroken(sequence);
    lemma_digits_unbroken(entries);
    lemma_symbol_index(symbol);
    let p2 = at + f1.len();
    let p3 = p2 + f2.len();
    let p4 = p3 + f3.len();
    let p5 = p4 + f4.len();
    let p6 = p5 + f5.len();
    lemma_body_field(bytes, at, end, start, empty, 35, refresh_type());
    let opened = wire_format::Body { other: false, ..empty };
    let first = wire_format::body_spec(table, bytes, at, end, start, empty);
    let second = wire_format::body_spec(table, bytes, p2, end, start, opened);
    assert(first.events =~= second.events);
    assert(first =~= second);
    lemma_ignored_field(bytes, p2, end, start, opened, 49, sender());
    lemma_ignored_field(bytes, p3, end, start, opened, 56, target());
    lemma_ignored_field(bytes, p4, end, start, opened, 34, text::digits(sequence));
    lemma_body_field(bytes, p5, end, start, opened, 55, table[symbol as int]);
    let named = wire_format::Body { symbol: Some(symbol), ..opened };
    let read = wire_format::body_spec(table, bytes, p5, end, start, opened);
    let rest = wire_format::body_spec(table, bytes, p6, end, start, named);
    assert(read.events =~= rest.events);
    assert(read =~= rest);
    lemma_ignored_field(bytes, p6, end, start, named, 268, text::digits(entries));
}

proof fn lemma_price(cents: nat)
    requires
        cents * 1_000_000 <= i64::MAX,
    ensures
        wire_format::decimal_spec(price_bytes(cents)) == Some((cents * 1_000_000) as i64),
        unbroken(price_bytes(cents)),
{
    let value = price_bytes(cents);
    let whole = text::digits(cents / 100);
    let frac = text::padded(cents % 100, 2);
    text::lemma_digits(cents / 100);
    assert(text::ten_to(2) == 100) by {
        reveal_with_fuel(text::ten_to, 3);
    }
    assert(text::ten_to(6) == 1_000_000) by {
        reveal_with_fuel(text::ten_to, 7);
    }
    assert(text::ten_to(18) == 1_000_000_000_000_000_000) by {
        reveal_with_fuel(text::ten_to, 19);
    }
    text::lemma_padded(cents % 100, 2);
    assert forall|i: int| 0 <= i < whole.len() implies value[i] != text::DOT && value[i]
        != 0x01 by {
        assert(value[i] == whole[i]);
        assert(text::is_digit(whole[i]));
    }
    text::lemma_find_byte_is(value, 0, text::DOT, whole.len() as int);
    assert(text::whole_part(value) =~= whole);
    assert(text::fraction_part(value) =~= frac);
    assert((cents % 100) * text::ten_to(6) == (cents % 100) * 1_000_000) by (nonlinear_arith)
        requires
            text::ten_to(6) == 1_000_000,
    ;
    assert(text::all_digits(whole) && text::all_digits(frac));
    assert((text::PLACES - frac.len()) as nat == 6);
    assert(text::decimal_value(frac) * text::ten_to((text::PLACES - frac.len()) as nat) == (cents
        % 100) * 1_000_000);
    assert((cents / 100) * 100_000_000 + (cents % 100) * 1_000_000 == cents * 1_000_000);
    assert(text::fixed_point(value) == Some((cents * 1_000_000) as nat));
    assert forall|i: int| #![trigger value[i]] 0 <= i < value.len() implies value[i] != 0x01 by {
        if i > whole.len() {
            assert(value[i] == frac[i - whole.len() - 1]);
            assert(text::is_digit(frac[i - whole.len() - 1]));
        }
    }
}

proof fn lemma_quantity(qty: nat)
    requires
        qty * 100_000_000 <= i64::MAX,
    ensures
        wire_format::decimal_spec(text::digits(qty)) == Some((qty * 100_000_000) as i64),
{
    let value = text::digits(qty);
    text::lemma_digits(qty);
    assert(text::ten_to(18) == 1_000_000_000_000_000_000) by {
        reveal_with_fuel(text::ten_to, 19);
    }
    assert forall|i: int| 0 <= i < value.len() implies value[i] != text::DOT by {
        assert(text::is_digit(value[i]));
    }
    text::lemma_find_byte_is(value, 0, text::DOT, value.len() as int);
    assert(text::whole_part(value) =~= value);
    assert(text::fraction_part(value) =~= Seq::empty());
    assert(text::decimal_value(Seq::<u8>::empty()) == 0);
    assert(0 * text::ten_to(8) == 0) by (nonlinear_arith);
}

/// The entry that the next 269, or the end, will emit.
spec fn waiting(said: wire_format::Body, symbol: u16) -> Seq<Event> {
    if said.open {
        seq![Event { symbol, ..said.entry }]
    } else {
        Seq::empty()
    }
}

/// What a body has said once an entry is filled in.
spec fn filled(symbol: u16, mark: u16, quote: Quote) -> wire_format::Body {
    wire_format::Body {
        market: true,
        other: false,
        symbol: Some(symbol),
        entry: Event { symbol: mark, ..meaning(symbol, quote) },
        open: true,
    }
}

proof fn lemma_quote(
    bytes: Seq<u8>,
    at: int,
    end: int,
    start: int,
    said: wire_format::Body,
    symbol: u16,
    quote: Quote,
)
    requires
        text::stands(bytes, at, quote_bytes(quote)),
        at + quote_bytes(quote).len() <= end,
        quote.cents * 1_000_000 <= i64::MAX,
        quote.qty * 100_000_000 <= i64::MAX,
        said.market,
        !said.other,
        said.symbol == Some(symbol),
        said.entry.order_id == 0,
        said.entry.aux == 0,
    ensures
        ({
            let table = synth::tradfi_names();
            let next = (at + quote_bytes(quote).len()) as int;
            let mark = if said.open {
                symbol
            } else {
                said.entry.symbol
            };
            let read = wire_format::body_spec(table, bytes, at, end, start, said);
            let rest = wire_format::body_spec(
                table,
                bytes,
                next,
                end,
                start,
                filled(symbol, mark, quote),
            );
            &&& read.events == waiting(said, symbol) + rest.events
            &&& read.result == rest.result
            &&& wire_format::market_spec(bytes, at, end, true) == wire_format::market_spec(
                bytes,
                next,
                end,
                true,
            )
        }),
{
    let table = synth::tradfi_names();
    let mark = if said.open {
        symbol
    } else {
        said.entry.symbol
    };
    let kind = type_bytes(quote);
    let price = price_bytes(quote.cents as nat);
    let qty = text::digits(quote.qty as nat);
    let f1 = field(269, kind);
    let f2 = field(270, price);
    let f3 = field(271, qty);
    text::lemma_stands_split(bytes, at, f1 + f2, f3);
    text::lemma_stands_split(bytes, at, f1, f2);
    lemma_price(quote.cents as nat);
    lemma_quantity(quote.qty as nat);
    lemma_digits_unbroken(quote.qty as nat);
    let p2 = at + f1.len();
    let p3 = p2 + f2.len();
    let p4 = p3 + f3.len();
    let taken = wire_format::field_spec(table, said, 269, kind, start);
    assert(taken.result is Ok);
    assert(taken.events =~= waiting(said, symbol));
    let s1 = taken.result->Ok_0;
    lemma_body_field(bytes, at, end, start, said, 269, kind);
    let s2 = wire_format::Body {
        entry: Event { price: (quote.cents * 1_000_000) as i64, ..s1.entry },
        ..s1
    };
    lemma_body_field(bytes, p2, end, start, s1, 270, price);
    let s3 = wire_format::Body {
        entry: Event { qty: (quote.qty * 100_000_000) as i64, ..s2.entry },
        ..s2
    };
    lemma_body_field(bytes, p3, end, start, s2, 271, qty);
    assert(s3 == filled(symbol, mark, quote));
    let rest = wire_format::body_spec(table, bytes, p4, end, start, s3);
    let r2 = wire_format::body_spec(table, bytes, p2, end, start, s1);
    let r3 = wire_format::body_spec(table, bytes, p3, end, start, s2);
    assert(r3.events =~= rest.events);
    assert(r2.events =~= rest.events);
}

pub proof fn lemma_quotes_bytes_adds(a: Seq<Quote>, b: Seq<Quote>)
    ensures
        quotes_bytes(a + b) == quotes_bytes(a) + quotes_bytes(b),
    decreases b.len(),
{
    if b.len() == 0 {
        assert(a + b =~= a);
        assert(quotes_bytes(a) + quotes_bytes(b) =~= quotes_bytes(a));
    } else {
        lemma_quotes_bytes_adds(a, b.drop_last());
        assert((a + b).drop_last() =~= a + b.drop_last());
        assert(quotes_bytes(a + b) =~= quotes_bytes(a) + quotes_bytes(b));
    }
}

/// The entries of a body from the `k`th on.
#[verifier::rlimit(60)]
#[verifier::spinoff_prover]
proof fn lemma_quotes(
    bytes: Seq<u8>,
    at: int,
    start: int,
    said: wire_format::Body,
    report: Report,
    k: int,
)
    requires
        carried(report),
        text::stands(bytes, at, quotes_bytes(report.quotes)),
        0 <= k <= report.quotes.len(),
        said.market,
        !said.other,
        said.symbol == Some(report.symbol),
        said.entry.order_id == 0,
        said.entry.aux == 0,
    ensures
        ({
            let table = synth::tradfi_names();
            let end = (at + quotes_bytes(report.quotes).len()) as int;
            let here = (at + quotes_bytes(report.quotes.take(k)).len()) as int;
            let read = wire_format::body_spec(table, bytes, here, end, start, said);
            &&& read.events == waiting(said, report.symbol) + report_meanings(report).skip(k)
            &&& read.result is Ok
            &&& wire_format::market_spec(bytes, here, end, true)
        }),
    decreases report.quotes.len() - k,
{
    let table = synth::tradfi_names();
    let quotes = report.quotes;
    let end = (at + quotes_bytes(quotes).len()) as int;
    let here = (at + quotes_bytes(quotes.take(k)).len()) as int;
    let read = wire_format::body_spec(table, bytes, here, end, start, said);
    if k == quotes.len() {
        assert(quotes.take(k) =~= quotes);
        assert(report_meanings(report).skip(k) =~= Seq::empty());
        assert(read.events =~= waiting(said, report.symbol) + report_meanings(report).skip(k));
    } else {
        let quote = quotes[k];
        let mark = if said.open {
            report.symbol
        } else {
            said.entry.symbol
        };
        let first = quotes.take(k);
        let more = quotes.take(k + 1);
        assert(more.drop_last() =~= first);
        lemma_quotes_bytes_adds(more, quotes.skip(k + 1));
        assert(more + quotes.skip(k + 1) =~= quotes);
        text::lemma_stands_split(bytes, at, quotes_bytes(more), quotes_bytes(quotes.skip(k + 1)));
        text::lemma_stands_split(bytes, at, quotes_bytes(first), quote_bytes(quote));
        lemma_quote(bytes, here, end, start, said, report.symbol, quote);
        lemma_quotes(bytes, at, start, filled(report.symbol, mark, quote), report, k + 1);
        assert(report_meanings(report).skip(k) =~= seq![meaning(report.symbol, quote)]
            + report_meanings(report).skip(k + 1));
        assert(waiting(filled(report.symbol, mark, quote), report.symbol) =~= seq![
            meaning(report.symbol, quote),
        ]);
        assert(read.events =~= waiting(said, report.symbol) + report_meanings(report).skip(k));
    }
}

/// A checksum field: `10=`, three digits and its end.
proof fn lemma_trailer(sum: nat)
    requires
        sum < 256,
    ensures
        ({
            let trailer = field(10, text::padded(sum, 3));
            &&& trailer.len() == 7
            &&& trailer[0] == 0x31
            &&& trailer[1] == 0x30
            &&& trailer[2] == 0x3d
            &&& trailer[6] == 0x01
            &&& trailer.subrange(3, 6) == text::padded(sum, 3)
            &&& wire_format::integer_spec(text::padded(sum, 3)) == Some(sum)
        }),
{
    let trailer = field(10, text::padded(sum, 3));
    text::lemma_padded(sum, 3);
    assert(text::ten_to(3) == 1_000) by {
        reveal_with_fuel(text::ten_to, 4);
    }
    assert(text::digits(1) =~= seq![0x31u8]);
    assert(text::digits(10) =~= seq![0x31u8, 0x30u8]);
    assert(trailer.subrange(3, 6) =~= text::padded(sum, 3));
}

/// A framed report is recognised, and its body found.
#[verifier::rlimit(60)]
#[verifier::spinoff_prover]
proof fn lemma_frame_read(bytes: Seq<u8>, at: int, report: Report)
    requires
        carried(report),
        text::stands(bytes, at, framed(report)),
    ensures
        ({
            let inside = (at + field(8, version()).len() + field(
                9,
                text::digits(body(report).len()),
            ).len()) as int;
            let end = (at + framed(report).len()) as int;
            &&& wire_format::frame_spec(bytes, at) == (wire_format::Frame::Whole {
                body: inside,
                end,
            })
            &&& text::stands(bytes, inside, body(report))
            &&& inside + body(report).len() + 7 == end
        }),
{
    reveal(wire_format::frame_spec);
    reveal(framed);
    let inner = body(report);
    let f8 = field(8, version());
    let f9 = field(9, text::digits(inner.len()));
    let front = headed(inner);
    let sum = wire_format::byte_sum(front) % 256;
    let trailer = field(10, text::padded(sum, 3));
    let claimed = (at + front.len()) as int;
    text::lemma_stands_split(bytes, at, front, trailer);
    text::lemma_stands_split(bytes, at, f8 + f9, inner);
    text::lemma_stands_split(bytes, at, f8, f9);
    lemma_digits_unbroken(inner.len());
    lemma_field_pair(bytes, at, 8, version());
    lemma_field_pair(bytes, (at + f8.len()) as int, 9, text::digits(inner.len()));
    text::lemma_digits(inner.len());
    assert(text::ten_to(18) == 1_000_000_000_000_000_000) by {
        reveal_with_fuel(text::ten_to, 19);
    }
    lemma_trailer(sum);
    text::lemma_stands_at(bytes, claimed, trailer, 0);
    text::lemma_stands_at(bytes, claimed, trailer, 1);
    text::lemma_stands_at(bytes, claimed, trailer, 2);
    text::lemma_stands_at(bytes, claimed, trailer, 6);
    assert(bytes.subrange(claimed + 3, claimed + 6) =~= trailer.subrange(3, 6)) by {
        text::lemma_stands_at(bytes, claimed, trailer, 3);
        text::lemma_stands_at(bytes, claimed, trailer, 4);
        text::lemma_stands_at(bytes, claimed, trailer, 5);
    }
    assert(bytes.subrange(at, claimed) =~= front);
}

/// One report read off a stream.
pub proof fn lemma_report_read_back(bytes: Seq<u8>, at: int, report: Report)
    requires
        carried(report),
        text::stands(bytes, at, framed(report)),
    ensures
        wire_format::messages_spec(synth::tradfi_names(), bytes, at) == wire_format::messages_spec(
            synth::tradfi_names(),
            bytes,
            (at + framed(report).len()) as int,
        ).after(report_meanings(report)),
{
    let table = synth::tradfi_names();
    let inner = body(report);
    let inside = (at + field(8, version()).len() + field(
        9,
        text::digits(inner.len()),
    ).len()) as int;
    let end = (at + framed(report).len()) as int;
    lemma_frame_read(bytes, at, report);
    let opening = preamble(report.sequence, report.symbol, report.quotes.len());
    text::lemma_stands_split(bytes, inside, opening, quotes_bytes(report.quotes));
    lemma_preamble(
        bytes,
        inside,
        end - 7,
        at,
        report.sequence,
        report.symbol,
        report.quotes.len(),
    );
    let named = wire_format::Body {
        symbol: Some(report.symbol),
        ..wire_format::empty_body(true)
    };
    assert(report.quotes.take(0) =~= Seq::empty());
    lemma_quotes(bytes, (inside + opening.len()) as int, at, named, report, 0);
    let entries = wire_format::message_spec(table, bytes, inside, end - 7, at);
    assert(report_meanings(report).skip(0) =~= report_meanings(report));
    assert(entries.events =~= report_meanings(report));
}

pub proof fn lemma_framed_all_adds(a: Seq<Report>, b: Seq<Report>)
    ensures
        framed_all(a + b) == framed_all(a) + framed_all(b),
    decreases b.len(),
{
    if b.len() == 0 {
        assert(a + b =~= a);
        assert(framed_all(a) + framed_all(b) =~= framed_all(a));
    } else {
        lemma_framed_all_adds(a, b.drop_last());
        assert((a + b).drop_last() =~= a + b.drop_last());
        assert(framed_all(a + b) =~= framed_all(a) + framed_all(b));
    }
}

pub proof fn lemma_meanings_adds(a: Seq<Report>, b: Seq<Report>)
    ensures
        meanings(a + b) == meanings(a) + meanings(b),
    decreases b.len(),
{
    if b.len() == 0 {
        assert(a + b =~= a);
        assert(meanings(a) + meanings(b) =~= meanings(a));
    } else {
        lemma_meanings_adds(a, b.drop_last());
        assert((a + b).drop_last() =~= a + b.drop_last());
        assert(meanings(a + b) =~= meanings(a) + meanings(b));
    }
}

/// Where a report stands in the stream of all of them.
proof fn lemma_report_stands(reports: Seq<Report>, k: int)
    requires
        0 <= k < reports.len(),
    ensures
        ({
            let at = framed_all(reports.take(k)).len() as int;
            &&& text::stands(framed_all(reports), at, framed(reports[k]))
            &&& framed_all(reports.take(k + 1)).len() == at + framed(reports[k]).len()
            &&& at + framed(reports[k]).len() <= framed_all(reports).len()
        }),
{
    let bytes = framed_all(reports);
    let more = reports.take(k + 1);
    assert(more.drop_last() =~= reports.take(k));
    assert(more.last() == reports[k]);
    lemma_framed_all_adds(more, reports.skip(k + 1));
    assert(more + reports.skip(k + 1) =~= reports);
    assert(text::stands(bytes, 0, framed_all(more) + framed_all(reports.skip(k + 1)))) by {
        assert(bytes.subrange(0, bytes.len() as int) =~= bytes);
    }
    text::lemma_stands_split(bytes, 0, framed_all(more), framed_all(reports.skip(k + 1)));
    text::lemma_stands_split(bytes, 0, framed_all(reports.take(k)), framed(reports[k]));
}

/// The meanings of the reports from the `k`th on.
proof fn lemma_meanings_from(reports: Seq<Report>, k: int)
    requires
        0 <= k < reports.len(),
    ensures
        meanings(reports.skip(k)) == report_meanings(reports[k]) + meanings(reports.skip(k + 1)),
{
    let one = seq![reports[k]];
    assert(reports.skip(k) =~= one + reports.skip(k + 1));
    lemma_meanings_adds(one, reports.skip(k + 1));
    assert(one.drop_last() =~= Seq::<Report>::empty());
    assert(meanings(one.drop_last()) =~= Seq::empty());
    assert(meanings(one) =~= report_meanings(reports[k]));
}

proof fn lemma_read_from(reports: Seq<Report>, k: int)
    requires
        0 <= k <= reports.len(),
        forall|i: int| #![trigger reports[i]] 0 <= i < reports.len() ==> carried(reports[i]),
        framed_all(reports).len() <= usize::MAX,
    ensures
        ({
            let bytes = framed_all(reports);
            let at = framed_all(reports.take(k)).len() as int;
            let read = wire_format::messages_spec(synth::tradfi_names(), bytes, at);
            &&& read.events == meanings(reports.skip(k))
            &&& read.outcome == Ok::<usize, feed::FeedError>(bytes.len() as usize)
        }),
    decreases reports.len() - k,
{
    let bytes = framed_all(reports);
    let at = framed_all(reports.take(k)).len() as int;
    if k == reports.len() {
        assert(reports.take(k) =~= reports);
        assert(reports.skip(k) =~= Seq::empty());
        assert(meanings(reports.skip(k)) =~= Seq::empty());
    } else {
        lemma_read_from(reports, k + 1);
        lemma_report_stands(reports, k);
        lemma_report_read_back(bytes, at, reports[k]);
        lemma_meanings_from(reports, k);
    }
}

/// The parser reads back what was written: every byte consumed, every entry its
/// event, in order.
pub proof fn lemma_stream_read_back(reports: Seq<Report>)
    requires
        forall|i: int| #![trigger reports[i]] 0 <= i < reports.len() ==> carried(reports[i]),
        framed_all(reports).len() <= usize::MAX,
    ensures
        ({
            let bytes = framed_all(reports);
            let read = wire_format::messages_spec(synth::tradfi_names(), bytes, 0);
            &&& read.events == meanings(reports)
            &&& read.outcome == Ok::<usize, feed::FeedError>(bytes.len() as usize)
        }),
{
    lemma_read_from(reports, 0);
    assert(reports.take(0) =~= Seq::empty());
    assert(reports.skip(0) =~= reports);
}

proof fn lemma_field_len(tag: nat, value: Seq<u8>)
    requires
        tag < 1_000,
    ensures
        field(tag, value).len() <= 5 + value.len(),
{
    text::lemma_digits(tag);
    assert(text::ten_to(3) == 1_000) by {
        reveal_with_fuel(text::ten_to, 4);
    }
}

proof fn lemma_number_len(n: nat)
    requires
        n <= u64::MAX,
    ensures
        text::digits(n).len() <= 20,
{
    text::lemma_digits(n);
    assert(text::ten_to(20) == 100_000_000_000_000_000_000) by {
        reveal_with_fuel(text::ten_to, 21);
    }
}

proof fn lemma_quotes_len(quotes: Seq<Quote>)
    ensures
        quotes_bytes(quotes).len() <= 70 * quotes.len(),
    decreases quotes.len(),
{
    if quotes.len() > 0 {
        lemma_quotes_len(quotes.drop_last());
        let quote = quotes.last();
        lemma_field_len(269, type_bytes(quote));
        lemma_number_len(quote.cents as nat / 100);
        text::lemma_padded(quote.cents as nat % 100, 2);
        lemma_field_len(270, price_bytes(quote.cents as nat));
        lemma_number_len(quote.qty as nat);
        lemma_field_len(271, text::digits(quote.qty as nat));
    }
}

proof fn lemma_drawn_quotes(rng: u64, count: nat)
    ensures
        drawn_quotes(rng, count).1.len() == count,
        forall|i: int|
            #![trigger drawn_quotes(rng, count).1[i]]
            0 <= i < count ==> {
                &&& drawn_quotes(rng, count).1[i].cents < 100_000
                &&& drawn_quotes(rng, count).1[i].qty < 10_000
            },
    decreases count,
{
    if count > 0 {
        lemma_drawn_quotes(rng, (count - 1) as nat);
    }
}

/// Generated reports are within what the wire carries.
pub proof fn lemma_session_carried(rng: u64, count: nat)
    requires
        count <= u64::MAX,
    ensures
        forall|i: int|
            #![trigger session(rng, count).1[i]]
            0 <= i < session(rng, count).1.len() ==> carried(session(rng, count).1[i]),
    decreases count,
{
    if count > 0 {
        lemma_session_carried(rng, (count - 1) as nat);
        let (state, reports) = session(rng, (count - 1) as nat);
        let (_, report) = drawn_report(state, count);
        let r1 = feed::rng_next(state);
        let entries = 1 + synth::draw(r1, 3) as nat;
        lemma_drawn_quotes(feed::rng_next(r1), entries);
        lemma_quotes_len(report.quotes);
        lemma_field_len(35, refresh_type());
        lemma_field_len(49, sender());
        lemma_field_len(56, target());
        lemma_number_len(count);
        lemma_field_len(34, text::digits(count));
        assert(report.symbol < 4);
        assert(synth::tradfi_names()[report.symbol as int].len() == 4);
        lemma_field_len(55, synth::tradfi_names()[report.symbol as int]);
        lemma_number_len(entries);
        lemma_field_len(268, text::digits(entries));
        assert(carried(report));
    }
}

/// The parser reads back every session that the generator writes.
pub proof fn lemma_session_read_back(rng: u64, count: nat)
    requires
        count <= u64::MAX,
        framed_all(session(rng, count).1).len() <= usize::MAX,
    ensures
        ({
            let reports = session(rng, count).1;
            let bytes = framed_all(reports);
            let read = wire_format::messages_spec(synth::tradfi_names(), bytes, 0);
            &&& read.events == meanings(reports)
            &&& read.outcome == Ok::<usize, feed::FeedError>(bytes.len() as usize)
        }),
{
    lemma_session_carried(rng, count);
    lemma_stream_read_back(session(rng, count).1);
}

// ---------------------------------------------------------------- under corruption

/// Whole fields, with no `10=` among them.
spec fn clear(s: Seq<u8>) -> bool {
    &&& s.len() > 0 ==> s.last() == 0x01
    &&& forall|t: int|
        #![trigger wire_format::claims_at(s, t)]
        0 <= t && t + 3 <= s.len() ==> !wire_format::claims_at(s, t)
}

proof fn lemma_clear_adds(a: Seq<u8>, b: Seq<u8>)
    requires
        clear(a),
        clear(b),
    ensures
        clear(a + b),
{
    let s = a + b;
    assert forall|t: int| #![trigger wire_format::claims_at(s, t)] 0 <= t && t + 3
        <= s.len() implies !wire_format::claims_at(s, t) by {
        if t + 3 <= a.len() {
            assert(!wire_format::claims_at(a, t));
        } else if t >= a.len() {
            assert(!wire_format::claims_at(b, t - a.len()));
        } else {
            assert(a.last() == s[a.len() - 1]);
        }
    }
    if b.len() > 0 {
        assert(s.last() == b.last());
    } else {
        assert(s =~= a);
    }
}

spec fn no_equals(value: Seq<u8>) -> bool {
    forall|i: int| #![trigger value[i]] 0 <= i < value.len() ==> value[i] != 0x3d
}

proof fn lemma_field_clear(tag: nat, value: Seq<u8>)
    requires
        tag % 100 != 10,
        no_equals(value),
    ensures
        clear(field(tag, value)),
{
    let s = field(tag, value);
    let digits = text::digits(tag);
    let d = digits.len() as int;
    text::lemma_digits(tag);
    assert(digits.last() == 0x30 + tag % 10);
    if tag >= 10 {
        text::lemma_digits(tag / 10);
        assert(digits[d - 2] == text::digits(tag / 10).last());
        assert(text::digits(tag / 10).last() == 0x30 + (tag / 10) % 10);
    }
    assert forall|t: int| #![trigger wire_format::claims_at(s, t)] 0 <= t && t + 3
        <= s.len() implies !wire_format::claims_at(s, t) by {
        if s[t + 2] == 0x3d {
            if t + 2 < d {
                assert(s[t + 2] == digits[t + 2]);
                assert(text::is_digit(digits[t + 2]));
            } else if t + 2 > d {
                if t + 2 < s.len() - 1 {
                    assert(s[t + 2] == value[t + 2 - d - 1]);
                }
            } else {
                assert(s[t] == digits[d - 2] && s[t + 1] == digits[d - 1]);
                assert(tag >= 10) by {
                    if tag < 10 {
                        assert(d == 1);
                    }
                }
            }
        }
    }
}

proof fn lemma_digits_no_equals(n: nat)
    ensures
        no_equals(text::digits(n)),
{
    text::lemma_digits(n);
    assert forall|i: int|
        #![trigger text::digits(n)[i]]
        0 <= i < text::digits(n).len() implies text::digits(n)[i] != 0x3d by {
        assert(text::is_digit(text::digits(n)[i]));
    }
}

proof fn lemma_quote_clear(quote: Quote)
    ensures
        clear(quote_bytes(quote)),
{
    let price = price_bytes(quote.cents as nat);
    let whole = text::digits((quote.cents / 100) as nat);
    let frac = text::padded((quote.cents % 100) as nat, 2);
    lemma_digits_no_equals((quote.cents / 100) as nat);
    lemma_digits_no_equals(quote.qty as nat);
    text::lemma_padded((quote.cents % 100) as nat, 2);
    assert forall|i: int| #![trigger price[i]] 0 <= i < price.len() implies price[i] != 0x3d by {
        if i < whole.len() {
            assert(price[i] == whole[i]);
        } else if i > whole.len() {
            assert(price[i] == frac[i - whole.len() - 1]);
            assert(text::is_digit(frac[i - whole.len() - 1]));
        }
    }
    lemma_field_clear(269, type_bytes(quote));
    lemma_field_clear(270, price);
    lemma_field_clear(271, text::digits(quote.qty as nat));
    lemma_clear_adds(field(269, type_bytes(quote)), field(270, price));
    lemma_clear_adds(
        field(269, type_bytes(quote)) + field(270, price),
        field(271, text::digits(quote.qty as nat)),
    );
}

proof fn lemma_quotes_clear(quotes: Seq<Quote>)
    ensures
        clear(quotes_bytes(quotes)),
    decreases quotes.len(),
{
    if quotes.len() > 0 {
        lemma_quotes_clear(quotes.drop_last());
        lemma_quote_clear(quotes.last());
        lemma_clear_adds(quotes_bytes(quotes.drop_last()), quote_bytes(quotes.last()));
    }
}

proof fn lemma_headed_clear(report: Report)
    requires
        report.symbol < 4,
    ensures
        clear(headed(body(report))),
{
    let f1 = field(35, refresh_type());
    let f2 = field(49, sender());
    let f3 = field(56, target());
    let f4 = field(34, text::digits(report.sequence));
    let f5 = field(55, synth::tradfi_names()[report.symbol as int]);
    let f6 = field(268, text::digits(report.quotes.len()));
    let inner = body(report);
    let f8 = field(8, version());
    let f9 = field(9, text::digits(inner.len()));
    lemma_digits_no_equals(report.sequence);
    lemma_digits_no_equals(report.quotes.len());
    lemma_digits_no_equals(inner.len());
    lemma_field_clear(35, refresh_type());
    lemma_field_clear(49, sender());
    lemma_field_clear(56, target());
    lemma_field_clear(34, text::digits(report.sequence));
    lemma_field_clear(55, synth::tradfi_names()[report.symbol as int]);
    lemma_field_clear(268, text::digits(report.quotes.len()));
    lemma_field_clear(8, version());
    lemma_field_clear(9, text::digits(inner.len()));
    lemma_quotes_clear(report.quotes);
    lemma_clear_adds(f1, f2);
    lemma_clear_adds(f1 + f2, f3);
    lemma_clear_adds(f1 + f2 + f3, f4);
    lemma_clear_adds(f1 + f2 + f3 + f4, f5);
    lemma_clear_adds(f1 + f2 + f3 + f4 + f5, f6);
    lemma_clear_adds(f1 + f2 + f3 + f4 + f5 + f6, quotes_bytes(report.quotes));
    lemma_clear_adds(f8, f9);
    lemma_clear_adds(f8 + f9, inner);
}

/// Nowhere before its trailer does a generated message claim a checksum.
proof fn lemma_unclaimed(report: Report)
    requires
        report.symbol < 4,
    ensures
        forall|t: int|
            #![trigger wire_format::claims_at(framed(report), t)]
            0 <= t < framed(report).len() - 7 ==> !wire_format::claims_at(framed(report), t),
{
    reveal(framed);
    let bytes = framed(report);
    let front = headed(body(report));
    let sum = wire_format::byte_sum(front) % 256;
    let trailer = field(10, text::padded(sum, 3));
    lemma_headed_clear(report);
    lemma_trailer(sum);
    assert(bytes == front + trailer);
    lemma_unclaimed_front(front, trailer);
}

proof fn lemma_unclaimed_front(front: Seq<u8>, trailer: Seq<u8>)
    requires
        clear(front),
        trailer.len() == 7,
    ensures
        forall|t: int|
            #![trigger wire_format::claims_at(front + trailer, t)]
            0 <= t < front.len() ==> !wire_format::claims_at(front + trailer, t),
{
    let bytes = front + trailer;
    assert forall|t: int|
        #![trigger wire_format::claims_at(bytes, t)]
        0 <= t < front.len() implies !wire_format::claims_at(bytes, t) by {
        if t + 3 <= front.len() {
            assert(!wire_format::claims_at(front, t));
        } else {
            assert(bytes[front.len() - 1] == front.last());
        }
    }
}

/// A generated message with any one byte changed, header and trailer included,
/// is refused or waits for more, and nothing of it is emitted.
pub proof fn lemma_corruption_refused(
    table: Seq<Seq<u8>>,
    report: Report,
    i: int,
    byte: u8,
)
    requires
        carried(report),
        framed(report).len() <= usize::MAX,
        0 <= i < framed(report).len(),
        byte != framed(report)[i],
    ensures
        ({
            let read = wire_format::messages_spec(table, framed(report).update(i, byte), 0);
            &&& read.events == Seq::<Event>::empty()
            &&& read.outcome == Err::<usize, feed::FeedError>(wire_format::malformed_at(0))
                || read.outcome == Ok::<usize, feed::FeedError>(0)
        }),
{
    let bytes = framed(report);
    assert(bytes.subrange(0, bytes.len() as int) =~= bytes);
    lemma_frame_read(bytes, 0, report);
    lemma_unclaimed(report);
    wire_format::lemma_lone_message_guarded(table, bytes, i, byte);
}

// ------------------------------------------------------------- a session cut short

/// How many messages of a stream lie whole in its first `cut` bytes.
pub open spec fn whole_in(reports: Seq<Report>, cut: int) -> int
    decreases reports.len(),
{
    if reports.len() == 0 || framed_all(reports).len() <= cut {
        reports.len() as int
    } else {
        whole_in(reports.drop_last(), cut)
    }
}

/// Those lie whole in them, and the next one does not.
proof fn lemma_whole_in(reports: Seq<Report>, cut: int)
    requires
        cut >= 0,
    ensures
        ({
            let k = whole_in(reports, cut);
            &&& 0 <= k <= reports.len()
            &&& framed_all(reports.take(k)).len() <= cut
            &&& k < reports.len() ==> framed_all(reports.take(k + 1)).len() > cut
        }),
    decreases reports.len(),
{
    assert(reports.take(reports.len() as int) =~= reports);
    if reports.len() > 0 && framed_all(reports).len() > cut {
        let fewer = reports.drop_last();
        let k = whole_in(fewer, cut);
        lemma_whole_in(fewer, cut);
        assert(fewer.take(k) =~= reports.take(k));
        if k < fewer.len() {
            assert(fewer.take(k + 1) =~= reports.take(k + 1));
        } else {
            assert(reports.take(k + 1) =~= reports);
        }
    }
}

/// A report cut short is a short read.
proof fn lemma_partial(report: Report, cut: int)
    requires
        carried(report),
        framed(report).len() <= usize::MAX,
        0 <= cut < framed(report).len(),
    ensures
        wire_format::messages_spec(synth::tradfi_names(), framed(report).take(cut), 0)
            == feed::Decoding::stop(Ok(0)),
{
    let table = synth::tradfi_names();
    let bytes = framed(report);
    let one = seq![report];
    assert(one.drop_last() =~= Seq::<Report>::empty());
    assert(framed_all(one.drop_last()) =~= Seq::empty());
    assert(framed_all(one) =~= bytes);
    lemma_stream_read_back(one);
    assert(bytes.subrange(0, bytes.len() as int) =~= bytes);
    lemma_frame_read(bytes, 0, report);
    wire_format::lemma_cut(table, bytes, cut);
    assert(feed::read_until(wire_format::spans(table, bytes, 0), 0, cut)
        == feed::Decoding::stop(Ok(0)));
}

/// What a cut leaves over behind the last whole report is a short read.
proof fn lemma_rest_short(reports: Seq<Report>, cut: int)
    requires
        forall|i: int|
            #![trigger reports[i]]
            0 <= i < reports.len() ==> carried(reports[i]),
        framed_all(reports).len() <= usize::MAX,
        0 <= cut <= framed_all(reports).len(),
    ensures
        ({
            let whole = framed_all(reports.take(whole_in(reports, cut)));
            wire_format::messages_spec(
                synth::tradfi_names(),
                framed_all(reports).take(cut).skip(whole.len() as int),
                0,
            ) == feed::Decoding::stop(Ok(0))
        }),
{
    let k = whole_in(reports, cut);
    let whole = framed_all(reports.take(k));
    let bytes = framed_all(reports);
    let rest = bytes.take(cut).skip(whole.len() as int);
    lemma_whole_in(reports, cut);
    if k < reports.len() {
        let next = framed(reports[k]);
        lemma_report_stands(reports, k);
        assert(rest =~= next.take(rest.len() as int)) by {
            assert forall|i: int| 0 <= i < rest.len() implies rest[i] == next[i] by {
                text::lemma_stands_at(bytes, whole.len() as int, next, i);
            }
        }
        lemma_partial(reports[k], rest.len() as int);
    } else {
        assert(reports.take(k) =~= reports);
        assert(rest =~= Seq::empty());
    }
}

/// A stream cut anywhere reads as the messages that lie whole before the cut.
pub proof fn lemma_stream_cut(reports: Seq<Report>, cut: int)
    requires
        forall|i: int|
            #![trigger reports[i]]
            0 <= i < reports.len() ==> carried(reports[i]),
        framed_all(reports).len() <= usize::MAX,
        0 <= cut <= framed_all(reports).len(),
    ensures
        ({
            let k = whole_in(reports, cut);
            let read = wire_format::messages_spec(synth::tradfi_names(), framed_all(reports).take(cut), 0);
            &&& read.events == meanings(reports.take(k))
            &&& read.outcome == Ok::<usize, feed::FeedError>(
                framed_all(reports.take(k)).len() as usize,
            )
        }),
{
    let table = synth::tradfi_names();
    let k = whole_in(reports, cut);
    let front = reports.take(k);
    let whole = framed_all(front);
    let part = framed_all(reports).take(cut);
    lemma_whole_in(reports, cut);
    lemma_framed_all_adds(front, reports.skip(k));
    assert(front + reports.skip(k) =~= reports);
    assert forall|i: int| #![trigger front[i]] 0 <= i < front.len() implies carried(
        front[i],
    ) by {
        assert(front[i] == reports[i]);
    }
    lemma_stream_read_back(front);
    let rest = part.skip(whole.len() as int);
    assert(part =~= whole + rest);
    lemma_rest_short(reports, cut);
    wire_format::lemma_resumes(table, whole, rest);
    assert(whole.skip(whole.len() as int) + rest =~= rest);
    let read = wire_format::messages_spec(table, part, 0);
    assert(read.events =~= meanings(front));
}

/// Every prefix of a generated session is a clean short read: the messages that
/// lie whole in it, and nothing else.
pub proof fn lemma_session_cut(rng: u64, count: nat, cut: int)
    requires
        count <= u64::MAX,
        framed_all(session(rng, count).1).len() <= usize::MAX,
        0 <= cut <= framed_all(session(rng, count).1).len(),
    ensures
        ({
            let reports = session(rng, count).1;
            let k = whole_in(reports, cut);
            let read = wire_format::messages_spec(synth::tradfi_names(), framed_all(reports).take(cut), 0);
            &&& read.events == meanings(reports.take(k))
            &&& read.outcome == Ok::<usize, feed::FeedError>(
                framed_all(reports.take(k)).len() as usize,
            )
        }),
{
    lemma_session_carried(rng, count);
    lemma_stream_cut(session(rng, count).1, cut);
}

} // verus!
