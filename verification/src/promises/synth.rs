//! The generators: what every random session keeps to, whatever the seed and
//! however long it is.

use vstd::prelude::*;

use crate::feed;
use crate::feed::fix::Fix;
use crate::feed::itch::Itch;
use crate::feed::json::Json;
use crate::feed::synth;
use crate::feed::synth::itch;
use crate::feed::synth::itch::{Market, Message};
use crate::feed::synth::fix::Report;
use crate::feed::synth::{fix, json};
use crate::feed::{Event, Kind, Parser, Side};
use crate::wire;

verus! {

/// A step adds the golden ratio's 64 bits, and what it gives is that state mixed
/// twice over: shifted onto itself and multiplied, modulo two to the 64.
pub proof fn lemma_draws(state: u64, bound: u64)
    requires
        bound > 0,
    ensures
        feed::rng_next(state) == (state + 0x9e37_79b9_7f4a_7c15) % 0x1_0000_0000_0000_0000,
        ({
            let next = feed::rng_next(state);
            let once = ((next ^ (next >> 30)) * 0xbf58_476d_1ce4_e5b9) % 0x1_0000_0000_0000_0000;
            let y = once as u64;
            let twice = ((y ^ (y >> 27)) * 0x94d0_49bb_1331_11eb) % 0x1_0000_0000_0000_0000;
            let z = twice as u64;
            synth::draw(state, bound) == (z ^ (z >> 31)) % bound
        }),
        synth::draw(state, bound) < bound,
{
    let next = feed::rng_next(state);
    lemma_wrapped(next ^ (next >> 30), 0xbf58_476d_1ce4_e5b9);
    let y = (next ^ (next >> 30)).wrapping_mul(0xbf58_476d_1ce4_e5b9);
    lemma_wrapped(y ^ (y >> 27), 0x94d0_49bb_1331_11eb);
}

proof fn lemma_wrapped(a: u64, b: u64)
    ensures
        a.wrapping_mul(b) == (a * b) % 0x1_0000_0000_0000_0000,
{
}

// -------------------------------------------------------------- an ITCH session

/// The order that a message puts on the book, and its symbol.
pub open spec fn opened(message: Message) -> Option<(u64, u16)> {
    match message {
        Message::Add { symbol, order, .. } => Some((order, symbol)),
        Message::Replace { symbol, replacement, .. } => Some((replacement, symbol)),
        _ => None,
    }
}

/// The order that a message takes off, and its symbol.
pub open spec fn closed(message: Message) -> Option<(u64, u16)> {
    match message {
        Message::Delete { symbol, order } => Some((order, symbol)),
        Message::Replace { symbol, order, .. } => Some((order, symbol)),
        _ => None,
    }
}

/// The order that a message speaks of, and its symbol.
pub open spec fn spoken_of(message: Message) -> Option<(u64, u16)> {
    match message {
        Message::Add { .. } => None,
        Message::Execute { symbol, order, .. } => Some((order, symbol)),
        Message::Cancel { symbol, order, .. } => Some((order, symbol)),
        Message::Delete { symbol, order } => Some((order, symbol)),
        Message::Replace { symbol, order, .. } => Some((order, symbol)),
        Message::Trade { symbol, order, .. } => Some((order, symbol)),
    }
}

/// Whether an order was put on the book before the message at `i`, and not taken
/// off since.
pub open spec fn on_the_book(messages: Seq<Message>, i: int, order: (u64, u16)) -> bool {
    exists|j: int|
        #![trigger messages[j]]
        0 <= j < i && opened(messages[j]) == Some(order) && forall|t: int|
            #![trigger messages[t]]
            j < t < i ==> closed(messages[t]) != Some(order)
}

/// How many orders were put on the book before the message at `i`.
pub open spec fn orders_before(messages: Seq<Message>, i: int) -> nat
    decreases i,
{
    if i <= 0 {
        0
    } else {
        orders_before(messages, i - 1) + (if opened(messages[i - 1]) is Some {
            1nat
        } else {
            0
        })
    }
}

/// Whether the message is in bounds: whole shares, and a price between 99.68 and
/// 150.32 dollars.
pub open spec fn in_bounds(message: Message) -> bool {
    match message {
        Message::Add { symbol, shares, price, .. } => symbol < 4 && 1 <= shares <= 5_000
            && 996_800 <= price <= 1_503_200,
        Message::Execute { symbol, shares, .. } => symbol < 4 && 1 <= shares <= 500,
        Message::Cancel { symbol, shares, .. } => symbol < 4 && 1 <= shares <= 500,
        Message::Delete { symbol, .. } => symbol < 4,
        Message::Replace { symbol, shares, price, .. } => symbol < 4 && 1 <= shares <= 5_000
            && 996_800 <= price <= 1_503_200,
        Message::Trade { symbol, shares, price, .. } => symbol < 4 && 1 <= shares <= 500
            && 996_800 <= price <= 1_503_200,
    }
}

/// Where a session stands after `messages`.
spec fn stands(market: Market, messages: Seq<Message>) -> bool {
    let live = market.live;
    let n = messages.len() as int;
    &&& market.next_order == 1 + orders_before(messages, n)
    &&& market.mids.len() == 4
    &&& forall|i: int|
        #![trigger market.mids[i]]
        0 <= i < 4 ==> 1_000_000 <= market.mids[i] <= 1_500_000
    &&& live.len() <= n
    &&& forall|i: int|
        #![trigger live[i]]
        0 <= i < live.len() ==> {
            &&& on_the_book(messages, n, live[i])
            &&& live[i].0 < market.next_order
            &&& live[i].1 < 4
        }
    &&& forall|i: int, j: int|
        #![trigger live[i], live[j]]
        0 <= i < j < live.len() ==> live[i].0 != live[j].0
}

proof fn lemma_still_on(messages: Seq<Message>, message: Message, order: (u64, u16))
    requires
        on_the_book(messages, messages.len() as int, order),
        closed(message) != Some(order),
    ensures
        on_the_book(messages.push(message), messages.len() as int + 1, order),
{
    let n = messages.len() as int;
    let longer = messages.push(message);
    let j = choose|j: int|
        #![trigger messages[j]]
        0 <= j < n && opened(messages[j]) == Some(order) && forall|t: int|
            #![trigger messages[t]]
            j < t < n ==> closed(messages[t]) != Some(order);
    assert(longer[j] == messages[j]);
    assert forall|t: int| #![trigger longer[t]] j < t < n + 1 implies closed(longer[t]) != Some(
        order,
    ) by {
        if t < n {
            assert(longer[t] == messages[t]);
        }
    }
}

proof fn lemma_now_on(messages: Seq<Message>, message: Message, order: (u64, u16))
    requires
        opened(message) == Some(order),
    ensures
        on_the_book(messages.push(message), messages.len() as int + 1, order),
{
    let longer = messages.push(message);
    assert(longer[messages.len() as int] == message);
}

proof fn lemma_orders_before_kept(messages: Seq<Message>, message: Message, i: int)
    requires
        0 <= i <= messages.len(),
    ensures
        orders_before(messages.push(message), i) == orders_before(messages, i),
    decreases i,
{
    if i > 0 {
        lemma_orders_before_kept(messages, message, i - 1);
    }
}

proof fn lemma_walk(mid: i64, rng: u64)
    requires
        1_000_000 <= mid <= 1_500_000,
    ensures
        1_000_000 <= itch::walked_mid(mid, rng) <= 1_500_000,
        996_800 <= itch::walked_price(mid, rng) <= 1_503_200,
{
}

/// The next message of a session.
#[verifier::rlimit(60)]
#[verifier::spinoff_prover]
proof fn lemma_next(market: Market, messages: Seq<Message>)
    requires
        stands(market, messages),
        messages.len() + 1 < u64::MAX,
        orders_before(messages, messages.len() as int) <= messages.len(),
    ensures
        ({
            let (after, message) = itch::next_message(market);
            let n = messages.len() as int;
            &&& stands(after, messages.push(message))
            &&& in_bounds(message)
            &&& spoken_of(message) matches Some(order) ==> on_the_book(messages, n, order)
            &&& opened(message) matches Some((order, _)) ==> order == 1 + orders_before(messages, n)
        }),
{
    let (after, message) = itch::next_message(market);
    let n = messages.len() as int;
    let longer = messages.push(message);
    let live = market.live;
    lemma_orders_before_kept(messages, message, n);
    assert(longer[n] == message);
    assert forall|i: int| #![trigger market.mids[i]] 0 <= i < 4 implies {
        &&& forall|rng: u64|
            #![trigger itch::walked_mid(market.mids[i], rng)]
            1_000_000 <= itch::walked_mid(market.mids[i], rng) <= 1_500_000
        &&& forall|rng: u64|
            #![trigger itch::walked_price(market.mids[i], rng)]
            996_800 <= itch::walked_price(market.mids[i], rng) <= 1_503_200
    } by {
        assert forall|rng: u64|
            #![trigger itch::walked_mid(market.mids[i], rng)]
            1_000_000 <= itch::walked_mid(market.mids[i], rng) <= 1_500_000 by {
            lemma_walk(market.mids[i], rng);
        }
        assert forall|rng: u64|
            #![trigger itch::walked_price(market.mids[i], rng)]
            996_800 <= itch::walked_price(market.mids[i], rng) <= 1_503_200 by {
            lemma_walk(market.mids[i], rng);
        }
    }
    assert forall|i: int| #![trigger live[i]] 0 <= i < live.len() implies closed(message) != Some(
        live[i],
    ) ==> on_the_book(longer, n + 1, live[i]) by {
        if closed(message) != Some(live[i]) {
            lemma_still_on(messages, message, live[i]);
        }
    }
    if let Some(order) = opened(message) {
        lemma_now_on(messages, message, order);
    }
    let now = after.live;
    assert forall|i: int| #![trigger now[i]] 0 <= i < now.len() implies {
        &&& on_the_book(longer, n + 1, now[i])
        &&& now[i].0 < after.next_order
        &&& now[i].1 < 4
    } by {
        if i < live.len() {
            assert(on_the_book(messages, n, live[i]));
        }
        if live.len() > 0 {
            assert(on_the_book(messages, n, live[live.len() - 1]));
        }
    }
}

/// Every session is one that a book can follow. The orders put on it are numbered
/// one, two, three and so on. Whatever else a message speaks of is an order that
/// was put on the book before, for the same symbol, and not taken off since. And
/// every message is in bounds.
pub proof fn lemma_sessions_make_sense(rng: u64, count: nat)
    requires
        count < u64::MAX,
    ensures
        ({
            let messages = itch::session(itch::opening_market(rng), count).1;
            &&& messages.len() == count
            &&& forall|i: int|
                #![trigger messages[i]]
                0 <= i < count ==> {
                    &&& in_bounds(messages[i])
                    &&& spoken_of(messages[i]) matches Some(order) ==> on_the_book(
                        messages,
                        i,
                        order,
                    )
                    &&& opened(messages[i]) matches Some((order, _)) ==> order == 1
                        + orders_before(messages, i)
                }
        }),
{
    lemma_session(rng, count);
}

#[verifier::rlimit(60)]
#[verifier::spinoff_prover]
proof fn lemma_session(rng: u64, count: nat)
    requires
        count < u64::MAX,
    ensures
        ({
            let (market, messages) = itch::session(itch::opening_market(rng), count);
            &&& messages.len() == count
            &&& stands(market, messages)
            &&& orders_before(messages, count as int) <= count
            &&& forall|i: int|
                #![trigger messages[i]]
                0 <= i < count ==> {
                    &&& in_bounds(messages[i])
                    &&& spoken_of(messages[i]) matches Some(order) ==> on_the_book(
                        messages,
                        i,
                        order,
                    )
                    &&& opened(messages[i]) matches Some((order, _)) ==> order == 1
                        + orders_before(messages, i)
                }
        }),
    decreases count,
{
    if count > 0 {
        let fewer = (count - 1) as nat;
        lemma_session(rng, fewer);
        let (market, before) = itch::session(itch::opening_market(rng), fewer);
        lemma_next(market, before);
        let (after, message) = itch::next_message(market);
        let messages = before.push(message);
        lemma_orders_before_kept(before, message, fewer as int);
        assert forall|i: int| #![trigger messages[i]] 0 <= i < count implies {
            &&& in_bounds(messages[i])
            &&& spoken_of(messages[i]) matches Some(order) ==> on_the_book(messages, i, order)
            &&& opened(messages[i]) matches Some((order, _)) ==> order == 1 + orders_before(
                messages,
                i,
            )
        } by {
            lemma_orders_before_kept(before, message, i);
            if i < fewer {
                assert(messages[i] == before[i]);
            }
            if let Some(order) = spoken_of(messages[i]) {
                lemma_prefix_on(before, message, i, order);
            }
        }
    }
}

proof fn lemma_prefix_on(messages: Seq<Message>, message: Message, i: int, order: (u64, u16))
    requires
        0 <= i <= messages.len(),
        on_the_book(messages, i, order),
    ensures
        on_the_book(messages.push(message), i, order),
{
    let longer = messages.push(message);
    let j = choose|j: int|
        #![trigger messages[j]]
        0 <= j < i && opened(messages[j]) == Some(order) && forall|t: int|
            #![trigger messages[t]]
            j < t < i ==> closed(messages[t]) != Some(order);
    assert(longer[j] == messages[j]);
    assert forall|t: int| #![trigger longer[t]] j < t < i implies closed(longer[t]) != Some(
        order,
    ) by {
        assert(longer[t] == messages[t]);
    }
}

// ------------------------------------------------------------- the other sessions

proof fn lemma_quotes(rng: u64, count: nat)
    ensures
        ({
            let quotes = fix::drawn_quotes(rng, count).1;
            &&& quotes.len() == count
            &&& forall|i: int|
                #![trigger quotes[i]]
                0 <= i < count ==> 10_000 <= quotes[i].cents < 100_000 && 1 <= quotes[i].qty
                    <= 9_999
        }),
    decreases count,
{
    if count > 0 {
        lemma_quotes(rng, (count - 1) as nat);
    }
}

/// The reports of a session are numbered from one on. Each is about one of four
/// symbols and holds one to three entries, priced from 100 to under 1,000 dollars
/// in whole cents, of 1 to 9,999 units.
#[verifier::rlimit(30)]
pub proof fn lemma_reports_are_in_bounds(rng: u64, count: nat)
    ensures
        ({
            let reports = fix::session(rng, count).1;
            &&& reports.len() == count
            &&& forall|i: int|
                #![trigger reports[i]]
                0 <= i < count ==> {
                    &&& reports[i].sequence == i + 1
                    &&& reports[i].symbol < 4
                    &&& 1 <= reports[i].quotes.len() <= 3
                    &&& forall|j: int|
                        #![trigger reports[i].quotes[j]]
                        0 <= j < reports[i].quotes.len() ==> 10_000 <= reports[i].quotes[j].cents
                            < 100_000 && 1 <= reports[i].quotes[j].qty <= 9_999
                }
        }),
    decreases count,
{
    if count > 0 {
        let fewer = (count - 1) as nat;
        lemma_reports_are_in_bounds(rng, fewer);
        let state = fix::session(rng, fewer).0;
        let r1 = feed::rng_next(state);
        lemma_quotes(feed::rng_next(r1), 1 + synth::draw(r1, 3) as nat);
    }
}

proof fn lemma_levels(rng: u64, count: nat)
    ensures
        ({
            let levels = json::drawn_levels(rng, count).1;
            &&& levels.len() == count
            &&& forall|i: int|
                #![trigger levels[i]]
                0 <= i < count ==> 1_000_000_000 <= levels[i].0 < 5_000_000_000 && levels[i].1
                    < 500_000_000
        }),
    decreases count,
{
    if count > 0 {
        lemma_levels(rng, (count - 1) as nat);
    }
}

/// Whether every level is priced from 10 to under 50 units, with under 5 of
/// quantity.
pub open spec fn modest(levels: Seq<(u64, u64)>) -> bool {
    &&& 1 <= levels.len() <= 3
    &&& forall|i: int|
        #![trigger levels[i]]
        0 <= i < levels.len() ==> 1_000_000_000 <= levels[i].0 < 5_000_000_000 && levels[i].1
            < 500_000_000
}

/// The messages of a session are about one of three symbols: a trade priced from
/// 10 to under 50 units, or one to three levels on each side.
#[verifier::rlimit(30)]
pub proof fn lemma_lines_are_in_bounds(rng: u64, count: nat)
    ensures
        ({
            let messages = json::session(rng, count).1;
            &&& messages.len() == count
            &&& forall|i: int|
                #![trigger messages[i]]
                0 <= i < count ==> match messages[i] {
                    json::Message::Trade { symbol, price, qty, trade_id, .. } => {
                        &&& symbol < 3
                        &&& 1_000_000_000 <= price < 5_000_000_000
                        &&& 1_000_000 <= qty < 501_000_000
                        &&& trade_id < 0x100_0000_0000
                    },
                    json::Message::Depth { symbol, bids, asks } => symbol < 3 && modest(bids)
                        && modest(asks),
                }
        }),
    decreases count,
{
    if count > 0 {
        let fewer = (count - 1) as nat;
        lemma_lines_are_in_bounds(rng, fewer);
        let rng = json::session(rng, fewer).0;
        let r1 = feed::rng_next(rng);
        let r2 = feed::rng_next(r1);
        let r3 = feed::rng_next(r2);
        let r4 = feed::rng_next(r3);
        let some = (1 + synth::draw(r2, 3)) as nat;
        lemma_levels(r4, some);
        lemma_levels(json::drawn_levels(r4, some).0, (1 + synth::draw(r3, 3)) as nat);
    }
}

/// Out of a hundred messages forty are adds, twenty executions, fifteen cancels,
/// fifteen deletions, six replacements and four prints, as the second draw falls;
/// with nothing on the book every one is an add. An execution, a cancel or a print
/// leaves the book's orders as they were.
#[verifier::rlimit(30)]
pub proof fn lemma_weights(market: Market)
    ensures
        ({
            let (after, message) = itch::next_message(market);
            let roll = synth::draw(feed::rng_next(market.rng), 100);
            let bare = market.live.len() == 0;
            &&& message is Add <==> roll < 40 || bare
            &&& message is Execute <==> 40 <= roll < 60 && !bare
            &&& message is Cancel <==> 60 <= roll < 75 && !bare
            &&& message is Delete <==> 75 <= roll < 90 && !bare
            &&& message is Replace <==> 90 <= roll < 96 && !bare
            &&& message is Trade <==> 96 <= roll && !bare
            &&& message is Execute || message is Cancel || message is Trade ==> after.live
                == market.live && after.next_order == market.next_order
            &&& message is Add ==> after.live.len() == market.live.len() + 1
            &&& message is Delete ==> after.live.len() == market.live.len() - 1
            &&& message is Replace ==> after.live.len() == market.live.len()
        }),
{
}

// -------------------------------------------------------------- what is sent

/// A message that is sent is read as what it says: its order, its shares in
/// hundred-millionths, its price in hundred-millionths from four decimals, its
/// side where it has one, and the replacement or the match number.
#[verifier::rlimit(60)]
#[verifier::spinoff_prover]
pub proof fn lemma_a_message_sent_is_read(parser: Itch<'_>, message: Message)
    requires
        feed::names(parser.symbols@) == synth::tradfi_names(),
        itch::symbol_of(message) < 4,
    ensures
        ({
            let read = parser.decoding(itch::framed_all(seq![message]));
            let event = read.events[0];
            &&& read.events.len() == 1
            &&& read.outcome is Ok
            &&& match message {
                Message::Add { symbol, order, side, shares, price } => {
                    &&& event.kind == Kind::Add && event.symbol == symbol
                    &&& event.order_id == order && event.side == side
                    &&& event.qty == shares * 100_000_000 && event.price == price * 10_000
                },
                Message::Execute { symbol, order, shares, match_no } => {
                    &&& event.kind == Kind::Execute && event.symbol == symbol
                    &&& event.order_id == order && event.qty == shares * 100_000_000
                    &&& event.aux == match_no
                },
                Message::Cancel { symbol, order, shares } => {
                    &&& event.kind == Kind::Cancel && event.symbol == symbol
                    &&& event.order_id == order && event.qty == shares * 100_000_000
                },
                Message::Delete { symbol, order } => {
                    &&& event.kind == Kind::Delete && event.symbol == symbol
                    &&& event.order_id == order
                },
                Message::Replace { symbol, order, replacement, shares, price } => {
                    &&& event.kind == Kind::Replace && event.symbol == symbol
                    &&& event.order_id == order && event.aux == replacement
                    &&& event.qty == shares * 100_000_000 && event.price == price * 10_000
                },
                Message::Trade { symbol, order, side, shares, price, match_no } => {
                    &&& event.kind == Kind::Trade && event.symbol == symbol
                    &&& event.order_id == order && event.side == side
                    &&& event.qty == shares * 100_000_000 && event.price == price * 10_000
                    &&& event.aux == match_no
                },
            }
        }),
{
    let sent = seq![message];
    assert(sent.drop_last() =~= Seq::empty());
    assert(itch::framed_all(Seq::empty()) =~= Seq::empty());
    itch::lemma_body_len(message);
    wire::lemma_be_bytes_len(itch::body(message).len(), 2);
    itch::lemma_stream_read_back(sent);
}

/// A report that is sent is read as its entries, in order: prices from cents and
/// sizes from whole units, and a trade on no side but the bid's.
#[verifier::rlimit(30)]
pub proof fn lemma_a_report_sent_is_read(parser: Fix<'_>, report: Report, j: int)
    requires
        feed::names(parser.symbols@) == synth::tradfi_names(),
        fix::carried(report),
        fix::framed_all(seq![report]).len() <= usize::MAX,
        0 <= j < report.quotes.len(),
        report.quotes[j].cents * 1_000_000 <= i64::MAX,
        report.quotes[j].qty * 100_000_000 <= i64::MAX,
    ensures
        ({
            let read = parser.decoding(fix::framed_all(seq![report]));
            let event = read.events[j];
            let quote = report.quotes[j];
            &&& read.events.len() == report.quotes.len()
            &&& read.outcome is Ok
            &&& event.symbol == report.symbol
            &&& event.price == quote.cents * 1_000_000
            &&& event.qty == quote.qty * 100_000_000
            &&& quote.is_trade ==> event.kind == Kind::Trade && event.side == Side::Bid
            &&& !quote.is_trade ==> event.kind == Kind::Level && event.side == quote.side
            &&& event.order_id == 0 && event.aux == 0
        }),
{
    let sent = seq![report];
    assert(sent.drop_last() =~= Seq::empty());
    fix::lemma_stream_read_back(sent);
    assert(fix::meanings(Seq::empty()) =~= Seq::empty());
    assert(fix::meanings(sent) =~= fix::report_meanings(report));
}

/// A line that is sent is read as the trade it tells of, or as its bids and then
/// its asks, level by level.
#[verifier::rlimit(60)]
#[verifier::spinoff_prover]
pub proof fn lemma_a_line_sent_is_read(parser: Json<'_>, message: json::Message, j: int)
    requires
        feed::names(parser.symbols@) == synth::crypto_names(),
        json::carried(message),
        json::lines(seq![message]).len() <= usize::MAX,
    ensures
        ({
            let read = parser.decoding(json::lines(seq![message]));
            &&& read.outcome is Ok
            &&& match message {
                json::Message::Trade { symbol, price, qty, trade_id, maker_is_buyer } => {
                    &&& read.events.len() == 1
                    &&& read.events[0] == (Event {
                        kind: Kind::Trade,
                        side: if maker_is_buyer {
                            Side::Ask
                        } else {
                            Side::Bid
                        },
                        symbol,
                        price: price as i64,
                        qty: qty as i64,
                        order_id: 0,
                        aux: trade_id,
                    })
                },
                json::Message::Depth { symbol, bids, asks } => {
                    &&& read.events.len() == bids.len() + asks.len()
                    &&& 0 <= j < bids.len() ==> read.events[j] == (Event {
                        kind: Kind::Level,
                        side: Side::Bid,
                        symbol,
                        price: bids[j].0 as i64,
                        qty: bids[j].1 as i64,
                        order_id: 0,
                        aux: 0,
                    })
                    &&& 0 <= j < asks.len() ==> read.events[bids.len() + j] == (Event {
                        kind: Kind::Level,
                        side: Side::Ask,
                        symbol,
                        price: asks[j].0 as i64,
                        qty: asks[j].1 as i64,
                        order_id: 0,
                        aux: 0,
                    })
                },
            }
        }),
{
    let sent = seq![message];
    assert(sent.drop_last() =~= Seq::empty());
    json::lemma_stream_read_back(sent);
    assert(json::meanings(Seq::empty()) =~= Seq::empty());
    assert(json::meanings(sent) =~= json::message_meanings(message));
}

} // verus!
