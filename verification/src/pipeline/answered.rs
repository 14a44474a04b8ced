//! One probe in, one order out: what makes the wire-to-wire measurement
//! unambiguous.
//!
//! Each probe moves symbol zero's best bid to a new price, which the strategy
//! answers with exactly one order. The proofs follow the whole path: header,
//! arbitration, parse, books, touch and decision.

use vstd::prelude::*;

use crate::book::ladder;
use crate::book::ladder::{Band, LadderState};
use crate::book::orders::Order;
use crate::book::{BookState, BooksState};
use crate::feed::mold;
use crate::feed::mold::{Header, Lines};
use crate::feed::synth::itch;
use crate::feed::{Event, Side};
use crate::pipeline;
use crate::pipeline::handler;
use crate::pipeline::handler::{FeedHandler, HandlerState, Received};
use crate::pipeline::probe;
use crate::pipeline::{BboUpdate, OrderCommand, StageState, StrategyState};
use crate::wire;

verus! {

/// The header of a probe.
pub open spec fn probe_header(index: nat) -> Header {
    Header {
        session: probe::SESSION,
        sequence: probe::probe_sequence(index) as u64,
        count: probe::probe_messages(index).len() as u16,
    }
}

/// The payload of a probe.
pub open spec fn probe_payload(index: nat) -> Seq<u8> {
    itch::framed_all(probe::probe_messages(index))
}

/// The bid that a probe makes.
pub open spec fn probe_bid(index: nat) -> i64 {
    (probe::price_spec(index as int) * 10_000) as i64
}

/// The quantity behind it.
pub open spec fn probe_qty() -> i64 {
    (probe::SHARES * 100_000_000) as i64
}

/// The bid before a probe; zero before the first.
pub open spec fn bid_before(index: nat) -> i64 {
    if index == 0 {
        0
    } else {
        probe_bid((index - 1) as nat)
    }
}

/// The band that the handler's books are made with.
pub open spec fn probe_band() -> Band {
    Band { tick: pipeline::BAND_TICK, ticks: pipeline::BAND_TICKS }
}

/// The handler before any probe.
pub open spec fn fresh_handler() -> HandlerState {
    HandlerState {
        lines: Lines::fresh(probe::SESSION@, probe::FIRST_SEQUENCE as nat),
        stage: StageState {
            books: BooksState::empty(4, probe_band()),
            touch: (0, 0),
            moved: None,
        },
    }
}

/// The handler once it has received the first `count` probes.
pub open spec fn after_probes(count: nat) -> HandlerState
    decreases count,
{
    if count == 0 {
        fresh_handler()
    } else {
        let last = (count - 1) as nat;
        after_probes(last).take(probe_header(last), probe_payload(last))
    }
}

/// What the strategy is told of a probe.
pub open spec fn probe_update(index: nat) -> BboUpdate {
    BboUpdate {
        symbol: 0,
        bid_price: probe_bid(index),
        bid_qty: probe_qty(),
        ask_price: 0,
        ask_qty: 0,
    }
}

/// The strategy once it has been told of the first `count` probes.
pub open spec fn strategy_after(count: nat) -> StrategyState {
    StrategyState { last_bid: bid_before(count), next_id: count }
}

/// Symbol zero's bids before a probe: the one order of the probe before it.
spec fn bids_before(index: nat) -> LadderState {
    let fresh = LadderState::empty(probe_band(), false);
    if index == 0 {
        fresh
    } else {
        LadderState {
            base: 7_465_000_000,
            levels: map![bid_before(index) => probe_qty()],
            rebases: 1,
            ..fresh
        }
    }
}

spec fn orders_before(index: nat) -> Map<u64, Order> {
    if index == 0 {
        Map::empty()
    } else {
        map![
            index as u64 => Order {
                symbol: 0,
                side: Side::Bid,
                price: bid_before(index),
                qty: probe_qty(),
            },
        ]
    }
}

spec fn book_before(index: nat) -> BookState {
    BookState {
        orders: orders_before(index),
        bids: bids_before(index),
        asks: LadderState::empty(probe_band(), true),
    }
}

spec fn stage_before(index: nat) -> StageState {
    StageState {
        books: BooksState {
            symbols: BooksState::empty(4, probe_band()).symbols.update(0, book_before(index)),
            unknown_orders: 0,
        },
        touch: (bid_before(index), 0),
        moved: None,
    }
}

spec fn lines_before(index: nat) -> Lines {
    Lines {
        expected: probe::probe_sequence(index),
        delivered: index,
        ..Lines::fresh(probe::SESSION@, probe::FIRST_SEQUENCE as nat)
    }
}

/// The deletion that a probe after the first starts with.
spec fn deletion(index: nat) -> Event {
    itch::meaning(itch::Message::Delete { symbol: 0, order: index as u64 })
}

/// The addition that a probe ends with.
spec fn addition(index: nat) -> Event {
    itch::meaning(
        itch::Message::Add {
            symbol: 0,
            order: (index + 1) as u64,
            side: Side::Bid,
            shares: probe::SHARES,
            price: probe::price_spec(index as int),
        },
    )
}

proof fn lemma_prices(index: nat)
    ensures
        10_000_000_000 <= probe_bid(index) < 12_000_000_000,
        (probe_bid(index) - 7_465_000_000) % 1_000_000 == 0,
        probe_bid(index) != bid_before(index),
        probe_qty() == 10_000_000_000,
        addition(index).price == probe_bid(index),
        addition(index).qty == probe_qty(),
{
    let step = (index as int % 0x1_0000_0000) % 2_000;
    assert(probe_bid(index) == 10_000_000_000 + step * 1_000_000);
    if index > 0 {
        let before = ((index - 1) % 0x1_0000_0000) % 2_000;
        assert(bid_before(index) == 10_000_000_000 + before * 1_000_000);
        assert(step != before);
    }
}

/// One level is the touch, and no level is none.
proof fn lemma_touches(price: i64, qty: i64)
    ensures
        ladder::touch(map![price => qty], false) == Some((price, qty)),
        ladder::touch(Map::empty(), false) == None::<(i64, i64)>,
        ladder::touch(Map::empty(), true) == None::<(i64, i64)>,
{
    ladder::lemma_touch_is(map![price => qty], false, (price, qty));
    ladder::lemma_no_touch(false);
    ladder::lemma_no_touch(true);
}

/// The book with the previous order deleted.
spec fn cleared(index: nat) -> BookState {
    BookState {
        orders: Map::empty(),
        bids: LadderState { levels: Map::empty(), ..bids_before(index) },
        ..book_before(index)
    }
}

proof fn lemma_deletion(index: nat)
    requires
        0 < index <= u64::MAX,
    ensures
        book_before(index).admits(deletion(index)),
        !book_before(index).is_unknown(deletion(index)),
        book_before(index).apply(deletion(index)) == cleared(index),
{
    let book = book_before(index);
    let price = bid_before(index);
    lemma_prices((index - 1) as nat);
    assert(book.orders.dom().contains(index as u64));
    assert(book.bids.span() == 5_070_000_000);
    assert(book.bids.in_window(price as int));
    assert(book.bids.levels.dom() =~= set![price]);
    assert(book.bids.quantity(price) == probe_qty());
    assert(book.orders.remove(index as u64) =~= Map::empty());
    assert(book.bids.levels.remove(price) =~= Map::empty());
    assert(book.apply(deletion(index)) =~= cleared(index));
}

proof fn lemma_addition(index: nat)
    requires
        index < u64::MAX,
    ensures
        ({
            let before = if index == 0 {
                book_before(0)
            } else {
                cleared(index)
            };
            &&& before.admits(addition(index))
            &&& !before.is_unknown(addition(index))
            &&& before.apply(addition(index)) == book_before(index + 1)
        }),
{
    let before = if index == 0 {
        book_before(0)
    } else {
        cleared(index)
    };
    let price = probe_bid(index);
    lemma_prices(index);
    assert(before.bids.levels.dom() =~= Set::empty());
    assert(before.bids.span() == 5_070_000_000);
    let placed = before.bids.reaching(price as int);
    assert(placed.base == 7_465_000_000);
    assert(placed.levels =~= Map::empty());
    assert(placed.levels.dom().len() == 0);
    assert(placed.rebases == 1);
    assert(placed.evicted == 0);
    assert(placed.on_grid(price as int));
    assert(placed.quantity(price) == 0);
    assert(placed.levels.insert(price, probe_qty()) =~= map![price => probe_qty()]);
    assert(before.orders.insert((index + 1) as u64, orders_before(index + 1)[(index + 1) as u64])
        =~= orders_before(index + 1));
    assert(before.apply(addition(index)) =~= book_before(index + 1));
}

proof fn lemma_events(index: nat)
    requires
        index < u64::MAX,
    ensures
        handler::read(probe_payload(index)).events == (if index == 0 {
            seq![addition(index)]
        } else {
            seq![deletion(index), addition(index)]
        }),
        handler::read(probe_payload(index)).outcome is Ok,
{
    let previous = if index > 0 {
        Some(index as u64)
    } else {
        None
    };
    probe::lemma_probe_read_back(previous, (index + 1) as u64, probe::price_spec(index as int));
    assert(handler::read(probe_payload(index)).events =~= (if index == 0 {
        seq![addition(index)]
    } else {
        seq![deletion(index), addition(index)]
    }));
}

/// An event that changes symbol zero's book to `after`, with the touch moved.
proof fn lemma_accept(stage: StageState, event: Event, after: BookState, bid: Option<(i64, i64)>)
    requires
        stage.books.symbols.len() > 0,
        event.symbol == 0,
        stage.books.symbols[0].admits(event),
        !stage.books.symbols[0].is_unknown(event),
        stage.books.symbols[0].apply(event) == after,
        ladder::touch(after.bids.levels, after.bids.descending) == bid,
        ladder::touch(after.asks.levels, after.asks.descending) is None,
        pipeline::or_zeros(bid).0 != stage.touch.0,
    ensures
        stage.books.admits(event),
        stage.accept(event) == moved_stage(stage, after, pipeline::or_zeros(bid)),
{
}

spec fn moved_stage(stage: StageState, after: BookState, bid: (i64, i64)) -> StageState {
    StageState {
        books: BooksState { symbols: stage.books.symbols.update(0, after), ..stage.books },
        touch: (bid.0, 0),
        moved: Some(
            BboUpdate { symbol: 0, bid_price: bid.0, bid_qty: bid.1, ask_price: 0, ask_qty: 0 },
        ),
    }
}

/// The stage with the previous order deleted.
proof fn lemma_stage_cleared(index: nat)
    requires
        0 < index <= u64::MAX,
    ensures
        stage_before(index).books.admits(deletion(index)),
        stage_before(index).accept(deletion(index)) == moved_stage(
            stage_before(index),
            cleared(index),
            (0, 0),
        ),
{
    lemma_prices((index - 1) as nat);
    lemma_deletion(index);
    lemma_touches(0, 0);
    lemma_accept(stage_before(index), deletion(index), cleared(index), None);
}

/// The stage over a probe's events: each is admitted, and the touch moves.
proof fn lemma_stage(index: nat)
    requires
        index < u64::MAX,
    ensures
        ({
            let stage = stage_before(index);
            let events = handler::read(probe_payload(index)).events;
            &&& stage.admits_all(events)
            &&& stage.accept_all(events) == (StageState {
                moved: Some(probe_update(index)),
                ..stage_before(index + 1)
            })
        }),
{
    let stage = stage_before(index);
    let events = handler::read(probe_payload(index)).events;
    let bid = (probe_bid(index), probe_qty());
    let before = if index == 0 {
        stage
    } else {
        moved_stage(stage, cleared(index), (0, 0))
    };
    lemma_events(index);
    lemma_prices(index);
    lemma_addition(index);
    lemma_touches(bid.0, bid.1);
    if index > 0 {
        lemma_stage_cleared(index);
    }
    lemma_accept(before, addition(index), book_before(index + 1), Some(bid));
    let after = moved_stage(before, book_before(index + 1), bid);
    assert(after.books.symbols =~= stage_before(index + 1).books.symbols);
    assert(after =~= StageState { moved: Some(probe_update(index)), ..stage_before(index + 1) });
    lemma_two_events(stage, deletion(index), addition(index));
}

/// One event, and two, taken in turn.
proof fn lemma_two_events(stage: StageState, first: Event, second: Event)
    ensures
        stage.accept_all(seq![second]) == stage.accept(second),
        stage.admits_all(seq![second]) == stage.books.admits(second),
        stage.accept_all(seq![first, second]) == stage.accept(first).accept(second),
        stage.admits_all(seq![first, second]) == (stage.books.admits(first) && stage.accept(
            first,
        ).books.admits(second)),
{
    assert(stage.accept_all(seq![]) == stage);
    assert(stage.admits_all(seq![]));
    assert(seq![first].drop_last() =~= seq![]);
    assert(seq![second].drop_last() =~= seq![]);
    assert(seq![first, second].drop_last() =~= seq![first]);
    assert(stage.accept_all(seq![first]) == stage.accept(first));
    assert(stage.admits_all(seq![first]) == stage.books.admits(first));
}

/// A probe takes the handler to where the next one finds it.
proof fn lemma_step(index: nat)
    requires
        2 * index + 2 <= u64::MAX,
    ensures
        ({
            let before = HandlerState { lines: lines_before(index), stage: stage_before(index) };
            let header = probe_header(index);
            let payload = probe_payload(index);
            &&& before.admits(header, payload)
            &&& before.outcome(header, payload) == (Received::Delivered {
                update: Some(probe_update(index)),
                undecodable: 0,
            })
            &&& before.take(header, payload) == (HandlerState {
                lines: lines_before(index + 1),
                stage: stage_before(index + 1),
            })
        }),
{
    let before = HandlerState { lines: lines_before(index), stage: stage_before(index) };
    let header = probe_header(index);
    let payload = probe_payload(index);
    let events = handler::read(payload).events;
    let offered = before.lines.offered(header, payload);
    lemma_events(index);
    lemma_stage(index);
    assert(before.lines.verdict(header, payload) is Deliver);
    assert(offered =~= lines_before(index + 1));
    assert(!offered.ready());
    assert(offered.drained() == offered);
    assert(offered.released() =~= Seq::empty());
    assert(handler::read_all(offered.released()) =~= Seq::empty());
    assert(before.brought(header, payload) =~= events);
}

proof fn lemma_before(count: nat)
    requires
        2 * count <= u64::MAX,
    ensures
        after_probes(count) == (HandlerState {
            lines: lines_before(count),
            stage: stage_before(count),
        }),
    decreases count,
{
    if count == 0 {
        let symbols = BooksState::empty(4, probe_band()).symbols;
        assert(orders_before(0) =~= Map::empty());
        assert(symbols.update(0, book_before(0)) =~= symbols);
        assert(fresh_handler() =~= HandlerState {
            lines: lines_before(0),
            stage: stage_before(0),
        });
    } else {
        let last = (count - 1) as nat;
        lemma_before(last);
        lemma_step(last);
    }
}

/// One probe in, one order out. However many probes came before, the next one
/// is delivered, moves the touch to its own price, and is answered with
/// exactly one order, at that price and under the next number.
pub proof fn lemma_one_order_per_probe(index: nat)
    requires
        2 * index + 2 <= u64::MAX,
    ensures
        ({
            let handler = after_probes(index);
            let header = probe_header(index);
            let payload = probe_payload(index);
            let strategy = strategy_after(index);
            let update = probe_update(index);
            &&& probe::probe_packet(index) == mold::header_bytes(header) + payload
            &&& handler.admits(header, payload)
            &&& handler.outcome(header, payload) == (Received::Delivered {
                update: Some(update),
                undecodable: 0,
            })
            &&& pipeline::is_answered(strategy, update)
            &&& pipeline::answer(strategy, update) == (OrderCommand {
                client_order_id: (index + 1) as u64,
                symbol: 0,
                side: Side::Ask,
                price: probe_bid(index),
                qty: pipeline::MOST,
            })
            &&& update.bid_price == strategy_after(index + 1).last_bid
        }),
{
    lemma_before(index);
    lemma_step(index);
    lemma_prices(index);
}

/// Nothing that a probe brings comes near what an order table can grow to.
proof fn lemma_probe_roomy(index: nat)
    requires
        2 * index + 2 <= u64::MAX,
    ensures
        after_probes(index).roomy(probe_header(index), probe_payload(index)),
{
    let before = after_probes(index);
    let books = before.stage.books;
    let brought = before.brought(probe_header(index), probe_payload(index));
    lemma_before(index);
    lemma_step(index);
    lemma_events(index);
    assert(brought.len() <= 2) by {
        let offered = before.lines.offered(probe_header(index), probe_payload(index));
        assert(offered =~= lines_before(index + 1));
        assert(offered.released() =~= Seq::empty());
        assert(handler::read_all(offered.released()) =~= Seq::empty());
    }
    assert forall|i: int|
        #![trigger books.symbols[i]]
        0 <= i < books.symbols.len() implies {
        &&& books.symbols[i].orders.dom().finite()
        &&& books.symbols[i].orders.dom().len() + brought.len() < usize::MAX / 16
    } by {
        assert(books.symbols[i].orders.dom().len() <= 1);
    }
}

/// A handler that has received so many probes and nothing else delivers the
/// next one, and is then where the one after it finds it. So from a new handler
/// on, every call of [`FeedHandler::receive`] with the next probe delivers it.
pub proof fn lemma_next_probe_is_delivered(
    before: FeedHandler,
    received: Received,
    after: FeedHandler,
    index: nat,
)
    requires
        2 * index + 2 <= u64::MAX,
        before@ == after_probes(index),
        !before.outgrown(),
        before.receives(probe::probe_packet(index), received, after),
    ensures
        received == (Received::Delivered { update: Some(probe_update(index)), undecodable: 0 }),
        after@ == after_probes(index + 1),
        !after.outgrown(),
{
    let header = probe_header(index);
    let payload = probe_payload(index);
    lemma_one_order_per_probe(index);
    lemma_probe_roomy(index);
    lemma_packet_parts(header, payload);
    assert(handler::header_of(probe::probe_packet(index), header));
    lemma_taken(before, header, payload, received, after);
}

/// A packet falls into its header and its payload.
proof fn lemma_packet_parts(header: Header, payload: Seq<u8>)
    ensures
        ({
            let packet = mold::header_bytes(header) + payload;
            &&& packet.len() >= mold::HEADER_LEN
            &&& packet.skip(mold::HEADER_LEN as int) == payload
            &&& handler::header_of(packet, header)
        }),
{
    let packet = mold::header_bytes(header) + payload;
    mold::lemma_header_roundtrip(header, payload);
    wire::lemma_be_bytes_len(header.sequence as nat, 8);
    wire::lemma_be_bytes_len(header.count as nat, 2);
    assert(packet.skip(mold::HEADER_LEN as int) =~= payload);
}

/// What a handler with room admits is not refused.
proof fn lemma_taken(
    before: FeedHandler,
    header: Header,
    payload: Seq<u8>,
    received: Received,
    after: FeedHandler,
)
    requires
        before.takes(header, payload, received, after),
        before@.admits(header, payload),
        before@.roomy(header, payload),
        !before.outgrown(),
    ensures
        received == before@.outcome(header, payload),
        after@ == before@.take(header, payload),
        !after.outgrown(),
{
}

} // verus!
