//! Orders: where every field stands on the wire, when the touch is announced,
//! and what the strategy makes of it.

use vstd::prelude::*;

use crate::book::ladder;
use crate::book::ladder::Band;
use crate::feed::{Event, Side};
use crate::pipeline;
use crate::pipeline::{BboUpdate, OrderCommand, StageState, StrategyState};
use crate::promises;
use crate::promises::{eight_up, two_up};
use crate::wire;

verus! {

/// A number that may be negative, as 64 bits write it.
pub open spec fn pattern(n: i64) -> int {
    if n < 0 {
        n + 0x1_0000_0000_0000_0000
    } else {
        n as int
    }
}

/// Whether 32 bytes write the order: the number in eight bytes, the symbol in
/// two, the side in one, five bytes of nothing, the price in eight and the
/// quantity in eight, least significant first.
pub open spec fn writes(bytes: Seq<u8>, order: OrderCommand) -> bool {
    &&& bytes.len() == 32
    &&& eight_up(bytes, 0) == order.client_order_id
    &&& two_up(bytes, 8) == order.symbol
    &&& bytes[10] == (if order.side == Side::Bid {
        0u8
    } else {
        1u8
    })
    &&& eight_up(bytes, 16) == pattern(order.price)
    &&& eight_up(bytes, 24) == pattern(order.qty)
}

proof fn lemma_parts(bytes: Seq<u8>)
    requires
        bytes.len() == 32,
    ensures
        wire::le_value(bytes.subrange(0, 8)) == eight_up(bytes, 0),
        wire::le_value(bytes.subrange(8, 10)) == two_up(bytes, 8),
        wire::le_value(bytes.subrange(16, 24)) == eight_up(bytes, 16),
        wire::le_value(bytes.subrange(24, 32)) == eight_up(bytes, 24),
        0 <= eight_up(bytes, 0) <= u64::MAX,
        0 <= two_up(bytes, 8) <= u16::MAX,
        0 <= eight_up(bytes, 16) <= u64::MAX,
        0 <= eight_up(bytes, 24) <= u64::MAX,
{
    promises::lemma_eight_up(bytes.subrange(0, 8));
    promises::lemma_two_up(bytes.subrange(8, 10));
    promises::lemma_eight_up(bytes.subrange(16, 24));
    promises::lemma_eight_up(bytes.subrange(24, 32));
}

/// An order's bytes have that layout, and nothing stands between the side and the
/// price.
pub proof fn lemma_order_layout(order: OrderCommand)
    ensures
        writes(pipeline::order_bytes(order), order),
        forall|i: int| 11 <= i < 16 ==> #[trigger] pipeline::order_bytes(order)[i] == 0,
{
    let bytes = pipeline::order_bytes(order);
    pipeline::lemma_order_roundtrip(order);
    lemma_parts(bytes);
    wire::lemma_le_bytes_len(order.client_order_id as nat, 8);
    wire::lemma_le_bytes_len(order.symbol as nat, 2);
    wire::lemma_le_bytes_len(wire::as_unsigned(order.price), 8);
    wire::lemma_le_bytes_len(wire::as_unsigned(order.qty), 8);
    wire::lemma_pow256();
    wire::lemma_le_roundtrip(order.client_order_id as nat, 8);
    wire::lemma_le_roundtrip(order.symbol as nat, 2);
    wire::lemma_le_roundtrip(wire::as_unsigned(order.price), 8);
    wire::lemma_le_roundtrip(wire::as_unsigned(order.qty), 8);
    assert(bytes.subrange(0, 8) =~= wire::le_bytes(order.client_order_id as nat, 8));
    assert(bytes.subrange(8, 10) =~= wire::le_bytes(order.symbol as nat, 2));
    assert(bytes.subrange(16, 24) =~= wire::le_bytes(wire::as_unsigned(order.price), 8));
    assert(bytes.subrange(24, 32) =~= wire::le_bytes(wire::as_unsigned(order.qty), 8));
}

/// An order that is sent has that layout, and nothing stands between the side
/// and the price.
pub proof fn lemma_order_sent(order: OrderCommand, out: [u8; 32])
    requires
        call_ensures(OrderCommand::encode, (&order,), out),
    ensures
        writes(out@, order),
        forall|i: int| 11 <= i < 16 ==> #[trigger] out@[i] == 0,
{
    lemma_order_layout(order);
}

/// Bytes are read as the order that they write, whatever stands in between, and
/// as none where the side is neither.
pub proof fn lemma_order_read(bytes: [u8; 32], read: Option<OrderCommand>)
    requires
        call_ensures(OrderCommand::decode, (&bytes,), read),
    ensures
        bytes@[10] > 1 ==> read is None,
        bytes@[10] <= 1 ==> read is Some && writes(bytes@, read->0),
{
    lemma_parts(bytes@);
}

// ------------------------------------------------------------------- the touch

/// Whether the best of `levels` is this price with this quantity: the highest
/// price for bids, the lowest for asks, and zeros where there is no level.
pub open spec fn is_best(levels: Map<i64, i64>, bids: bool, price: i64, qty: i64) -> bool {
    if levels =~= Map::empty() {
        price == 0 && qty == 0
    } else {
        &&& levels.contains_key(price)
        &&& levels[price] == qty
        &&& forall|other: i64|
            #![trigger levels.contains_key(other)]
            levels.contains_key(other) ==> if bids {
                other <= price
            } else {
                price <= other
            }
    }
}

proof fn lemma_best(levels: Map<i64, i64>, bids: bool, price: i64, qty: i64)
    requires
        is_best(levels, bids, price, qty),
    ensures
        pipeline::or_zeros(ladder::touch(levels, !bids)) == (price, qty),
{
    if levels =~= Map::empty() {
        ladder::lemma_no_touch(!bids);
    } else {
        promises::ladder::lemma_the_best_price(levels, !bids, price);
    }
}

/// An event is applied to the books. Where the best bid or ask price of the
/// first symbol is then another than last announced, the touch is announced with
/// what rests there; otherwise nothing is announced and nothing taken back.
#[verifier::rlimit(30)]
pub proof fn lemma_when_the_touch_is_announced(
    stage: StageState,
    event: Event,
    bid: (i64, i64),
    ask: (i64, i64),
)
    requires
        ({
            let first = stage.books.apply(event).symbols[0];
            &&& !first.bids.descending
            &&& first.asks.descending
            &&& is_best(first.bids.levels, true, bid.0, bid.1)
            &&& is_best(first.asks.levels, false, ask.0, ask.1)
        }),
    ensures
        ({
            let after = stage.accept(event);
            &&& after.books == stage.books.apply(event)
            &&& after.touch == (bid.0, ask.0)
            &&& bid.0 == stage.touch.0 && ask.0 == stage.touch.1 ==> after.moved == stage.moved
            &&& bid.0 != stage.touch.0 || ask.0 != stage.touch.1 ==> after.moved == Some(
                BboUpdate {
                    symbol: 0,
                    bid_price: bid.0,
                    bid_qty: bid.1,
                    ask_price: ask.0,
                    ask_qty: ask.1,
                },
            )
        }),
{
    let first = stage.books.apply(event).symbols[0];
    lemma_best(first.bids.levels, true, bid.0, bid.1);
    lemma_best(first.asks.levels, false, ask.0, ask.1);
}

/// A run of events is each of them in turn.
pub proof fn lemma_events_in_turn(stage: StageState, events: Seq<Event>, event: Event)
    ensures
        stage.accept_all(Seq::empty()) == stage,
        stage.accept_all(events.push(event)) == stage.accept_all(events).accept(event),
        stage.admits_all(Seq::empty()),
        stage.admits_all(events.push(event)) == (stage.admits_all(events) && stage.accept_all(
            events,
        ).books.admits(event)),
{
    assert(events.push(event).drop_last() =~= events);
}

/// An update is answered exactly where its bid price is another than the last
/// one's and something rests there: with an order to sell at that price what
/// rests, or one unit where that is less, under the next number.
pub proof fn lemma_what_is_answered(strategy: StrategyState, update: BboUpdate)
    requires
        strategy.next_id < u64::MAX,
    ensures
        pipeline::is_answered(strategy, update) <==> update.bid_price != strategy.last_bid
            && update.bid_qty > 0,
        ({
            let order = pipeline::answer(strategy, update);
            &&& order.client_order_id == strategy.next_id + 1
            &&& order.symbol == update.symbol
            &&& order.side == Side::Ask
            &&& order.price == update.bid_price
            &&& order.qty <= update.bid_qty
            &&& order.qty <= 100_000_000
            &&& order.qty == update.bid_qty || order.qty == 100_000_000
        }),
{
}

/// The band is 5,070 one-cent ticks.
pub proof fn lemma_the_band(band: Band)
    requires
        call_ensures(pipeline::band, (), band),
    ensures
        band.tick == 1_000_000,
        band.ticks == 5_070,
{
}

} // verus!
