//! The pipeline's shared vocabulary: the signal the feed stage hands the
//! strategy, the order the strategy hands the gateway, and the order's wire
//! form. Three stages, two rings, one direction.

use vstd::prelude::*;

use crate::book::ladder;
use crate::book::ladder::Band;
use crate::book::{Books, BooksState};
use crate::feed::{Event, Side};
use crate::powers;
use crate::wire;

pub mod affinity;
pub mod answered;
pub mod gateway;
pub mod handler;
pub mod probe;
pub mod session;
pub mod venue;

verus! {

/// What the feed stage tells the strategy: the touch moved.
#[derive(Clone, Copy, Debug, Eq, PartialEq, Structural)]
pub struct BboUpdate {
    pub symbol: u16,
    pub bid_price: i64,
    pub bid_qty: i64,
    pub ask_price: i64,
    pub ask_qty: i64,
}

/// What the strategy tells the gateway to send.
#[derive(Clone, Copy, Debug, Eq, PartialEq, Structural)]
pub struct OrderCommand {
    pub client_order_id: u64,
    pub symbol: u16,
    pub side: Side,
    pub price: i64,
    pub qty: i64,
}

/// One order on the wire: 32 bytes, little-endian, fixed layout.
pub const ORDER_WIRE_LEN: usize = 32;

pub open spec fn side_code(side: Side) -> u8 {
    match side {
        Side::Bid => 0,
        Side::Ask => 1,
    }
}

/// An order's bytes: ID, symbol, side, five bytes of padding, price, quantity.
pub open spec fn order_bytes(order: OrderCommand) -> Seq<u8> {
    wire::le_bytes(order.client_order_id as nat, 8) + wire::le_bytes(order.symbol as nat, 2) + seq![
        side_code(order.side),
        0u8,
        0u8,
        0u8,
        0u8,
        0u8,
    ] + wire::le_bytes(wire::as_unsigned(order.price), 8) + wire::le_bytes(
        wire::as_unsigned(order.qty),
        8,
    )
}

/// The order that 32 bytes carry; none where the side is neither.
pub open spec fn order_from(bytes: Seq<u8>) -> Option<OrderCommand> {
    let order = |side: Side|
        OrderCommand {
            client_order_id: wire::le_value(bytes.subrange(0, 8)) as u64,
            symbol: wire::le_value(bytes.subrange(8, 10)) as u16,
            side,
            price: wire::as_signed(wire::le_value(bytes.subrange(16, 24))) as i64,
            qty: wire::as_signed(wire::le_value(bytes.subrange(24, 32))) as i64,
        };
    if bytes[10] == 0 {
        Some(order(Side::Bid))
    } else if bytes[10] == 1 {
        Some(order(Side::Ask))
    } else {
        None
    }
}

impl OrderCommand {
    #[must_use]
    pub fn encode(&self) -> (out: [u8; 32])
        ensures
            out@ == order_bytes(*self),
    {
        let mut bytes: Vec<u8> = Vec::new();
        wire::put_le(&mut bytes, self.client_order_id, 8);
        wire::put_le(&mut bytes, self.symbol as u64, 2);
        bytes.push(
            match self.side {
                Side::Bid => 0,
                Side::Ask => 1,
            },
        );
        bytes.extend_from_slice(&[0u8, 0, 0, 0, 0]);
        wire::put_le(&mut bytes, wire::to_unsigned(self.price), 8);
        wire::put_le(&mut bytes, wire::to_unsigned(self.qty), 8);
        proof {
            assert(bytes@ =~= order_bytes(*self));
            lemma_order_len(*self);
        }
        let mut out = [0u8; 32];
        let mut i: usize = 0;
        while i < 32
            invariant
                i <= 32,
                bytes@.len() == 32,
                out@.len() == 32,
                forall|j: int| 0 <= j < i ==> out@[j] == bytes@[j],
            decreases 32 - i,
        {
            out[i] = bytes[i];
            i = i + 1;
        }
        assert(out@ =~= bytes@);
        out
    }

    #[must_use]
    pub fn decode(bytes: &[u8; 32]) -> (order: Option<Self>)
        ensures
            order == order_from(bytes@),
    {
        let side = match bytes[10] {
            0 => Side::Bid,
            1 => Side::Ask,
            _ => {
                return None;
            },
        };
        let all: &[u8] = bytes;
        proof {
            wire::lemma_le_value_bound(bytes@.subrange(8, 10));
            wire::lemma_le_value_bound(bytes@.subrange(16, 24));
            wire::lemma_le_value_bound(bytes@.subrange(24, 32));
            wire::lemma_pow256();
        }
        Some(
            OrderCommand {
                client_order_id: wire::read_le(&all[0..8]),
                symbol: wire::read_le(&all[8..10]) as u16,
                side,
                price: wire::to_signed(wire::read_le(&all[16..24])),
                qty: wire::to_signed(wire::read_le(&all[24..32])),
            },
        )
    }
}

proof fn lemma_order_len(order: OrderCommand)
    ensures
        order_bytes(order).len() == ORDER_WIRE_LEN,
{
    wire::lemma_le_bytes_len(order.client_order_id as nat, 8);
    wire::lemma_le_bytes_len(order.symbol as nat, 2);
    wire::lemma_le_bytes_len(wire::as_unsigned(order.price), 8);
    wire::lemma_le_bytes_len(wire::as_unsigned(order.qty), 8);
}

/// An order survives the wire.
pub proof fn lemma_order_roundtrip(order: OrderCommand)
    ensures
        order_from(order_bytes(order)) == Some(order),
        order_bytes(order).len() == ORDER_WIRE_LEN,
{
    let bytes = order_bytes(order);
    let id = wire::le_bytes(order.client_order_id as nat, 8);
    let symbol = wire::le_bytes(order.symbol as nat, 2);
    let price = wire::le_bytes(wire::as_unsigned(order.price), 8);
    let qty = wire::le_bytes(wire::as_unsigned(order.qty), 8);
    lemma_order_len(order);
    wire::lemma_pow256();
    wire::lemma_signed_roundtrip(order.price);
    wire::lemma_signed_roundtrip(order.qty);
    wire::lemma_le_roundtrip(order.client_order_id as nat, 8);
    wire::lemma_le_roundtrip(order.symbol as nat, 2);
    wire::lemma_le_roundtrip(wire::as_unsigned(order.price), 8);
    wire::lemma_le_roundtrip(wire::as_unsigned(order.qty), 8);
    assert(bytes.subrange(0, 8) =~= id);
    assert(bytes.subrange(8, 10) =~= symbol);
    assert(bytes.subrange(16, 24) =~= price);
    assert(bytes.subrange(24, 32) =~= qty);
    assert(bytes[10] == side_code(order.side));
}

/// One-cent ticks.
pub const BAND_TICK: i64 = 1_000_000;

pub const BAND_TICKS: usize = 5_070;

/// The band the harness's probes stay inside.
#[must_use]
pub fn band() -> (band: Band)
    ensures
        band == (Band { tick: BAND_TICK, ticks: BAND_TICKS }),
        band.fits(),
{
    proof {
        reveal_with_fuel(powers::ceil_log2, 14);
        assert(powers::ceil_log2(5_070) == 13);
        vstd::arithmetic::power2::lemma2_to64_rest();
    }
    Band { tick: BAND_TICK, ticks: BAND_TICKS }
}

// ---------------------------------------------------------------- the feed stage

/// The feed stage's state: books, and the last touch seen for symbol zero.
#[derive(Debug)]
pub struct FeedStage {
    pub books: Books,
    touch: (i64, i64),
    moved: Option<BboUpdate>,
}

/// Where the feed stage stands.
#[verifier::ext_equal]
pub struct StageState {
    pub books: BooksState,
    /// The bid and ask price last announced; zero where there is none.
    pub touch: (i64, i64),
    /// The announcement that has not been taken yet.
    pub moved: Option<BboUpdate>,
}

/// A level, or zeros where there is none.
pub open spec fn or_zeros(level: Option<(i64, i64)>) -> (i64, i64) {
    match level {
        Some(level) => level,
        None => (0, 0),
    }
}

/// The touch of symbol zero.
pub open spec fn first_touch(books: BooksState) -> BboUpdate {
    let bid = or_zeros(ladder::touch(books.symbols[0].bids.levels, books.symbols[0].bids.descending));
    let ask = or_zeros(ladder::touch(books.symbols[0].asks.levels, books.symbols[0].asks.descending));
    BboUpdate { symbol: 0, bid_price: bid.0, bid_qty: bid.1, ask_price: ask.0, ask_qty: ask.1 }
}

impl StageState {
    /// An event applied, and the touch announced where its price moved.
    pub open spec fn accept(self, event: Event) -> StageState {
        let books = self.books.apply(event);
        let update = first_touch(books);
        if (update.bid_price, update.ask_price) != self.touch {
            StageState {
                books,
                touch: (update.bid_price, update.ask_price),
                moved: Some(update),
            }
        } else {
            StageState { books, ..self }
        }
    }

    pub open spec fn accept_all(self, events: Seq<Event>) -> StageState
        decreases events.len(),
    {
        if events.len() == 0 {
            self
        } else {
            self.accept_all(events.drop_last()).accept(events.last())
        }
    }

    /// Every event is admitted when its turn comes.
    pub open spec fn admits_all(self, events: Seq<Event>) -> bool
        decreases events.len(),
    {
        events.len() == 0 || {
            &&& self.admits_all(events.drop_last())
            &&& self.accept_all(events.drop_last()).books.admits(events.last())
        }
    }

    /// The stage that a refused event leaves behind: as it was, but for a
    /// replacement, which may have taken its old order off.
    pub open spec fn refuses(self, event: Event, after: StageState) -> bool {
        &&& self.books.refuses(event, after.books)
        &&& after == (StageState { books: after.books, ..self })
    }

    /// The stage where a run of events stopped: the first `n` of them were
    /// taken, and at most the next one was refused.
    pub open spec fn stops(self, events: Seq<Event>, n: int, after: StageState) -> bool {
        let reached = self.accept_all(events.take(n));
        &&& 0 <= n <= events.len()
        &&& self.admits_all(events.take(n))
        &&& after == reached || n < events.len() && reached.refuses(events[n], after)
    }
}

impl View for FeedStage {
    type V = StageState;

    closed spec fn view(&self) -> StageState {
        StageState { books: self.books@, touch: self.touch, moved: self.moved }
    }
}

impl FeedStage {
    pub closed spec fn wf(&self) -> bool {
        &&& self.books.wf()
        &&& self@.books.symbols.len() > 0
    }

    /// Whether the books admit `event`.
    pub closed spec fn admits(&self, event: Event) -> bool {
        self.books.admits(event)
    }

    /// Whether some order table cannot double any more.
    pub closed spec fn outgrown(&self) -> bool {
        self.books.outgrown()
    }

    /// Short of a table that cannot double, what the books hold decides.
    pub proof fn lemma_admits(&self, event: Event)
        requires
            self.wf(),
            self@.books.admits(event),
            !self.outgrown(),
        ensures
            self.admits(event),
    {
        assert(self.books.order_capacity(event.symbol as int) * 4 <= usize::MAX);
    }

    #[must_use]
    pub fn new(symbols: usize, band: Band) -> (stage: Self)
        requires
            symbols > 0,
            band.fits(),
        ensures
            stage.wf(),
            stage@ == (StageState {
                books: BooksState::empty(symbols as nat, band),
                touch: (0, 0),
                moved: None,
            }),
            !stage.outgrown(),
    {
        FeedStage { books: Books::new(symbols, band), touch: (0, 0), moved: None }
    }

    /// The update the last batch of events produced, if the touch moved.
    pub fn take_moved(&mut self) -> (update: Option<BboUpdate>)
        requires
            old(self).wf(),
        ensures
            final(self).wf(),
            update == old(self)@.moved,
            final(self)@ == (StageState { moved: None, ..old(self)@ }),
            final(self).outgrown() == old(self).outgrown(),
    {
        let update = self.moved;
        self.moved = None;
        update
    }

    /// Announces the touch of symbol zero where its price moved.
    fn announce(&mut self)
        requires
            old(self).wf(),
        ensures
            final(self).wf(),
            final(self).books == old(self).books,
            ({
                let update = first_touch(old(self)@.books);
                final(self)@ == (if (update.bid_price, update.ask_price) != old(self)@.touch {
                    StageState {
                        touch: (update.bid_price, update.ask_price),
                        moved: Some(update),
                        ..old(self)@
                    }
                } else {
                    old(self)@
                })
            }),
    {
        let book = self.books.symbol(0);
        let bid = match book.bids.best() {
            Some(best) => best,
            None => (0, 0),
        };
        let ask = match book.asks.best() {
            Some(best) => best,
            None => (0, 0),
        };
        if bid.0 != self.touch.0 || ask.0 != self.touch.1 {
            self.touch = (bid.0, ask.0);
            self.moved = Some(
                BboUpdate {
                    symbol: 0,
                    bid_price: bid.0,
                    bid_qty: bid.1,
                    ask_price: ask.0,
                    ask_qty: ask.1,
                },
            );
        }
    }

    /// Takes an event into the books.
    pub fn accept(&mut self, event: &Event)
        requires
            old(self).wf(),
            old(self).admits(*event),
        ensures
            final(self).wf(),
            final(self)@ == old(self)@.accept(*event),
            !old(self).outgrown() && old(self)@.books.room_for(0) ==> !final(self).outgrown(),
    {
        self.books.apply(event);
        self.announce();
    }

    /// Takes an event into the books if they admit it, and says whether they
    /// did.
    pub fn try_accept(&mut self, event: &Event) -> (accepted: bool)
        requires
            old(self).wf(),
        ensures
            final(self).wf(),
            accepted == old(self).admits(*event),
            accepted ==> old(self)@.books.admits(*event),
            accepted ==> final(self)@ == old(self)@.accept(*event),
            !accepted ==> !old(self)@.books.admits(*event) || final(self).outgrown(),
            !accepted ==> old(self)@.refuses(*event, final(self)@),
            !old(self).outgrown() && old(self)@.books.room_for(0) ==> !final(self).outgrown(),
    {
        if !self.books.try_apply(event) {
            return false;
        }
        self.announce();
        true
    }
}

// ------------------------------------------------------------------ the strategy

/// The strategy stage: one order per bid price change with liquidity behind
/// it. Deliberately trivial: the decision is the deployment's business.
#[derive(Debug)]
pub struct Strategy {
    last_bid: i64,
    next_id: u64,
}

/// Where the strategy stands.
#[verifier::ext_equal]
pub struct StrategyState {
    pub last_bid: i64,
    /// Orders decided so far.
    pub next_id: nat,
}

impl View for Strategy {
    type V = StrategyState;

    closed spec fn view(&self) -> StrategyState {
        StrategyState { last_bid: self.last_bid, next_id: self.next_id as nat }
    }
}

impl Default for Strategy {
    fn default() -> (strategy: Self)
        ensures
            strategy@ == (StrategyState { last_bid: 0, next_id: 0 }),
    {
        Strategy { last_bid: 0, next_id: 0 }
    }
}

/// The most that one order asks for: one unit.
pub const MOST: i64 = 100_000_000;

/// Whether an update is answered with an order.
pub open spec fn is_answered(strategy: StrategyState, update: BboUpdate) -> bool {
    update.bid_price != strategy.last_bid && update.bid_qty > 0
}

/// The order that answers an update.
pub open spec fn answer(strategy: StrategyState, update: BboUpdate) -> OrderCommand {
    OrderCommand {
        client_order_id: (strategy.next_id + 1) as u64,
        symbol: update.symbol,
        side: Side::Ask,
        price: update.bid_price,
        qty: if update.bid_qty < MOST {
            update.bid_qty
        } else {
            MOST
        },
    }
}

impl Strategy {
    /// Whether there is a number left for another order.
    #[must_use]
    pub fn can_decide(&self) -> (yes: bool)
        ensures
            yes == (self@.next_id < u64::MAX),
    {
        self.next_id < u64::MAX
    }

    #[must_use]
    pub fn decide(&mut self, update: &BboUpdate) -> (order: Option<OrderCommand>)
        requires
            is_answered(old(self)@, *update) ==> old(self)@.next_id < u64::MAX,
        ensures
            order == (if is_answered(old(self)@, *update) {
                Some(answer(old(self)@, *update))
            } else {
                None
            }),
            final(self)@.last_bid == update.bid_price,
            final(self)@.next_id == old(self)@.next_id + (if order is Some {
                1nat
            } else {
                0
            }),
    {
        let answered = update.bid_price != self.last_bid && update.bid_qty > 0;
        self.last_bid = update.bid_price;
        if !answered {
            return None;
        }
        self.next_id = self.next_id + 1;
        Some(
            OrderCommand {
                client_order_id: self.next_id,
                symbol: update.symbol,
                side: Side::Ask,
                price: update.bid_price,
                qty: if update.bid_qty < MOST {
                    update.bid_qty
                } else {
                    MOST
                },
            },
        )
    }
}

/// The strategy once it has been told of updates, and the orders it answered
/// them with.
pub open spec fn decided(updates: Seq<BboUpdate>) -> (StrategyState, Seq<OrderCommand>)
    decreases updates.len(),
{
    if updates.len() == 0 {
        (StrategyState { last_bid: 0, next_id: 0 }, Seq::empty())
    } else {
        let (before, orders) = decided(updates.drop_last());
        let update = updates.last();
        let after = StrategyState { last_bid: update.bid_price, ..before };
        if is_answered(before, update) {
            (
                StrategyState { next_id: before.next_id + 1, ..after },
                orders.push(answer(before, update)),
            )
        } else {
            (after, orders)
        }
    }
}

/// Whatever a strategy has been told: the next update is answered exactly where
/// its bid has another price than the last one had, and something behind it,
/// with an order to sell at that price, of one unit at most, numbered one more
/// than the orders before it.
pub proof fn lemma_decisions(updates: Seq<BboUpdate>, update: BboUpdate)
    ensures
        ({
            let (before, orders) = decided(updates);
            let last = if updates.len() == 0 {
                0
            } else {
                updates.last().bid_price
            };
            &&& before.last_bid == last
            &&& before.next_id == orders.len()
            &&& decided(updates.push(update)).1 == if update.bid_price != last && update.bid_qty
                > 0 {
                orders.push(
                    OrderCommand {
                        client_order_id: (orders.len() + 1) as u64,
                        symbol: update.symbol,
                        side: Side::Ask,
                        price: update.bid_price,
                        qty: if update.bid_qty < MOST {
                            update.bid_qty
                        } else {
                            MOST
                        },
                    },
                )
            } else {
                orders
            }
        }),
    decreases updates.len(),
{
    assert(updates.push(update).drop_last() =~= updates);
    if updates.len() > 0 {
        lemma_decisions(updates.drop_last(), updates.last());
        assert(updates.drop_last().push(updates.last()) =~= updates);
    }
}

} // verus!
