//! Market data: one normalized event type, and the contract that every wire
//! format's parser shares.

use vstd::prelude::*;

pub mod fix;
pub mod itch;
pub mod json;
pub mod mold;
pub mod synth;
pub mod text;

verus! {

/// Fixed-point scale for prices.
pub const PRICE_SCALE: i64 = 100_000_000;

/// Fixed-point scale for quantities.
pub const QTY_SCALE: i64 = 100_000_000;

/// What an event does to a book.
#[derive(Clone, Copy, Debug, Eq, PartialEq, Structural)]
pub enum Kind {
    /// A new resting order.
    Add,
    /// Part or all of a resting order traded.
    Execute,
    /// Shares removed from a resting order without trading.
    Cancel,
    /// A resting order removed entirely.
    Delete,
    /// An order re-priced or re-sized: the old ID dies, `aux` carries the new one.
    Replace,
    /// An absolute price-level quantity; zero means the level is gone.
    Level,
    /// A print.
    Trade,
}

#[derive(Clone, Copy, Debug, Eq, PartialEq, Structural)]
pub enum Side {
    Bid,
    Ask,
}

/// One normalized market data event. Fields a kind does not use are zero.
#[derive(Clone, Copy, Debug, Eq, PartialEq, Structural)]
pub struct Event {
    pub kind: Kind,
    pub side: Side,
    /// Index into the feed's symbol table.
    pub symbol: u16,
    /// Fixed-point, [`PRICE_SCALE`].
    pub price: i64,
    /// Fixed-point, [`QTY_SCALE`].
    pub qty: i64,
    /// Order reference for order-by-order feeds.
    pub order_id: u64,
    /// The replacement order ID for [`Kind::Replace`], the match number for
    /// executions and prints.
    pub aux: u64,
}

/// The event whose every field is zero; its kind is a print.
pub open spec fn zero_event() -> Event {
    Event {
        kind: Kind::Trade,
        side: Side::Bid,
        symbol: 0,
        price: 0,
        qty: 0,
        order_id: 0,
        aux: 0,
    }
}

impl Event {
    #[must_use]
    pub fn zeroed() -> (event: Self)
        ensures
            event == zero_event(),
    {
        Event {
            kind: Kind::Trade,
            side: Side::Bid,
            symbol: 0,
            price: 0,
            qty: 0,
            order_id: 0,
            aux: 0,
        }
    }
}

/// Why a parser stopped.
#[derive(Clone, Copy, Debug, Eq, PartialEq, Structural)]
pub enum FeedError {
    /// The buffer ends mid-message. Not a fault: read more and re-offer.
    NeedMore,
    /// The bytes cannot be this format. The offset says where.
    Malformed { offset: usize },
    /// A symbol the table does not know.
    UnknownSymbol { offset: usize },
}

/// Where parsed events go.
pub trait Sink {
    /// Every event accepted so far, oldest first.
    spec fn received(&self) -> Seq<Event>;

    fn accept(&mut self, event: &Event)
        ensures
            final(self).received() == old(self).received().push(*event),
    ;
}

/// A vector collects.
impl Sink for Vec<Event> {
    open spec fn received(&self) -> Seq<Event> {
        self@
    }

    fn accept(&mut self, event: &Event) {
        self.push(*event);
    }
}

/// What a byte stream means under one format: the events in it, in order, and
/// how reading it ends. `Ok(n)` says that `n` bytes hold whole messages and
/// the rest is the start of one.
#[verifier::ext_equal]
pub struct Decoding {
    pub events: Seq<Event>,
    pub outcome: Result<usize, FeedError>,
}

impl Decoding {
    /// A stream that ends at once with `outcome`.
    pub open spec fn stop(outcome: Result<usize, FeedError>) -> Decoding {
        Decoding { events: Seq::empty(), outcome }
    }

    /// The same stream, preceded by `events`.
    pub open spec fn after(self, events: Seq<Event>) -> Decoding {
        Decoding { events: events + self.events, outcome: self.outcome }
    }
}

/// The same error, `by` bytes further on.
pub open spec fn error_shifted(error: FeedError, by: int) -> FeedError {
    match error {
        FeedError::NeedMore => FeedError::NeedMore,
        FeedError::Malformed { offset } => FeedError::Malformed { offset: (offset + by) as usize },
        FeedError::UnknownSymbol { offset } => FeedError::UnknownSymbol {
            offset: (offset + by) as usize,
        },
    }
}

/// The same reading, of bytes that stand `by` further on.
pub open spec fn shifted(reading: Decoding, by: int) -> Decoding {
    Decoding {
        outcome: match reading.outcome {
            Ok(consumed) => Ok((consumed + by) as usize),
            Err(error) => Err(error_shifted(error, by)),
        },
        ..reading
    }
}

/// A stream split in two reads as it does whole: where its first part is
/// refused the whole is, in the same place; and otherwise the whole reads as
/// the first part followed by what the first part left over, glued to the
/// second. `part` reads the first part, `whole` the stream, and `glued` what
/// is left over after so many bytes together with the second part.
pub open spec fn resumes(
    part: Decoding,
    whole: Decoding,
    glued: spec_fn(int) -> Decoding,
) -> bool {
    match part.outcome {
        Ok(consumed) => whole == shifted(glued(consumed as int), consumed as int).after(
            part.events,
        ),
        Err(_) => whole == part,
    }
}

/// Cutting a clean stream short never makes it malformed: what is there reads
/// cleanly, as the beginning of what the whole says.
pub proof fn lemma_truncation_survives(
    part: Decoding,
    whole: Decoding,
    glued: spec_fn(int) -> Decoding,
)
    requires
        resumes(part, whole, glued),
        whole.outcome is Ok,
    ensures
        part.outcome is Ok,
        part.events.is_prefix_of(whole.events),
{
}

/// A whole message of a stream: where it ends, and its events.
pub struct Span {
    pub end: int,
    pub events: Seq<Event>,
}

/// Messages that follow each other from `at`, read as far as `cut`: up to the
/// end of the last one that ends there or before.
pub open spec fn read_until(spans: Seq<Span>, at: int, cut: int) -> Decoding
    decreases spans.len(),
{
    if spans.len() == 0 || spans[0].end > cut {
        Decoding::stop(Ok(at as usize))
    } else {
        read_until(spans.skip(1), spans[0].end, cut).after(spans[0].events)
    }
}

/// Parses whole messages from the front of `bytes`, emitting into `sink`.
/// The result says how many bytes were consumed; the caller re-offers the tail
/// glued to the next read.
pub trait Parser {
    /// What `bytes` means in this format.
    spec fn decoding(&self, bytes: Seq<u8>) -> Decoding;

    fn parse<S: Sink>(&self, bytes: &[u8], sink: &mut S) -> (result: Result<usize, FeedError>)
        ensures
            result == self.decoding(bytes@).outcome,
            final(sink).received() == old(sink).received() + self.decoding(bytes@).events,
            result matches Ok(consumed) ==> consumed <= bytes@.len(),
    ;
}

/// The names of a symbol table.
pub open spec fn names(table: Seq<&[u8]>) -> Seq<Seq<u8>> {
    table.map_values(|name: &[u8]| name@)
}

/// The first place where `name` stands in `table`.
pub open spec fn symbol_index(table: Seq<Seq<u8>>, name: Seq<u8>) -> Option<u16> {
    match table.index_of_first(name) {
        Some(index) => Some(index as u16),
        None => None,
    }
}

/// Whether an event is about a symbol of the table, and leaves at zero what
/// its kind does not use.
pub open spec fn normal(table: Seq<Seq<u8>>, event: Event) -> bool {
    &&& event.symbol < table.len()
    &&& match event.kind {
        Kind::Add => event.aux == 0,
        Kind::Execute => event.side == Side::Bid && event.price == 0,
        Kind::Cancel => event.side == Side::Bid && event.price == 0 && event.aux == 0,
        Kind::Delete => {
            &&& event.side == Side::Bid
            &&& event.price == 0
            &&& event.qty == 0
            &&& event.aux == 0
        },
        Kind::Replace => event.side == Side::Bid,
        Kind::Level => event.order_id == 0 && event.aux == 0,
        Kind::Trade => true,
    }
}

pub open spec fn all_normal(table: Seq<Seq<u8>>, events: Seq<Event>) -> bool {
    forall|i: int| 0 <= i < events.len() ==> normal(table, #[trigger] events[i])
}

pub proof fn lemma_normal_adds(table: Seq<Seq<u8>>, a: Seq<Event>, b: Seq<Event>)
    requires
        all_normal(table, a),
        all_normal(table, b),
    ensures
        all_normal(table, a + b),
{
    assert forall|i: int| 0 <= i < (a + b).len() implies normal(table, #[trigger] (a + b)[i]) by {
        if i < a.len() {
            assert((a + b)[i] == a[i]);
        } else {
            assert((a + b)[i] == b[i - a.len()]);
        }
    }
}

/// What is found stands in the table.
pub proof fn lemma_symbol_index(table: Seq<Seq<u8>>, name: Seq<u8>)
    ensures
        symbol_index(table, name) matches Some(symbol) ==> symbol < table.len(),
{
    table.index_of_first_ensures(name);
}

/// Whether two byte strings are the same.
pub fn same_bytes(a: &[u8], b: &[u8]) -> (same: bool)
    ensures
        same == (a@ == b@),
{
    if a.len() != b.len() {
        return false;
    }
    let mut i: usize = 0;
    while i < a.len()
        invariant
            i <= a@.len(),
            a@.len() == b@.len(),
            forall|j: int| 0 <= j < i ==> a@[j] == b@[j],
        decreases a@.len() - i,
    {
        if a[i] != b[i] {
            return false;
        }
        i = i + 1;
    }
    assert(a@ =~= b@);
    true
}

/// Matches a symbol against a small table, returning its index.
#[must_use]
pub fn lookup(table: &[&[u8]], name: &[u8]) -> (index: Option<u16>)
    ensures
        index == symbol_index(names(table@), name@),
{
    let ghost known = names(table@);
    proof {
        known.index_of_first_ensures(name@);
    }
    let mut i: usize = 0;
    while i < table.len()
        invariant
            i <= table@.len(),
            known == names(table@),
            known.len() == table@.len(),
            forall|j: int| 0 <= j < i ==> known[j] != name@,
            match known.index_of_first(name@) {
                Some(at) => {
                    &&& 0 <= at < known.len()
                    &&& known[at] == name@
                    &&& forall|j: int| 0 <= j < at ==> known[j] != name@
                },
                None => !known.contains(name@),
            },
        decreases table@.len() - i,
    {
        assert(known[i as int] == table@[i as int]@);
        if same_bytes(table[i], name) {
            assert(known.contains(name@));
            return Some(i as u16);
        }
        i = i + 1;
    }
    None
}

/// A deterministic generator seed shared by tests and benchmarks.
pub const GENERATOR_SEED: u64 = 0x5eed_f00d_0000_0001;

/// SplitMix64.
#[derive(Clone, Debug)]
pub struct Rng(pub u64);

/// The generator's state after one step.
pub open spec fn rng_next(state: u64) -> u64 {
    state.wrapping_add(0x9e37_79b9_7f4a_7c15)
}

/// The value that a step reaching `state` returns.
pub open spec fn rng_mix(state: u64) -> u64 {
    let y = (state ^ (state >> 30)).wrapping_mul(0xbf58_476d_1ce4_e5b9);
    let z = (y ^ (y >> 27)).wrapping_mul(0x94d0_49bb_1331_11eb);
    z ^ (z >> 31)
}

impl Rng {
    pub fn step(&mut self) -> (value: u64)
        ensures
            final(self).0 == rng_next(old(self).0),
            value == rng_mix(final(self).0),
    {
        self.0 = self.0.wrapping_add(0x9e37_79b9_7f4a_7c15);
        let mut z: u64 = self.0;
        z = (z ^ (z >> 30)).wrapping_mul(0xbf58_476d_1ce4_e5b9);
        z = (z ^ (z >> 27)).wrapping_mul(0x94d0_49bb_1331_11eb);
        z ^ (z >> 31)
    }

    /// In `[0, bound)`.
    pub fn below(&mut self, bound: u64) -> (value: u64)
        requires
            bound > 0,
        ensures
            final(self).0 == rng_next(old(self).0),
            value == rng_mix(final(self).0) % bound,
            value < bound,
    {
        self.step() % bound
    }
}

} // verus!
