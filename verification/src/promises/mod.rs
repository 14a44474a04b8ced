//! What callers may rely on, said in arithmetic and in bytes: what comes out of
//! each operation, for every input, without the definitions that the code is
//! proved against.

use vstd::prelude::*;

use crate::feed::{Decoding, Event, FeedError, Kind, Side};
use crate::wire;

pub mod books;
pub mod fix;
pub mod gateway;
pub mod handler;
pub mod itch;
pub mod json;
pub mod ladder;
pub mod lines;
pub mod orders;
pub mod rings;
pub mod session;
pub mod synth;
pub mod text;
pub mod values;

verus! {

// ---------------------------------------------------------------------- numbers

/// The two bytes at `i`, most significant first.
pub open spec fn two(b: Seq<u8>, i: int) -> int {
    b[i] * 0x100 + b[i + 1]
}

/// The four bytes at `i`, most significant first.
pub open spec fn four(b: Seq<u8>, i: int) -> int {
    b[i] * 0x100_0000 + b[i + 1] * 0x1_0000 + b[i + 2] * 0x100 + b[i + 3]
}

/// The eight bytes at `i`, most significant first.
pub open spec fn eight(b: Seq<u8>, i: int) -> int {
    b[i] * 0x100_0000_0000_0000 + b[i + 1] * 0x1_0000_0000_0000 + b[i + 2] * 0x100_0000_0000 + b[i
        + 3] * 0x1_0000_0000 + four(b, i + 4)
}

/// The eight bytes at `i`, least significant first.
pub open spec fn eight_up(b: Seq<u8>, i: int) -> int {
    b[i] + b[i + 1] * 0x100 + b[i + 2] * 0x1_0000 + b[i + 3] * 0x100_0000 + b[i + 4]
        * 0x1_0000_0000 + b[i + 5] * 0x100_0000_0000 + b[i + 6] * 0x1_0000_0000_0000 + b[i + 7]
        * 0x100_0000_0000_0000
}

/// The two bytes at `i`, least significant first.
pub open spec fn two_up(b: Seq<u8>, i: int) -> int {
    b[i] + b[i + 1] * 0x100
}

pub proof fn lemma_two(s: Seq<u8>)
    requires
        s.len() == 2,
    ensures
        wire::be_value(s) == two(s, 0),
{
    reveal_with_fuel(wire::be_value, 3);
    assert(s.drop_last().drop_last() =~= Seq::<u8>::empty());
}

pub proof fn lemma_four(s: Seq<u8>)
    requires
        s.len() == 4,
    ensures
        wire::be_value(s) == four(s, 0),
        0 <= four(s, 0) < 0x1_0000_0000,
{
    let front = s.drop_last().drop_last();
    lemma_two(front);
    reveal_with_fuel(wire::be_value, 3);
}

pub proof fn lemma_eight(s: Seq<u8>)
    requires
        s.len() == 8,
    ensures
        wire::be_value(s) == eight(s, 0),
        0 <= eight(s, 0) <= u64::MAX,
{
    let front = s.drop_last().drop_last().drop_last().drop_last();
    lemma_four(front);
    reveal_with_fuel(wire::be_value, 5);
    assert(wire::be_value(s.drop_last().drop_last().drop_last()) == four(front, 0) * 0x100 + s[4]);
    assert(wire::be_value(s.drop_last().drop_last()) == four(front, 0) * 0x1_0000 + s[4] * 0x100
        + s[5]);
    assert(wire::be_value(s.drop_last()) == four(front, 0) * 0x100_0000 + s[4] * 0x1_0000 + s[5]
        * 0x100 + s[6]);
}

pub proof fn lemma_eight_up(s: Seq<u8>)
    requires
        s.len() == 8,
    ensures
        wire::le_value(s) == eight_up(s, 0),
        0 <= eight_up(s, 0) <= u64::MAX,
{
    lemma_eight(s.reverse());
}

pub proof fn lemma_two_up(s: Seq<u8>)
    requires
        s.len() == 2,
    ensures
        wire::le_value(s) == two_up(s, 0),
        0 <= two_up(s, 0) <= u16::MAX,
{
    lemma_two(s.reverse());
}

// ---------------------------------------------------------------------- streams

/// A reading that starts with `events` from `size` bytes and goes on as `rest`
/// reads what stands behind them.
pub open spec fn then_reads(events: Seq<Event>, size: int, rest: Decoding) -> Decoding {
    Decoding {
        events: events + rest.events,
        outcome: match rest.outcome {
            Ok(consumed) => Ok((size + consumed) as usize),
            Err(FeedError::NeedMore) => Err(FeedError::NeedMore),
            Err(FeedError::Malformed { offset }) => Err(
                FeedError::Malformed { offset: (size + offset) as usize },
            ),
            Err(FeedError::UnknownSymbol { offset }) => Err(
                FeedError::UnknownSymbol { offset: (size + offset) as usize },
            ),
        },
    }
}

/// A reading that ends at its first message, with no event.
pub open spec fn refused(error: FeedError) -> Decoding {
    Decoding { events: Seq::empty(), outcome: Err(error) }
}

/// A reading that waits for more before its first message is whole.
pub open spec fn waits() -> Decoding {
    Decoding { events: Seq::empty(), outcome: Ok(0) }
}

/// The event to start from is a print with nothing in it.
pub proof fn lemma_zeroed(event: Event)
    requires
        call_ensures(Event::zeroed, (), event),
    ensures
        event.kind == Kind::Trade,
        event.side == Side::Bid,
        event.symbol == 0,
        event.price == 0,
        event.qty == 0,
        event.order_id == 0,
        event.aux == 0,
{
}

} // verus!
