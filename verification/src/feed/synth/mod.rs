//! Generators: a byte stream and the events it must decode to, from one seed.
//!
//! A generator writes bytes in a wire format and records what those bytes mean;
//! the parser reads the bytes in the same format, independently.

use vstd::prelude::*;

use crate::feed;
use crate::feed::Event;

pub mod fix;
pub mod itch;
pub mod json;

pub use self::fix::fix;
pub use self::itch::itch;
pub use self::json::json;

verus! {

pub const AAPL: [u8; 4] = [0x41, 0x41, 0x50, 0x4c];

pub const MSFT: [u8; 4] = [0x4d, 0x53, 0x46, 0x54];

pub const NVDA: [u8; 4] = [0x4e, 0x56, 0x44, 0x41];

pub const TSLA: [u8; 4] = [0x54, 0x53, 0x4c, 0x41];

pub const BTCUSDT: [u8; 7] = [0x42, 0x54, 0x43, 0x55, 0x53, 0x44, 0x54];

pub const ETHUSDT: [u8; 7] = [0x45, 0x54, 0x48, 0x55, 0x53, 0x44, 0x54];

pub const SOLUSDT: [u8; 7] = [0x53, 0x4f, 0x4c, 0x55, 0x53, 0x44, 0x54];

/// The names of the equity table.
pub open spec fn tradfi_names() -> Seq<Seq<u8>> {
    seq![AAPL@, MSFT@, NVDA@, TSLA@]
}

/// The names of the crypto table.
pub open spec fn crypto_names() -> Seq<Seq<u8>> {
    seq![BTCUSDT@, ETHUSDT@, SOLUSDT@]
}

/// The equity table.
#[must_use]
pub fn tradfi() -> (table: &'static [&'static [u8]])
    ensures
        feed::names(table@) == tradfi_names(),
        table@.len() == 4,
{
    let table: &'static [&'static [u8]] = &[&AAPL, &MSFT, &NVDA, &TSLA];
    assert(feed::names(table@) =~= tradfi_names());
    table
}

/// The crypto table.
#[must_use]
pub fn crypto() -> (table: &'static [&'static [u8]])
    ensures
        feed::names(table@) == crypto_names(),
        table@.len() == 3,
{
    let table: &'static [&'static [u8]] = &[&BTCUSDT, &ETHUSDT, &SOLUSDT];
    assert(feed::names(table@) =~= crypto_names());
    table
}

#[derive(Debug)]
pub struct Generated {
    pub bytes: Vec<u8>,
    pub events: Vec<Event>,
}

impl Default for Generated {
    fn default() -> (generated: Self)
        ensures
            generated.bytes@ == Seq::<u8>::empty(),
            generated.events@ == Seq::<Event>::empty(),
    {
        Generated { bytes: Vec::new(), events: Vec::new() }
    }
}

/// What a draw below `bound` gives from a generator in state `rng`.
pub open spec fn draw(rng: u64, bound: u64) -> u64 {
    feed::rng_mix(feed::rng_next(rng)) % bound
}

} // verus!
