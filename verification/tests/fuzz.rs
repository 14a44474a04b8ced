//! Adversarial bytes against every parser: the contract must hold for input
//! nobody generated. Seeded, so a failure reproduces.

use tick_to_trade::feed::fix::Fix;
use tick_to_trade::feed::itch::Itch;
use tick_to_trade::feed::json::Json;
use tick_to_trade::feed::synth;
use tick_to_trade::feed::{Event, FeedError, Parser, Rng, GENERATOR_SEED};

/// What every parser owes for every input, valid or not: no panic, an end, and
/// no more consumed than it was given.
fn contract(name: &str, parser: &impl Parser, bytes: &[u8], seed: u64) {
    let mut sink: Vec<Event> = Vec::new();
    match parser.parse(bytes, &mut sink) {
        Ok(consumed) => assert!(
            consumed <= bytes.len(),
            "{name}: reported {consumed} of {} bytes consumed (seed {seed:#x})",
            bytes.len()
        ),
        Err(FeedError::NeedMore | FeedError::Malformed { .. } | FeedError::UnknownSymbol { .. }) => {}
    }
}

/// Corrupts a copy of `source` in one of the ways a wire actually breaks.
fn corrupt(source: &[u8], rng: &mut Rng) -> Vec<u8> {
    let mut bytes = source.to_vec();
    if bytes.is_empty() {
        return bytes;
    }
    match rng.below(6) {
        // A single flipped byte: the checksum and framing case.
        0 => {
            let at = rng.below(bytes.len() as u64) as usize;
            bytes[at] = rng.below(256) as u8;
        }
        // A run of bytes replaced: a burst error.
        1 => {
            let at = rng.below(bytes.len() as u64) as usize;
            let len = (rng.below(32) as usize).min(bytes.len() - at);
            for byte in &mut bytes[at..at + len] {
                *byte = rng.below(256) as u8;
            }
        }
        // Digits everywhere: the accumulator-overflow case.
        2 => {
            let at = rng.below(bytes.len() as u64) as usize;
            let len = (rng.below(40) as usize).min(bytes.len() - at);
            for byte in &mut bytes[at..at + len] {
                *byte = b'9';
            }
        }
        // Truncated mid-message, then extended with noise.
        3 => {
            let at = rng.below(bytes.len() as u64) as usize;
            bytes.truncate(at);
            for _ in 0..rng.below(64) {
                bytes.push(rng.below(256) as u8);
            }
        }
        // Bytes deleted from the middle: every field after shifts.
        4 => {
            let at = rng.below(bytes.len() as u64) as usize;
            let len = (rng.below(16) as usize).min(bytes.len() - at);
            bytes.drain(at..at + len);
        }
        // Bytes inserted: the same, in the other direction.
        _ => {
            let at = rng.below(bytes.len() as u64) as usize;
            for _ in 0..rng.below(16) {
                bytes.insert(at, rng.below(256) as u8);
            }
        }
    }
    bytes
}

/// Twenty thousand corruptions of a valid stream, per format.
#[test]
fn every_parser_survives_corrupted_streams() {
    const ROUNDS: usize = 20_000;

    let itch = synth::itch(200, &mut Rng(GENERATOR_SEED));
    let fix = synth::fix(200, &mut Rng(GENERATOR_SEED));
    let json = synth::json(200, &mut Rng(GENERATOR_SEED));

    let itch_parser = Itch { symbols: synth::tradfi() };
    let fix_parser = Fix { symbols: synth::tradfi() };
    let json_parser = Json { symbols: synth::crypto() };

    let mut rng = Rng(0x1234_5678_9abc_def0);
    for _ in 0..ROUNDS {
        let seed = rng.0;
        contract("itch", &itch_parser, &corrupt(&itch.bytes, &mut rng), seed);
        contract("fix", &fix_parser, &corrupt(&fix.bytes, &mut rng), seed);
        contract("json", &json_parser, &corrupt(&json.bytes, &mut rng), seed);
    }
}

/// Bytes from nothing, with no valid stream underneath.
#[test]
fn every_parser_survives_arbitrary_bytes() {
    const ROUNDS: usize = 10_000;

    let itch_parser = Itch { symbols: synth::tradfi() };
    let fix_parser = Fix { symbols: synth::tradfi() };
    let json_parser = Json { symbols: synth::crypto() };

    let mut rng = Rng(0x0fed_cba9_8765_4321);
    for _ in 0..ROUNDS {
        let seed = rng.0;
        let len = rng.below(512) as usize;
        let bytes: Vec<u8> = (0..len).map(|_| rng.below(256) as u8).collect();
        contract("itch", &itch_parser, &bytes, seed);
        contract("fix", &fix_parser, &bytes, seed);
        contract("json", &json_parser, &bytes, seed);
    }
}
