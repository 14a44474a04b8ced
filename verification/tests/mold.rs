//! Sequenced datagrams from two lines: each sequence once, in order.

use tick_to_trade::feed::mold::{Admit, Arbitrator, Header, STASH_PAYLOAD};
use tick_to_trade::feed::{FeedError, Rng};

const SESSION: [u8; 10] = *b"SESSION001";

fn header(sequence: u64, count: u16) -> Header {
    Header { session: SESSION, sequence, count }
}

fn drained(arbitrator: &mut Arbitrator) -> Vec<Vec<u8>> {
    let mut delivered: Vec<Vec<u8>> = Vec::new();
    arbitrator.drain_stash(&mut delivered);
    delivered
}

#[test]
fn headers_roundtrip() {
    let original = header(12_345, 7);
    assert_eq!(Header::parse(&original.encode()), Ok(original));
}

#[test]
fn a_short_datagram_needs_more_rather_than_panicking() {
    assert_eq!(Header::parse(&[0; 5]), Err(FeedError::NeedMore));
}

#[test]
fn in_sequence_packets_deliver_and_advance_by_their_count() {
    let mut arbitrator = Arbitrator::new(SESSION, 1);
    assert_eq!(arbitrator.offer(&header(1, 3), &[]), Admit::Deliver);
    assert_eq!(arbitrator.expected(), 4);
    assert_eq!(arbitrator.offer(&header(4, 1), &[]), Admit::Deliver);
    assert_eq!(arbitrator.expected(), 5);
    assert_eq!(arbitrator.duplicates(), 0);
}

/// The whole point of two lines: B's copy of a packet A already delivered is
/// rejected, and B's copy of a packet A *dropped* is delivered.
#[test]
fn the_second_line_fills_what_the_first_dropped_and_repeats_nothing() {
    let mut arbitrator = Arbitrator::new(SESSION, 1);
    // A delivers 1 and 2; B's copies are duplicates.
    assert_eq!(arbitrator.offer(&header(1, 1), &[]), Admit::Deliver);
    assert_eq!(arbitrator.offer(&header(1, 1), &[]), Admit::Duplicate);
    assert_eq!(arbitrator.offer(&header(2, 1), &[]), Admit::Deliver);
    assert_eq!(arbitrator.offer(&header(2, 1), &[]), Admit::Duplicate);
    // A drops 3. B has it, and it arrives exactly in sequence.
    assert_eq!(arbitrator.offer(&header(3, 1), &[]), Admit::Deliver);
    assert_eq!(arbitrator.expected(), 4);
    assert_eq!(arbitrator.duplicates(), 2);
    assert_eq!(arbitrator.gaps(), 0, "a healed line is not a gap");
}

#[test]
fn a_hole_both_lines_lost_is_a_gap_and_the_ahead_packet_is_stashed() {
    let mut arbitrator = Arbitrator::new(SESSION, 1);
    assert_eq!(arbitrator.offer(&header(1, 1), &[]), Admit::Deliver);
    // 2 is lost on both lines; 3 arrives.
    assert_eq!(arbitrator.offer(&header(3, 1), b"three"), Admit::Gap { missing: 1 });
    assert_eq!(arbitrator.expected(), 2, "the hole stays open");

    // Recovery supplies 2, then the stash releases 3 in order.
    arbitrator.recover(2, 1);
    let delivered = drained(&mut arbitrator);
    assert_eq!(delivered, vec![b"three".to_vec()]);
    assert_eq!(arbitrator.expected(), 4);
}

#[test]
fn a_hole_wider_than_the_stash_demands_a_snapshot() {
    let mut arbitrator = Arbitrator::new(SESSION, 1);
    match arbitrator.offer(&header(10_000, 1), &[]) {
        Admit::Unrecoverable { missing } => assert_eq!(missing, 9_999),
        other => panic!("expected an unrecoverable gap, got {other:?}"),
    }
    arbitrator.resynchronize(SESSION, 10_000);
    assert_eq!(arbitrator.offer(&header(10_000, 1), &[]), Admit::Deliver);
}

#[test]
fn a_new_session_is_refused_rather_than_reasoned_about() {
    let mut arbitrator = Arbitrator::new(SESSION, 1);
    let mut other = header(1, 1);
    other.session = *b"SESSION002";
    assert_eq!(arbitrator.offer(&other, &[]), Admit::SessionChanged);
}

/// Randomized: two lines, independent loss, occasional double loss. Every
/// sequence must be delivered exactly once and in order.
#[test]
fn two_lossy_lines_deliver_every_sequence_exactly_once() {
    let mut rng = Rng(0x5eed_0000_a1b2_c3d4);
    let mut arbitrator = Arbitrator::new(SESSION, 1);
    let mut seen = Vec::new();
    let mut sequence = 1_u64;

    for _ in 0..20_000 {
        let lost_on_a = rng.below(100) < 20;
        let lost_on_b = rng.below(100) < 20;
        let payload = sequence.to_be_bytes();

        // Line A, then line B, in whichever order the network chose.
        let mut lines = [!lost_on_a, !lost_on_b];
        if rng.below(2) == 0 {
            lines.swap(0, 1);
        }
        let mut delivered_this_sequence = false;
        for arrived in lines {
            if !arrived {
                continue;
            }
            match arbitrator.offer(&header(sequence, 1), &payload) {
                Admit::Deliver => {
                    assert!(!delivered_this_sequence, "delivered twice");
                    delivered_this_sequence = true;
                    seen.push(sequence);
                }
                Admit::Duplicate => {}
                other => panic!("unexpected {other:?} with no gaps possible"),
            }
        }
        if lost_on_a && lost_on_b {
            // Both lines lost it: a real gap. Recovery supplies it.
            arbitrator.recover(sequence, 1);
            seen.push(sequence);
        }
        sequence += 1;
    }

    assert_eq!(seen.len(), 20_000, "a sequence was delivered twice or lost");
    assert!(
        seen.windows(2).all(|pair| pair[1] == pair[0] + 1),
        "sequences arrived out of order"
    );
    assert_eq!(arbitrator.expected(), sequence);
    assert!(
        arbitrator.duplicates() > 1_000,
        "the test never exercised the duplicate path"
    );
}

#[test]
fn reordered_packets_come_out_in_order() {
    let mut arbitrator = Arbitrator::new(SESSION, 1);
    let mut log: Vec<Vec<u8>> = Vec::new();
    for sequence in [4u64, 2, 1, 1, 6, 3, 5, 2, 7] {
        let payload = vec![sequence as u8; 3];
        if arbitrator.offer(&header(sequence, 1), &payload) == Admit::Deliver {
            log.push(payload);
        }
        log.extend(drained(&mut arbitrator));
    }
    let expected: Vec<Vec<u8>> = (1..=7u8).map(|byte| vec![byte; 3]).collect();
    assert_eq!(log, expected);
    assert_eq!(arbitrator.expected(), 8);
    assert_eq!(arbitrator.duplicates(), 2);
    assert_eq!(arbitrator.gaps(), 3);
    assert_eq!(arbitrator.recovered(), 3);
    assert_eq!(arbitrator.delivered(), 7);
}

#[test]
fn a_payload_too_long_for_the_stash_cannot_wait() {
    let mut arbitrator = Arbitrator::new(SESSION, 1);
    let long = vec![0u8; STASH_PAYLOAD + 1];
    assert_eq!(arbitrator.offer(&header(2, 1), &long), Admit::Unrecoverable { missing: 1 });
    let fits = vec![9u8; STASH_PAYLOAD];
    assert_eq!(arbitrator.offer(&header(2, 1), &fits), Admit::Gap { missing: 1 });
    arbitrator.recover(1, 1);
    assert_eq!(drained(&mut arbitrator), vec![fits]);
}

#[test]
fn the_stash_reaches_sixty_three_ahead() {
    let mut arbitrator = Arbitrator::new(SESSION, 1);
    assert_eq!(arbitrator.offer(&header(64, 1), b"x"), Admit::Gap { missing: 63 });
    assert_eq!(arbitrator.offer(&header(65, 1), b"x"), Admit::Unrecoverable { missing: 64 });
}

#[test]
fn counters_at_their_limit_are_noticed_before_a_packet_is_taken() {
    let mut arbitrator = Arbitrator::new(SESSION, u64::MAX - 1);
    assert!(arbitrator.can_offer(&header(u64::MAX - 1, 1)));
    assert!(!arbitrator.can_offer(&header(u64::MAX - 1, 2)));
    assert_eq!(arbitrator.offer(&header(u64::MAX, 1), b"last"), Admit::Gap { missing: 1 });
    arbitrator.recover(u64::MAX - 1, 1);
    assert!(!arbitrator.can_drain());
    arbitrator.resynchronize(SESSION, 5);
    assert!(arbitrator.can_drain());
    assert_eq!(arbitrator.expected(), 5);
    assert!(drained(&mut arbitrator).is_empty());
}

#[test]
fn recovery_of_anything_but_the_next_sequence_is_ignored() {
    let mut arbitrator = Arbitrator::new(SESSION, 4);
    arbitrator.recover(5, 1);
    arbitrator.recover(3, 1);
    assert_eq!(arbitrator.expected(), 4);
    assert_eq!(arbitrator.recovered(), 0);
    arbitrator.recover(4, 2);
    assert_eq!(arbitrator.expected(), 6);
    assert_eq!(arbitrator.recovered(), 1);
}

#[test]
fn packets_of_several_messages_deliver_in_order_around_a_stashed_one() {
    // Three messages at 1, one at 4, two at 5, none at 7, one at 7.
    let mut arbitrator = Arbitrator::new(SESSION, 1);
    let mut log: Vec<Vec<u8>> = Vec::new();
    for (sequence, count, payload) in [
        (4u64, 1u16, b"four".to_vec()),
        (1, 3, b"one".to_vec()),
        (1, 3, b"one".to_vec()),
        (5, 2, b"five".to_vec()),
        (7, 0, Vec::new()),
        (7, 1, b"seven".to_vec()),
    ] {
        let verdict = arbitrator.offer(&header(sequence, count), &payload);
        if verdict == Admit::Deliver && count > 0 {
            log.push(payload);
        }
        log.extend(drained(&mut arbitrator));
    }
    let expected: Vec<Vec<u8>> = [&b"one"[..], b"four", b"five", b"seven"]
        .iter()
        .map(|payload| payload.to_vec())
        .collect();
    assert_eq!(log, expected);
    assert_eq!(arbitrator.expected(), 8);
}

#[test]
fn a_stashed_packet_advances_by_one_sequence() {
    let mut arbitrator = Arbitrator::new(SESSION, 1);
    assert_eq!(arbitrator.offer(&header(2, 2), b"two"), Admit::Gap { missing: 1 });
    assert_eq!(arbitrator.offer(&header(1, 1), b"one"), Admit::Deliver);
    assert_eq!(drained(&mut arbitrator), vec![b"two".to_vec()]);
    assert_eq!(arbitrator.expected(), 3);
}

#[test]
fn what_a_delivery_went_past_is_dropped_from_the_stash() {
    let mut arbitrator = Arbitrator::new(SESSION, 1);
    assert_eq!(arbitrator.offer(&header(2, 1), b"two"), Admit::Gap { missing: 1 });
    // The other line brings 1 to 65 at once; 66 has the slot of 2.
    assert_eq!(arbitrator.offer(&header(1, 65), b"many"), Admit::Deliver);
    assert_eq!(arbitrator.expected(), 66);
    assert!(arbitrator.can_drain());
    assert!(drained(&mut arbitrator).is_empty());
    assert_eq!(arbitrator.expected(), 66);
    assert_eq!(arbitrator.delivered(), 1);
    assert_eq!(arbitrator.recovered(), 0);
    // The slot serves again.
    assert_eq!(arbitrator.offer(&header(67, 1), b"next"), Admit::Gap { missing: 1 });
    assert_eq!(arbitrator.offer(&header(66, 1), b"now"), Admit::Deliver);
    assert_eq!(drained(&mut arbitrator), vec![b"next".to_vec()]);
    assert_eq!(arbitrator.expected(), 68);
}

#[test]
fn recovery_past_a_stashed_packet_drops_it() {
    let mut arbitrator = Arbitrator::new(SESSION, 1);
    assert_eq!(arbitrator.offer(&header(3, 1), b"three"), Admit::Gap { missing: 2 });
    assert_eq!(arbitrator.offer(&header(5, 1), b"five"), Admit::Gap { missing: 4 });
    arbitrator.recover(1, 4);
    assert_eq!(drained(&mut arbitrator), vec![b"five".to_vec()]);
    assert_eq!(arbitrator.expected(), 6);
    // A later packet takes the slot that the dropped one had.
    assert_eq!(arbitrator.offer(&header(67, 1), b"far"), Admit::Gap { missing: 61 });
    arbitrator.recover(6, 61);
    assert_eq!(drained(&mut arbitrator), vec![b"far".to_vec()]);
}

#[test]
fn whatever_arrives_what_is_delivered_leaves_no_hole_and_never_overlaps() {
    let mut rng = Rng(77);
    let mut arbitrator = Arbitrator::new(SESSION, 1);
    let mut next = 1u64;
    for _ in 0..20_000 {
        let sequence = (next + rng.below(80)).saturating_sub(8).max(1);
        let count = rng.below(70) as u16;
        match rng.below(4) {
            0 => {
                if sequence == arbitrator.expected() {
                    assert_eq!(sequence, next);
                    next += u64::from(count);
                }
                arbitrator.recover(sequence, count);
            }
            1 => {
                for payload in drained(&mut arbitrator) {
                    assert_eq!(payload, next.to_be_bytes().to_vec());
                    next += 1;
                }
            }
            _ => {
                let payload = sequence.to_be_bytes();
                if arbitrator.offer(&header(sequence, count), &payload) == Admit::Deliver {
                    assert_eq!(sequence, next);
                    next += u64::from(count);
                }
            }
        }
        assert_eq!(arbitrator.expected(), next);
    }
    assert!(arbitrator.recovered() > 0);
}
