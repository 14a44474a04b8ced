//! Orders on the wire, and the session that numbers and replays them.

use tick_to_trade::feed::Side;
use tick_to_trade::pipeline::affinity::affinity_mask;
use tick_to_trade::pipeline::gateway::{Gateway, POLL_EVERY};
use tick_to_trade::pipeline::session::{Action, Inbound, Session, RETAIN};
use tick_to_trade::pipeline::venue;
use tick_to_trade::pipeline::OrderCommand;

const MILLI: u64 = 1_000_000;

#[test]
fn orders_roundtrip_the_wire() {
    let order = OrderCommand {
        client_order_id: 7,
        symbol: 2,
        side: Side::Ask,
        price: 1_234_500_000_000,
        qty: 500_000_000,
    };
    assert_eq!(OrderCommand::decode(&order.encode()), Some(order));
}

#[test]
fn a_corrupt_side_is_refused() {
    let mut bytes = OrderCommand {
        client_order_id: 1,
        symbol: 0,
        side: Side::Bid,
        price: 1,
        qty: 1,
    }
    .encode();
    bytes[10] = 9;
    assert_eq!(OrderCommand::decode(&bytes), None);
}

#[test]
fn an_order_has_a_fixed_little_endian_layout() {
    let bytes = OrderCommand {
        client_order_id: 0x0102,
        symbol: 0x0304,
        side: Side::Ask,
        price: -2,
        qty: 5,
    }
    .encode();
    let mut expected = [0u8; 32];
    expected[0] = 2;
    expected[1] = 1;
    expected[8] = 4;
    expected[9] = 3;
    expected[10] = 1;
    expected[16..24].copy_from_slice(&(-2i64).to_le_bytes());
    expected[24] = 5;
    assert_eq!(bytes, expected);
}

#[test]
fn an_impossible_core_is_refused_rather_than_silently_ignored() {
    assert_eq!(affinity_mask(usize::BITS as usize + 1), None);
}

#[test]
fn a_core_is_one_bit_of_the_mask() {
    assert_eq!(affinity_mask(0), Some(1));
    assert_eq!(affinity_mask(5), Some(32));
    assert_eq!(affinity_mask(usize::BITS as usize), None);
}

fn order() -> OrderCommand {
    OrderCommand { client_order_id: 0, symbol: 1, side: Side::Bid, price: 1_000, qty: 10 }
}

fn session(now: u64) -> Session {
    Session::new(100 * MILLI, 500 * MILLI, now)
}

#[test]
fn sequences_start_at_one_and_advance() {
    let mut session = session(0);
    for expected in 1..=5_u64 {
        let bytes = session.prepare(&order()).unwrap();
        let decoded = OrderCommand::decode(&bytes).unwrap();
        assert_eq!(decoded.client_order_id, expected);
    }
    assert_eq!(session.in_flight(), 5);
}

#[test]
fn acknowledgement_clears_the_window_and_never_rewinds() {
    let mut session = session(0);
    for _ in 0..10 {
        session.prepare(&order()).unwrap();
    }
    session.received(Inbound::Acknowledged(7), 0);
    assert_eq!(session.in_flight(), 3);
    session.received(Inbound::Acknowledged(4), 0); // stale
    assert_eq!(session.in_flight(), 3, "a stale ack rewound the window");
}

#[test]
fn a_resend_replays_exactly_the_requested_range_in_order() {
    let mut session = session(0);
    for _ in 0..10 {
        session.prepare(&order()).unwrap();
    }
    let mut out: Vec<[u8; 32]> = Vec::new();
    assert!(session.resend_from(4, &mut out));
    let replayed: Vec<u64> = out
        .iter()
        .map(|bytes| OrderCommand::decode(bytes).unwrap().client_order_id)
        .collect();
    assert_eq!(replayed, vec![4, 5, 6, 7, 8, 9, 10]);
    assert_eq!(session.resends(), 7);
}

#[test]
fn a_resend_past_what_is_retained_is_refused_not_answered_with_a_hole() {
    let mut session = session(0);
    for _ in 0..(RETAIN + 10) {
        if session.prepare(&order()).is_none() {
            session.received(Inbound::Acknowledged(session.next_sequence() - 1), 0);
            session.prepare(&order()).unwrap();
        }
    }
    let mut out: Vec<[u8; 32]> = Vec::new();
    assert!(
        !session.resend_from(1, &mut out),
        "the session claimed to resend history it had overwritten"
    );
    assert!(out.is_empty());
}

#[test]
fn the_window_refuses_rather_than_overwriting_an_unacknowledged_message() {
    let mut session = session(0);
    for _ in 0..RETAIN {
        assert!(session.prepare(&order()).is_some());
    }
    assert!(
        session.prepare(&order()).is_none(),
        "an unacknowledged message was about to be overwritten"
    );
    session.received(Inbound::Acknowledged(1), 0);
    assert!(session.prepare(&order()).is_some());
}

#[test]
fn silence_produces_a_heartbeat_then_declares_the_peer_gone() {
    let start = 7_000_000_000;
    let mut session = session(start);
    assert_eq!(session.due(start), Action::Idle);
    assert_eq!(session.due(start + 150 * MILLI), Action::SendHeartbeat);
    session.heartbeat_sent(start + 150 * MILLI);
    assert_eq!(
        session.due(start + 200 * MILLI),
        Action::Idle,
        "the heartbeat did not reset the send timer"
    );
    // The peer's silence is measured separately from ours.
    assert_eq!(session.due(start + 600 * MILLI), Action::PeerIsDead);
    assert_eq!(session.heartbeats_sent(), 1);
}

#[test]
fn hearing_from_the_peer_postpones_declaring_it_gone() {
    let start = 7_000_000_000;
    let mut session = session(start);
    session.received(Inbound::Heartbeat, start + 400 * MILLI);
    assert_ne!(
        session.due(start + 600 * MILLI),
        Action::PeerIsDead,
        "a heartbeat from the peer was not counted as life"
    );
}

#[test]
fn an_order_sent_since_the_last_poll_postpones_the_heartbeat() {
    let mut session = session(0);
    session.prepare(&order()).unwrap();
    // The send counts from the poll that notices it.
    assert_eq!(session.due(150 * MILLI), Action::Idle);
    assert_eq!(session.due(249 * MILLI), Action::Idle);
    assert_eq!(session.due(250 * MILLI), Action::SendHeartbeat);
}

#[test]
fn a_clock_that_ran_backwards_is_no_silence() {
    let mut session = session(1_000 * MILLI);
    assert_eq!(session.due(0), Action::Idle);
}

#[test]
fn a_resend_request_ahead_of_what_was_sent_needs_nothing() {
    let mut session = session(0);
    session.prepare(&order()).unwrap();
    session.prepare(&order()).unwrap();
    session.received(Inbound::Acknowledged(1), 0);
    session.received(Inbound::ResendFrom(2), 0);
    let mut out: Vec<[u8; 32]> = Vec::new();
    assert!(session.resend_from(3, &mut out));
    // What is acknowledged is not replayed.
    assert!(!session.resend_from(1, &mut out));
    assert!(out.is_empty());
    assert!(session.resend_from(2, &mut out));
    assert_eq!(out.len(), 1);
}

#[test]
fn an_acknowledgement_of_what_was_never_sent_is_noticed() {
    let mut session = session(0);
    session.prepare(&order()).unwrap();
    assert!(session.is_valid());
    session.received(Inbound::Acknowledged(9), 0);
    assert!(!session.is_valid());
}

// ------------------------------------------------------------------- the gateway

#[test]
fn a_split_acknowledgement_is_gathered_whole() {
    let mut gateway = Gateway::new(session(0));
    for _ in 0..600 {
        gateway.order(&order()).unwrap();
    }
    let bytes = 300u64.to_le_bytes();
    assert_eq!(gateway.wanted(), 8);
    gateway.heard(&bytes[..3], 1);
    assert_eq!(gateway.wanted(), 5);
    assert_eq!(gateway.session().in_flight(), 600);
    gateway.heard(&[], 2);
    gateway.heard(&bytes[3..], 3);
    assert_eq!(gateway.wanted(), 8);
    assert_eq!(gateway.session().in_flight(), 300);
    gateway.heard(&512u64.to_le_bytes(), 4);
    assert_eq!(gateway.session().in_flight(), 88);
}

#[test]
fn the_gateway_polls_every_so_many_idle_spins() {
    let mut gateway = Gateway::new(session(0));
    let mut polls = 0;
    for _ in 0..(3 * POLL_EVERY) {
        if gateway.spin() {
            polls += 1;
        }
    }
    assert_eq!(polls, 3);
    for _ in 0..(POLL_EVERY - 1) {
        assert!(!gateway.spin());
    }
    // An order starts the count anew.
    gateway.order(&order()).unwrap();
    for _ in 0..(POLL_EVERY - 1) {
        assert!(!gateway.spin());
    }
    assert!(gateway.spin());
}

#[test]
fn the_gateway_refuses_an_order_when_the_window_is_full() {
    let mut gateway = Gateway::new(session(0));
    for sequence in 1..=RETAIN {
        let bytes = gateway.order(&order()).unwrap();
        assert_eq!(OrderCommand::decode(&bytes).unwrap().client_order_id, sequence);
    }
    assert_eq!(gateway.order(&order()), None);
    gateway.heard(&1u64.to_le_bytes(), 0);
    assert!(gateway.order(&order()).is_some());
    assert_eq!(gateway.due(100 * MILLI), Action::Idle);
    assert_eq!(gateway.due(200 * MILLI), Action::SendHeartbeat);
    gateway.heartbeat_sent(200 * MILLI);
    assert_eq!(gateway.session().heartbeats_sent(), 1);
    assert_eq!(gateway.due(500 * MILLI), Action::PeerIsDead);
}

// --------------------------------------------------------------------- the venue

#[test]
fn the_venue_acknowledges_in_batches() {
    let bytes = OrderCommand { client_order_id: 256, ..order() }.encode();
    assert_eq!(venue::acknowledgement(254, &bytes), None);
    assert_eq!(venue::acknowledgement(255, &bytes), Some(256u64.to_le_bytes()));
    assert_eq!(venue::acknowledgement(256, &bytes), None);
    let mut corrupt = bytes;
    corrupt[10] = 7;
    assert_eq!(venue::acknowledgement(511, &corrupt), Some([0; 8]));
}

#[test]
fn the_schedule_is_one_period_a_probe() {
    assert_eq!(venue::due_nanos(1_000, 0), 0);
    assert_eq!(venue::due_nanos(1_000, 7), 7_000_000);
    assert_eq!(venue::due_nanos(3, 2), 666_666_666);
    assert_eq!(venue::due_nanos(2_000_000_000, 5), 0);
    assert_eq!(venue::due_nanos(1, usize::MAX), 4_294_967_295_000_000_000);
    assert_eq!(venue::lateness(15, 10), 5);
    assert_eq!(venue::lateness(10, 15), 0);
    assert_eq!(venue::warmup(20_000), 2_000);
}

#[test]
fn a_session_numbers_without_a_hole_and_replays_what_it_sent() {
    let mut session = session(0);
    let mut sent: Vec<[u8; 32]> = Vec::new();
    let mut confirmed = 0u64;
    for step in 0u64..30_000 {
        match step * 7 % 11 {
            0 => {
                confirmed = confirmed.max((confirmed + step % 40).min(sent.len() as u64));
                session.received(Inbound::Acknowledged(confirmed), step);
            }
            1 => {
                session.due(step);
            }
            2 => {
                let from = (sent.len() as u64).saturating_sub(step % 9);
                let mut out: Vec<[u8; 32]> = Vec::new();
                assert_eq!(session.resend_from(from, &mut out), from > confirmed);
                if from > confirmed {
                    assert_eq!(out, sent[from as usize - 1..]);
                } else {
                    assert!(out.is_empty());
                }
            }
            _ => {
                let full = sent.len() as u64 - confirmed >= 4_096;
                match session.prepare(&order()) {
                    Some(bytes) => {
                        assert!(!full);
                        sent.push(bytes);
                        let number = OrderCommand::decode(&bytes).unwrap().client_order_id;
                        assert_eq!(number, sent.len() as u64);
                    }
                    None => assert!(full),
                }
            }
        }
        assert_eq!(session.in_flight(), sent.len() as u64 - confirmed);
    }
    assert!(sent.len() > 4_096);
}
