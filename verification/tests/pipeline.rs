//! The stages together: a datagram in, an order out.

use tick_to_trade::feed::mold::{Header, HEADER_LEN};
use tick_to_trade::feed::{Event, Kind, Side};
use tick_to_trade::pipeline::handler::{FeedHandler, Received};
use tick_to_trade::pipeline::probe;
use tick_to_trade::pipeline::probe::Probes;
use tick_to_trade::pipeline::{band, BboUpdate, FeedStage, OrderCommand, Strategy};

fn level(side: Side, price: i64, qty: i64) -> Event {
    Event { kind: Kind::Level, side, symbol: 0, price, qty, order_id: 0, aux: 0 }
}

#[test]
fn the_stage_announces_a_touch_that_moved_and_nothing_else() {
    let mut stage = FeedStage::new(2, band());
    assert_eq!(stage.take_moved(), None);
    stage.accept(&level(Side::Bid, 10_000_000_000, 5));
    assert_eq!(
        stage.take_moved(),
        Some(BboUpdate {
            symbol: 0,
            bid_price: 10_000_000_000,
            bid_qty: 5,
            ask_price: 0,
            ask_qty: 0,
        })
    );
    assert_eq!(stage.take_moved(), None);
    // A new quantity at the same price moves nothing.
    stage.accept(&level(Side::Bid, 10_000_000_000, 9));
    assert_eq!(stage.take_moved(), None);
    // Another symbol moves nothing.
    stage.accept(&Event { symbol: 1, ..level(Side::Bid, 11_000_000_000, 1) });
    assert_eq!(stage.take_moved(), None);
    assert!(stage.try_accept(&level(Side::Ask, 10_001_000_000, 3)));
    let update = stage.take_moved().unwrap();
    assert_eq!((update.ask_price, update.ask_qty, update.bid_qty), (10_001_000_000, 3, 9));
    assert!(!stage.try_accept(&Event { symbol: 9, ..level(Side::Bid, 1, 1) }));
}

#[test]
fn the_strategy_answers_a_new_bid_once() {
    let mut strategy = Strategy::default();
    let update = BboUpdate {
        symbol: 0,
        bid_price: 500,
        bid_qty: 70,
        ask_price: 0,
        ask_qty: 0,
    };
    assert_eq!(
        strategy.decide(&update),
        Some(OrderCommand {
            client_order_id: 1,
            symbol: 0,
            side: Side::Ask,
            price: 500,
            qty: 70,
        })
    );
    assert_eq!(strategy.decide(&update), None);
    // Nothing behind it, no order.
    assert_eq!(strategy.decide(&BboUpdate { bid_price: 501, bid_qty: 0, ..update }), None);
    // Never more than one unit.
    let order = strategy
        .decide(&BboUpdate { bid_price: 502, bid_qty: 900_000_000, ..update })
        .unwrap();
    assert_eq!((order.client_order_id, order.qty), (2, 100_000_000));
}

#[test]
fn one_order_answers_each_probe() {
    let mut probes = Probes::new();
    let mut handler = FeedHandler::new();
    let mut strategy = Strategy::default();
    for index in 0..5_000u64 {
        let packet = probes.next_datagram();
        let price = probe::price_of(index as usize) as i64 * 10_000;
        match handler.receive(&packet) {
            Received::Delivered { update: Some(update), undecodable: 0 } => {
                assert_eq!(update.bid_price, price);
                assert_eq!(update.bid_qty, 10_000_000_000);
                assert_eq!(
                    strategy.decide(&update),
                    Some(OrderCommand {
                        client_order_id: index + 1,
                        symbol: 0,
                        side: Side::Ask,
                        price,
                        qty: 100_000_000,
                    })
                );
            }
            other => panic!("probe {index} came to {other:?}"),
        }
        assert_eq!(handler.receive(&packet), Received::Duplicate);
    }
    assert_eq!(handler.stage().books.unknown_orders, 0);
    assert_eq!(handler.stage().books.symbol(0).orders.len(), 1);
}

#[test]
fn a_probe_deletes_the_order_before_it() {
    assert_eq!(probe::price_of(0), 1_000_000);
    assert_eq!(probe::price_of(1_999), 1_199_900);
    assert_eq!(probe::price_of(2_000), 1_000_000);
    assert_eq!(probe::datagram(None, 1, 1_000_000).len(), 38);
    assert_eq!(probe::datagram(Some(1), 2, 1_000_100).len(), 59);
    let mut probes = Probes::new();
    let first = probes.next_datagram();
    let second = probes.next_datagram();
    let third = probes.next_datagram();
    assert_eq!(
        Header::parse(&first),
        Ok(Header { session: *b"PROBE00001", sequence: 1, count: 1 })
    );
    assert_eq!(
        Header::parse(&second),
        Ok(Header { session: *b"PROBE00001", sequence: 2, count: 2 })
    );
    assert_eq!(Header::parse(&third).unwrap().sequence, 4);
    assert_eq!(first.len(), HEADER_LEN + 38);
}

#[test]
fn a_reordered_datagram_waits_for_the_one_before_it() {
    // One message a packet, so that the stash releases in step.
    let packet = |sequence: u64, order: u64, price: u32| {
        let header = Header { session: probe::SESSION, sequence, count: 1 };
        let mut bytes = header.encode().to_vec();
        bytes.extend_from_slice(&probe::datagram(None, order, price));
        bytes
    };
    let mut handler = FeedHandler::new();
    assert_eq!(handler.receive(&packet(2, 2, 1_000_100)), Received::Gap { missing: 1 });
    assert_eq!(handler.stage().books.symbol(0).bids.best(), None);
    match handler.receive(&packet(1, 1, 1_000_000)) {
        Received::Delivered { update: Some(update), undecodable: 0 } => {
            assert_eq!(update.bid_price, 10_001_000_000);
        }
        other => panic!("{other:?}"),
    }
    assert_eq!(handler.stage().books.symbol(0).orders.len(), 2);
    assert_eq!(handler.receive(&packet(2, 2, 1_000_100)), Received::Duplicate);
}

#[test]
fn loss_and_resequencing_resynchronize() {
    let header = |session: [u8; 10], sequence: u64| {
        Header { session, sequence, count: 1 }.encode().to_vec()
    };
    let mut handler = FeedHandler::new();
    assert_eq!(handler.receive(&[1, 2, 3]), Received::NotOurs);
    assert_eq!(
        handler.receive(&header(probe::SESSION, 100)),
        Received::Lost { missing: 99 }
    );
    assert_eq!(
        handler.receive(&header(probe::SESSION, 100)),
        Received::Delivered { update: None, undecodable: 0 }
    );
    assert_eq!(handler.receive(&header(*b"OTHER00001", 7)), Received::Resequenced);
    assert_eq!(
        handler.receive(&header(*b"OTHER00001", 7)),
        Received::Delivered { update: None, undecodable: 0 }
    );
}

#[test]
fn an_undecodable_payload_is_dropped() {
    let mut handler = FeedHandler::new();
    let mut first = Header { session: probe::SESSION, sequence: 1, count: 1 }.encode().to_vec();
    first.extend_from_slice(&[0, 1, b'?']);
    assert_eq!(handler.receive(&first), Received::Undecodable);
    // A stashed one is counted when its turn comes.
    let mut third = Header { session: probe::SESSION, sequence: 3, count: 1 }.encode().to_vec();
    third.extend_from_slice(&[0, 1, b'?']);
    assert_eq!(handler.receive(&third), Received::Gap { missing: 1 });
    let second = Header { session: probe::SESSION, sequence: 2, count: 1 }.encode();
    assert_eq!(
        handler.receive(&second),
        Received::Delivered { update: None, undecodable: 1 }
    );
}

#[test]
fn an_event_beyond_the_counters_is_refused() {
    let mut handler = FeedHandler::new();
    let mut packet = Header { session: probe::SESSION, sequence: 1, count: 1 }.encode().to_vec();
    // Order zero is the order table's empty mark.
    packet.extend_from_slice(&probe::datagram(None, 0, 1_000_000));
    assert_eq!(handler.receive(&packet), Received::Refused);
}

#[test]
fn a_refused_replacement_takes_its_old_order_off() {
    let mut stage = FeedStage::new(1, band());
    let add = Event { kind: Kind::Add, order_id: 1, ..level(Side::Bid, 10_000_000_000, 5) };
    assert!(stage.try_accept(&add));
    stage.take_moved();
    // Order zero is the order table's empty mark.
    let replace = Event { kind: Kind::Replace, aux: 0, ..add };
    assert!(!stage.try_accept(&replace));
    assert!(stage.books.symbol(0).orders.is_empty());
    assert_eq!(stage.books.symbol(0).bids.best(), None);
    assert_eq!(stage.take_moved(), None);
    // Any other refusal changes nothing.
    assert!(stage.try_accept(&add));
    assert!(!stage.try_accept(&Event { order_id: 0, ..add }));
    assert_eq!(stage.books.symbol(0).bids.best(), Some((10_000_000_000, 5)));
    assert_eq!(stage.books.symbol(0).orders.len(), 1);
}

#[test]
fn what_comes_before_a_refused_event_is_taken() {
    let mut handler = FeedHandler::new();
    let mut packet = Header { session: probe::SESSION, sequence: 1, count: 3 }.encode().to_vec();
    packet.extend_from_slice(&probe::datagram(None, 1, 1_000_000));
    packet.extend_from_slice(&probe::datagram(None, 0, 1_000_100));
    packet.extend_from_slice(&probe::datagram(None, 2, 1_000_200));
    assert_eq!(handler.receive(&packet), Received::Refused);
    let book = handler.stage().books.symbol(0);
    assert_eq!(book.bids.best(), Some((10_000_000_000, 10_000_000_000)));
    assert_eq!(book.orders.len(), 1);
}

#[test]
fn every_bid_that_moved_is_answered_under_the_next_number() {
    let mut strategy = Strategy::default();
    let mut last = 0;
    let mut answered = 0;
    for step in 0i64..200 {
        let update = BboUpdate {
            symbol: (step % 3) as u16,
            bid_price: step * step % 7,
            bid_qty: (step % 5) * 40_000_000,
            ask_price: 0,
            ask_qty: 0,
        };
        let order = strategy.decide(&update);
        if update.bid_price != last && update.bid_qty > 0 {
            answered += 1;
            assert_eq!(
                order,
                Some(OrderCommand {
                    client_order_id: answered,
                    symbol: update.symbol,
                    side: Side::Ask,
                    price: update.bid_price,
                    qty: update.bid_qty.min(100_000_000),
                })
            );
        } else {
            assert_eq!(order, None);
        }
        last = update.bid_price;
    }
    assert!(answered > 50);
}
