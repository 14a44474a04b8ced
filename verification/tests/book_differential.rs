//! The ladder book against the std-collections book, on the same events,
//! agreeing exactly: best prices, full level contents, order state.

use std::collections::{BTreeMap, HashMap, VecDeque};

use tick_to_trade::book::ladder::{Band, Ladder};
use tick_to_trade::book::orders::{Order, OrderMap};
use tick_to_trade::book::reference::ReferenceBooks;
use tick_to_trade::book::Books;
use tick_to_trade::feed::itch::Itch;
use tick_to_trade::feed::synth;
use tick_to_trade::feed::{Event, Kind, Parser, Rng, Side, GENERATOR_SEED};

/// The grid the ITCH generator quotes on: one-cent ticks. The window is not
/// sized to the generator's range: it finds and follows it.
const ITCH_BAND: Band = Band { tick: 100 * 10_000, ticks: 4_096 };

fn itch_events(count: usize) -> Vec<Event> {
    let stream = synth::itch(count, &mut Rng(GENERATOR_SEED));
    let parser = Itch { symbols: synth::tradfi() };
    let mut collected: Vec<Event> = Vec::new();
    parser.parse(&stream.bytes, &mut collected).unwrap();
    collected
}

fn walk(ladder: &Ladder) -> Vec<(i64, i64)> {
    let mut levels: Vec<(i64, i64)> = Vec::new();
    ladder.for_each_from_touch(&mut levels);
    levels
}

fn assert_agree(books: &Books, reference: &ReferenceBooks, at_event: usize) {
    for index in 0..reference.symbols.len() {
        let custom = books.symbol(index as u16);
        let std_book = &reference.symbols[index];
        assert_eq!(
            custom.bids.best(),
            std_book.best_bid(),
            "best bid diverged on symbol {index} after event {at_event}"
        );
        assert_eq!(
            custom.asks.best(),
            std_book.best_ask(),
            "best ask diverged on symbol {index} after event {at_event}"
        );
        // Full contents, both sides, from the touch outward.
        let std_bids: Vec<(i64, i64)> = std_book.bids.iter().rev().map(|(p, q)| (*p, *q)).collect();
        assert_eq!(walk(&custom.bids), std_bids, "bid ladder diverged on symbol {index}");
        let std_asks: Vec<(i64, i64)> = std_book.asks.iter().map(|(p, q)| (*p, *q)).collect();
        assert_eq!(walk(&custom.asks), std_asks, "ask ladder diverged on symbol {index}");
        assert_eq!(
            custom.orders.len(),
            std_book.orders.len(),
            "order count diverged on symbol {index}"
        );
        for (id, order) in &std_book.orders {
            assert_eq!(
                custom.orders.get(*id),
                Some(order),
                "order {id} diverged on symbol {index}"
            );
        }
    }
    assert_eq!(books.unknown_orders, reference.unknown_orders);
}

/// A quarter million ITCH events, compared in full every few thousand and at
/// the end.
#[test]
fn custom_and_std_books_agree_on_a_quarter_million_events() {
    let events = itch_events(250_000);
    let mut books = Books::new(synth::tradfi().len(), ITCH_BAND);
    let mut reference = ReferenceBooks::new(synth::tradfi().len());
    for (index, event) in events.iter().enumerate() {
        books.apply(event);
        reference.apply(event);
        if index % 5_000 == 0 {
            assert_agree(&books, &reference, index);
        }
    }
    assert_agree(&books, &reference, events.len());
    assert!(
        books.symbol(0).orders.len() > 100,
        "the stream left almost nothing resting, so the comparison proved little"
    );
}

/// L2 semantics: absolute sets, including zero as removal, agree too.
#[test]
fn level_sets_agree_with_the_reference() {
    let mut rng = Rng(GENERATOR_SEED ^ 0x11);
    let mut books = Books::new(1, Band { tick: 1, ticks: 1_024 });
    let mut reference = ReferenceBooks::new(1);
    for step in 0..100_000 {
        let event = Event {
            kind: Kind::Level,
            side: if rng.below(2) == 0 { Side::Bid } else { Side::Ask },
            symbol: 0,
            price: 1_000 + rng.below(200) as i64,
            // A third of updates remove the level outright.
            qty: if rng.below(3) == 0 { 0 } else { rng.below(1_000_000) as i64 },
            order_id: 0,
            aux: 0,
        };
        books.apply(&event);
        reference.apply(&event);
        if step % 2_500 == 0 {
            assert_agree(&books, &reference, step);
        }
    }
    assert_agree(&books, &reference, 100_000);
}

/// The order map under adversarial churn: interleaved insert and remove with
/// clustered keys, which is what stresses backward-shift deletion.
#[test]
fn order_map_survives_heavy_churn_against_hashmap() {
    let mut rng = Rng(GENERATOR_SEED ^ 0x22);
    let mut custom = OrderMap::with_capacity(64);
    let mut reference: HashMap<u64, Order> = HashMap::new();

    for _ in 0..500_000 {
        // Sequential IDs in a small window force long probe chains and
        // constant backward shifts.
        let key = 1 + rng.below(4_096);
        if rng.below(2) == 0 {
            let order = Order {
                symbol: 0,
                side: Side::Bid,
                price: rng.below(1_000) as i64,
                qty: 1 + rng.below(100) as i64,
            };
            custom.insert(key, order);
            reference.insert(key, order);
        } else {
            assert_eq!(
                custom.remove(key),
                reference.remove(&key),
                "removal of {key} diverged"
            );
        }
    }
    assert_eq!(custom.len(), reference.len());
    for (key, order) in &reference {
        assert_eq!(custom.get(*key), Some(order), "key {key} diverged");
    }
}

/// One structure, instruments that share nothing: each is fed a random walk
/// that wanders far enough to move the window repeatedly.
#[test]
fn one_ladder_serves_any_asset_and_any_tick() {
    // (name, tick, starting price) in 1e8 fixed point.
    let instruments: [(&str, i64, i64); 3] = [
        ("equity, penny tick, $30", 1_000_000, 30 * 100_000_000),
        ("perp, cent tick, $100k", 1_000_000, 100_000 * 100_000_000),
        ("pair, satoshi tick, $0.30", 1, 30_000_000),
    ];
    // Resting levels a side before the oldest is pulled.
    const LIVE: usize = 400;

    for (name, tick, start) in instruments {
        let mut rng = Rng(GENERATOR_SEED ^ start as u64);
        let mut ladder = Ladder::bids(Band { tick, ticks: 4_096 });
        let mut reference: BTreeMap<i64, i64> = BTreeMap::new();
        let mut resting: VecDeque<i64> = VecDeque::new();
        let mut mid = start;

        for _ in 0..100_000 {
            // A drifting walk: two ticks a step on average.
            mid += (rng.below(17) as i64 - 6) * tick;
            let price = mid - rng.below(64) as i64 * tick;
            let qty = 1 + rng.below(500) as i64;
            ladder.set(price, qty);
            reference.insert(price, qty);
            resting.push_back(price);

            while resting.len() > LIVE {
                let stale = resting.pop_front().expect("len checked");
                // Only pull it if no later step refreshed the same price.
                if !resting.contains(&stale) {
                    ladder.set(stale, 0);
                    reference.remove(&stale);
                }
            }
        }

        assert_eq!(ladder.off_grid(), 0, "{name}: an on-grid price was refused");
        assert_eq!(ladder.evicted(), 0, "{name}: the live set fell behind the window");
        let want: Vec<(i64, i64)> = reference.iter().rev().map(|(p, q)| (*p, *q)).collect();
        assert_eq!(walk(&ladder), want, "{name}: diverged from the reference ladder");
        // Without this the test would pass on a ladder that never moved.
        assert!(
            ladder.rebases() >= 10,
            "{name}: crossed only {} windows",
            ladder.rebases()
        );
    }
}

/// A deep book that follows the market keeps its depth: 2,500 levels in a
/// 4,096-tick window, walked further than the window is wide.
#[test]
fn a_deep_book_keeps_its_depth_as_the_market_moves() {
    const DEPTH: i64 = 2_500;
    let mut ladder = Ladder::bids(Band { tick: 1, ticks: 4_096 });
    let mut reference: BTreeMap<i64, i64> = BTreeMap::new();
    let mut touch = 1_000_000_i64;

    for level in 0..DEPTH {
        ladder.set(touch - level, 10 + level);
        reference.insert(touch - level, 10 + level);
    }

    // Walk the touch up past a full window, carrying the depth with it.
    for _ in 0..50 {
        for _ in 0..100 {
            touch += 1;
            ladder.set(touch, 10);
            reference.insert(touch, 10);
            let dropped = touch - DEPTH;
            ladder.set(dropped, 0);
            reference.remove(&dropped);
        }
        assert_eq!(
            ladder.evicted(),
            0,
            "depth was thrown away with the touch at {touch}"
        );
    }

    let want: Vec<(i64, i64)> = reference.iter().rev().map(|(p, q)| (*p, *q)).collect();
    assert_eq!(walk(&ladder), want, "the ladder lost levels the reference kept");
    assert!(ladder.rebases() >= 2, "the window never moved, so nothing was proven");
}

#[test]
fn an_off_grid_price_is_refused_rather_than_rounded() {
    let mut books = Books::new(1, Band { tick: 100, ticks: 256 });
    let on_grid = Event {
        kind: Kind::Level,
        side: Side::Bid,
        symbol: 0,
        price: 10_000,
        qty: 5,
        order_id: 0,
        aux: 0,
    };
    books.apply(&on_grid);
    assert_eq!(books.symbol(0).bids.best(), Some((10_000, 5)));

    let off_grid = Event {
        price: 10_050, // half a tick
        ..on_grid
    };
    books.apply(&off_grid);
    assert_eq!(
        books.symbol(0).bids.best(),
        Some((10_000, 5)),
        "an off-grid price disturbed the book"
    );
    assert_eq!(books.symbol(0).bids.off_grid(), 1);
}

// ------------------------------------------------------------------ single cases

fn event(kind: Kind, side: Side, order_id: u64, price: i64, qty: i64) -> Event {
    Event { kind, side, symbol: 0, price, qty, order_id, aux: 0 }
}

#[test]
fn executions_and_cancels_take_no_more_than_rests() {
    let mut books = Books::new(1, Band { tick: 1, ticks: 64 });
    books.apply(&event(Kind::Add, Side::Bid, 1, 100, 30));
    books.apply(&event(Kind::Add, Side::Bid, 2, 100, 12));
    assert_eq!(books.symbol(0).bids.best(), Some((100, 42)));
    books.apply(&event(Kind::Execute, Side::Bid, 1, 0, 10));
    assert_eq!(books.symbol(0).bids.best(), Some((100, 32)));
    assert_eq!(books.symbol(0).orders.get(1).map(|order| order.qty), Some(20));
    books.apply(&event(Kind::Cancel, Side::Bid, 1, 0, 500));
    assert_eq!(books.symbol(0).orders.get(1), None);
    assert_eq!(books.symbol(0).bids.best(), Some((100, 12)));
    books.apply(&event(Kind::Delete, Side::Bid, 2, 0, 0));
    assert_eq!(books.symbol(0).bids.best(), None);
    assert!(books.symbol(0).orders.is_empty());
}

#[test]
fn an_unknown_order_is_counted_and_changes_nothing() {
    let mut books = Books::new(1, Band { tick: 1, ticks: 64 });
    books.apply(&event(Kind::Add, Side::Ask, 7, 50, 5));
    for kind in [Kind::Execute, Kind::Cancel, Kind::Delete, Kind::Replace] {
        books.apply(&event(kind, Side::Ask, 9, 60, 1));
    }
    assert_eq!(books.unknown_orders, 4);
    assert_eq!(books.unknown_orders(), 4);
    assert_eq!(books.symbol(0).asks.best(), Some((50, 5)));
    assert_eq!(books.symbol(0).orders.len(), 1);
}

#[test]
fn a_replacement_keeps_the_side_of_the_order_it_replaces() {
    let mut books = Books::new(1, Band { tick: 1, ticks: 64 });
    books.apply(&event(Kind::Add, Side::Ask, 7, 50, 5));
    books.apply(&Event { aux: 8, ..event(Kind::Replace, Side::Bid, 7, 55, 9) });
    assert_eq!(books.symbol(0).asks.best(), Some((55, 9)));
    assert_eq!(books.symbol(0).bids.best(), None);
    assert_eq!(books.symbol(0).orders.get(7), None);
    assert_eq!(
        books.symbol(0).orders.get(8),
        Some(&Order { symbol: 0, side: Side::Ask, price: 55, qty: 9 })
    );
}

#[test]
fn a_print_does_not_move_the_book() {
    let mut books = Books::new(1, Band { tick: 1, ticks: 64 });
    books.apply(&event(Kind::Add, Side::Bid, 1, 10, 5));
    books.apply(&event(Kind::Trade, Side::Bid, 1, 10, 5));
    assert_eq!(books.symbol(0).bids.best(), Some((10, 5)));
    assert_eq!(books.unknown_orders, 0);
}

#[test]
fn events_beyond_the_books_are_refused() {
    let mut books = Books::new(1, Band { tick: 1, ticks: 64 });
    let beyond = Event { symbol: 1, ..event(Kind::Add, Side::Bid, 1, 10, 5) };
    assert!(!books.try_apply(&beyond));
    // Order zero is the table's empty mark.
    assert!(!books.try_apply(&event(Kind::Add, Side::Bid, 0, 10, 5)));
    assert!(books.try_apply(&event(Kind::Add, Side::Bid, 1, 10, i64::MAX)));
    assert!(!books.try_apply(&event(Kind::Add, Side::Bid, 2, 10, 1)));
    assert_eq!(books.symbol(0).bids.best(), Some((10, i64::MAX)));
}

#[test]
fn levels_are_the_totals_of_their_orders() {
    let events = itch_events(20_000);
    let mut books = Books::new(synth::tradfi().len(), ITCH_BAND);
    let mut reference = ReferenceBooks::new(synth::tradfi().len());
    for event in &events {
        books.apply(event);
        reference.apply(event);
    }
    for (index, plain) in reference.symbols.iter().enumerate() {
        let mut totals: BTreeMap<(bool, i64), i64> = BTreeMap::new();
        for order in plain.orders.values() {
            *totals.entry((order.side == Side::Ask, order.price)).or_insert(0) += order.qty;
        }
        for (price, qty) in walk(&books.symbol(index as u16).bids) {
            assert_eq!(totals.remove(&(false, price)), Some(qty));
        }
        for (price, qty) in walk(&books.symbol(index as u16).asks) {
            assert_eq!(totals.remove(&(true, price)), Some(qty));
        }
        assert!(totals.is_empty());
    }
}

#[test]
fn the_window_finds_its_place_and_leaves_headroom() {
    // 64 ticks of one: the first price is centred.
    let mut ladder = Ladder::asks(Band { tick: 1, ticks: 64 });
    ladder.set(1_000, 1);
    assert_eq!(ladder.rebases(), 1);
    // The window is 968 to 1031.
    ladder.set(968, 2);
    ladder.set(1_031, 3);
    assert_eq!(ladder.rebases(), 1);
    assert_eq!(ladder.depth(), 3);
    // One past the top moves the window up by a quarter: 984 to 1047. The
    // lowest level falls behind.
    ladder.set(1_032, 4);
    assert_eq!(ladder.rebases(), 2);
    assert_eq!(ladder.evicted(), 1);
    assert_eq!(walk(&ladder), vec![(1_000, 1), (1_031, 3), (1_032, 4)]);
    ladder.set(1_047, 5);
    assert_eq!(ladder.rebases(), 2);
    assert_eq!(ladder.best(), Some((1_000, 1)));
}

#[test]
fn adding_quantity_accumulates_and_removal_clears() {
    let mut ladder = Ladder::bids(Band { tick: 5, ticks: 16 });
    ladder.add(100, 7);
    ladder.add(100, 3);
    ladder.add(105, 1);
    assert_eq!(walk(&ladder), vec![(105, 1), (100, 10)]);
    ladder.add(105, -1);
    ladder.add(100, -4);
    assert_eq!(walk(&ladder), vec![(100, 6)]);
    ladder.add(100, -60);
    assert_eq!(ladder.depth(), 0);
    assert_eq!(ladder.best(), None);
}

#[test]
fn an_order_map_grows_without_losing_orders() {
    let mut map = OrderMap::with_capacity(1);
    let order = |qty: i64| Order { symbol: 3, side: Side::Ask, price: 9, qty };
    for key in 1..=1_000u64 {
        map.insert(key, order(key as i64));
    }
    map.insert(17, order(-1));
    assert_eq!(map.len(), 1_000);
    assert_eq!(map.get(17), Some(&order(-1)));
    assert_eq!(map.get(1_001), None);
    if let Some(held) = map.get_mut(20) {
        held.qty = 5;
    }
    assert_eq!(map.remove(20), Some(order(5)));
    assert_eq!(map.remove(20), None);
    assert_eq!(map.len(), 999);
    assert!(!map.is_empty());
}

#[test]
fn an_off_grid_price_outside_the_window_moves_nothing() {
    let mut ladder = Ladder::bids(Band { tick: 100, ticks: 4 });
    ladder.set(10_000, 5);
    let rebases = ladder.rebases();
    for price in [20_050, 10_001, -50] {
        assert!(ladder.admits(price));
        ladder.set(price, 1);
    }
    assert_eq!(ladder.best(), Some((10_000, 5)));
    assert_eq!(ladder.depth(), 1);
    assert_eq!(ladder.off_grid(), 3);
    assert_eq!(ladder.evicted(), 0);
    assert_eq!(ladder.rebases(), rebases);
}

#[test]
fn the_first_price_is_taken_whatever_the_width() {
    for ticks in 4..40 {
        let mut ladder = Ladder::asks(Band { tick: 100, ticks });
        ladder.set(10_000, 5);
        assert_eq!(walk(&ladder), vec![(10_000, 5)]);
        assert_eq!(ladder.off_grid(), 0);
    }
}
