//! The ring: bounded, in order, nothing lost.

use std::rc::Rc;

use tick_to_trade::feed::Rng;
use tick_to_trade::spsc::{ConsumerIndex, ProducerIndex, Ring};

#[test]
fn values_cross_in_order() {
    let mut ring = Ring::with_capacity(4);
    for i in 0..4 {
        ring.try_push(i).unwrap();
    }
    for i in 0..4 {
        assert_eq!(ring.try_pop(), Some(i));
    }
    assert_eq!(ring.try_pop(), None);
}

#[test]
fn full_returns_the_value_instead_of_losing_it() {
    let mut ring = Ring::with_capacity(2);
    ring.try_push(1).unwrap();
    ring.try_push(2).unwrap();
    assert_eq!(ring.try_push(3), Err(3));
    assert_eq!(ring.try_pop(), Some(1));
    ring.try_push(3).unwrap();
    assert_eq!(ring.try_pop(), Some(2));
    assert_eq!(ring.try_pop(), Some(3));
}

#[test]
fn capacity_rounds_up_to_a_power_of_two() {
    let mut ring = Ring::with_capacity(3);
    for i in 0..4 {
        ring.try_push(i).unwrap();
    }
    assert_eq!(ring.try_push(4), Err(4));
}

#[test]
fn wraps_correctly_across_many_generations() {
    // Four slots but forty thousand items: every slot is reused ten thousand
    // times.
    let mut ring = Ring::with_capacity(4);
    for i in 0_u64..40_000 {
        ring.try_push(i).unwrap();
        assert_eq!(ring.try_pop(), Some(i));
    }
}

#[test]
fn undelivered_items_drop_exactly_once() {
    let counted = Rc::new(());
    let mut ring = Ring::with_capacity(8);
    for _ in 0..5 {
        ring.try_push(Rc::clone(&counted)).unwrap();
    }
    assert_eq!(Rc::strong_count(&counted), 6);
    drop(ring.try_pop().unwrap()); // one delivered and dropped by the caller
    assert_eq!(Rc::strong_count(&counted), 5);
    drop(ring); // four still in the ring
    assert_eq!(
        Rc::strong_count(&counted),
        1,
        "an in-flight item leaked or double-dropped"
    );
}

#[test]
fn the_ring_counts_what_is_in_it() {
    let mut ring = Ring::with_capacity(2);
    assert!(ring.is_empty());
    ring.try_push('a').unwrap();
    assert_eq!(ring.len(), 1);
    assert!(!ring.is_empty());
    ring.try_pop();
    assert_eq!(ring.len(), 0);
}

/// The two halves, each with its own index and a stale copy of the other's.
#[test]
fn each_half_sees_the_other_only_when_it_refreshes() {
    let mut producer = ProducerIndex::new(2);
    let mut consumer = ConsumerIndex::new(2);
    assert_eq!(producer.slots(), 2);
    assert!(consumer.looks_empty());
    assert_eq!(producer.slot(), 0);
    let head = producer.advance();
    assert!(consumer.looks_empty());
    consumer.refresh(head);
    assert!(!consumer.looks_empty());
    assert_eq!(producer.slot(), 1);
    let head = producer.advance();
    assert!(producer.looks_full());
    assert_eq!(consumer.slot(), 0);
    let tail = consumer.advance();
    assert!(producer.looks_full());
    producer.refresh(tail);
    assert!(!producer.looks_full());
    assert_eq!(producer.len(tail), 1);
    assert_eq!(consumer.len(head), 1);
    assert_eq!(producer.slot(), 0);
}

#[test]
fn what_came_out_and_what_is_inside_is_what_was_accepted() {
    let mut ring = Ring::with_capacity(4);
    let mut accepted: Vec<u32> = Vec::new();
    let mut delivered: Vec<u32> = Vec::new();
    for step in 0u32..1_000 {
        if step % 7 < 4 {
            if ring.try_push(step).is_ok() {
                accepted.push(step);
            }
        } else if let Some(item) = ring.try_pop() {
            delivered.push(item);
        }
        assert!(ring.len() <= 4);
    }
    while let Some(item) = ring.try_pop() {
        delivered.push(item);
    }
    assert_eq!(delivered, accepted);
}

/// The sides alternate within a push and a pop, and look at each other's index
/// only as it was a while ago.
#[test]
fn values_cross_in_order_when_the_sides_alternate_in_the_middle() {
    let mut producer = ProducerIndex::new(4);
    let mut consumer = ConsumerIndex::new(4);
    let mut slots = [0u32; 4];
    let mut heads: Vec<usize> = vec![0];
    let mut tails: Vec<usize> = vec![0];
    let mut seen = (0usize, 0usize);
    let mut rng = Rng(5);
    let (mut accepted, mut delivered) = (0u32, 0u32);
    let (mut written, mut read) = (false, false);
    for _ in 0..100_000 {
        match rng.below(6) {
            0 => {
                seen.0 += rng.below((tails.len() - seen.0) as u64) as usize;
                producer.refresh(tails[seen.0]);
            }
            1 if !written && !producer.looks_full() => {
                slots[producer.slot()] = accepted;
                written = true;
            }
            2 if written => {
                heads.push(producer.advance());
                accepted += 1;
                written = false;
            }
            3 => {
                seen.1 += rng.below((heads.len() - seen.1) as u64) as usize;
                consumer.refresh(heads[seen.1]);
            }
            4 if !read && !consumer.looks_empty() => {
                assert!(!written || producer.slot() != consumer.slot());
                assert_eq!(slots[consumer.slot()], delivered);
                delivered += 1;
                read = true;
            }
            5 if read => {
                tails.push(consumer.advance());
                read = false;
            }
            _ => {}
        }
        assert!(delivered <= accepted && accepted <= delivered + 4);
    }
    assert!(delivered > 1_000);
    // The producer stops; what it published arrives, and the ring is empty.
    if read {
        consumer.advance();
    }
    consumer.refresh(heads[heads.len() - 1]);
    while !consumer.looks_empty() {
        assert_eq!(slots[consumer.slot()], delivered);
        delivered += 1;
        consumer.advance();
    }
    assert_eq!(delivered, accepted);
    assert_eq!(consumer.len(heads[heads.len() - 1]), 0);
}
