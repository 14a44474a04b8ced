//! The feed side: what a datagram comes to and what it leaves behind.

use vstd::prelude::*;

use crate::feed;
use crate::feed::itch::Itch;
use crate::feed::mold::{Header, Lines};
use crate::feed::synth;
use crate::feed::{Event, Parser};
use crate::pipeline::handler;
use crate::pipeline::handler::{FeedHandler, HandlerState, Received};
use crate::pipeline::StageState;
use crate::promises;
use crate::promises::lines;
use crate::promises::{eight, two};

verus! {

/// Whether `header` is what stands in the first twenty bytes.
pub open spec fn heads(datagram: Seq<u8>, header: Header) -> bool {
    &&& header.session@ == datagram.take(10)
    &&& header.sequence == eight(datagram, 10)
    &&& header.count == two(datagram, 18)
}

/// A datagram shorter than a header is not ours, and changes nothing.
pub proof fn lemma_short_is_not_ours(
    before: FeedHandler,
    datagram: Seq<u8>,
    received: Received,
    after: FeedHandler,
)
    requires
        datagram.len() < 20,
        before.receives(datagram, received, after),
    ensures
        received == Received::NotOurs,
        after@ == before@,
{
}

proof fn lemma_taken(
    before: FeedHandler,
    datagram: Seq<u8>,
    header: Header,
    received: Received,
    after: FeedHandler,
)
    requires
        datagram.len() >= 20,
        heads(datagram, header),
        before.receives(datagram, received, after),
    ensures
        before.takes(header, datagram.skip(20), received, after),
{
    promises::lemma_eight(datagram.subrange(10, 18));
    promises::lemma_two(datagram.subrange(18, 20));
    assert(datagram.subrange(0, 10) =~= datagram.take(10));
    assert(handler::header_of(datagram, header));
}

/// A datagram of another session resynchronizes to its own sequence. A sequence
/// before the one expected is a duplicate. One after it is held where it is less
/// than 64 ahead and 1,500 bytes at most, and lost past otherwise, which
/// resynchronizes to it. None of them reaches the books, and each says how far
/// ahead it was.
#[verifier::rlimit(60)]
#[verifier::spinoff_prover]
pub proof fn lemma_out_of_sequence(
    before: FeedHandler,
    datagram: Seq<u8>,
    header: Header,
    received: Received,
    after: FeedHandler,
)
    requires
        datagram.len() >= 20,
        heads(datagram, header),
        before.receives(datagram, received, after),
        received != Received::Refused,
        header.session@ != before@.lines.session || header.sequence != before@.lines.expected,
    ensures
        ({
            let payload = datagram.skip(20);
            let held = before@.lines;
            let same = header.session@ == held.session;
            let ahead = header.sequence - held.expected;
            let bridged = 0 < ahead < 64 && payload.len() <= 1_500;
            &&& after@.stage == before@.stage
            &&& !same ==> received == Received::Resequenced && after@.lines == (Lines {
                session: header.session@,
                expected: header.sequence as nat,
                held: Map::empty(),
                ..held
            })
            &&& same && ahead < 0 ==> received == Received::Duplicate && after@.lines == (Lines {
                duplicates: held.duplicates + 1,
                ..held
            })
            &&& same && bridged ==> received == (Received::Gap { missing: ahead as u64 })
                && after@.lines == (Lines {
                gaps: held.gaps + 1,
                held: held.held.insert(header.sequence as nat, payload),
                ..held
            })
            &&& same && 0 < ahead && !bridged ==> received == (Received::Lost {
                missing: ahead as u64,
            }) && after@.lines == (Lines {
                gaps: held.gaps + 1,
                expected: header.sequence as nat,
                held: Map::empty(),
                ..held
            })
        }),
{
    lemma_taken(before, datagram, header, received, after);
    lines::lemma_what_is_decided(before@.lines, header, datagram.skip(20));
    lines::lemma_what_a_packet_changes(before@.lines, header, datagram.skip(20));
}

/// What a run of payloads says, each by itself.
pub open spec fn all_say(parser: Itch<'_>, payloads: Seq<Seq<u8>>) -> Seq<Event> {
    payloads.map_values(|payload: Seq<u8>| parser.decoding(payload).events).flatten()
}

proof fn lemma_all_say(parser: Itch<'_>, payloads: Seq<Seq<u8>>)
    requires
        feed::names(parser.symbols@) == synth::tradfi_names(),
    ensures
        handler::read_all(payloads) == all_say(parser, payloads),
    decreases payloads.len(),
{
    let says = |payload: Seq<u8>| parser.decoding(payload).events;
    let all = payloads.map_values(says);
    if payloads.len() == 0 {
        assert(all =~= Seq::empty());
        assert(all.flatten() =~= Seq::empty());
    } else {
        let fewer = payloads.drop_last();
        lemma_all_say(parser, fewer);
        assert(all.drop_last() =~= fewer.map_values(says));
        assert(all.last() == says(payloads.last()));
        all.lemma_flatten_and_flatten_alt_are_equivalent();
        all.drop_last().lemma_flatten_and_flatten_alt_are_equivalent();
    }
}

/// The payload in sequence goes to the books event by event. Where it parses,
/// what is held for the sequences right behind it follows, payload by payload,
/// and the touch is announced if it moved on the way; where it does not, what it
/// said up to its fault has been taken and nothing is released.
#[verifier::rlimit(30)]
pub proof fn lemma_in_sequence(
    before: FeedHandler,
    datagram: Seq<u8>,
    header: Header,
    received: Received,
    after: FeedHandler,
    parser: Itch<'_>,
)
    requires
        datagram.len() >= 20,
        heads(datagram, header),
        before.receives(datagram, received, after),
        received != Received::Refused,
        header.session@ == before@.lines.session,
        header.sequence == before@.lines.expected,
        feed::names(parser.symbols@) == synth::tradfi_names(),
    ensures
        ({
            let said = parser.decoding(datagram.skip(20));
            let offered = before@.lines.offered(header, datagram.skip(20));
            let released = offered.released();
            let reached = before@.stage.accept_all(said.events);
            let done = before@.stage.accept_all(said.events + all_say(parser, released));
            &&& said.outcome is Err ==> {
                &&& received == Received::Undecodable
                &&& after@ == (HandlerState { lines: offered, stage: reached })
            }
            &&& said.outcome is Ok ==> {
                &&& received is Delivered
                &&& received->update == done.moved
                &&& received->undecodable == handler::faults(released) as u64
                &&& after@ == (HandlerState {
                    lines: offered.drained(),
                    stage: StageState { moved: None, ..done },
                })
            }
        }),
{
    let payload = datagram.skip(20);
    lemma_taken(before, datagram, header, received, after);
    lines::lemma_what_is_decided(before@.lines, header, payload);
    lemma_all_say(parser, before@.lines.offered(header, payload).released());
}

/// How many payloads do not parse is counted over those released.
pub proof fn lemma_faults_are_counted(parser: Itch<'_>, payloads: Seq<Seq<u8>>, payload: Seq<u8>)
    requires
        feed::names(parser.symbols@) == synth::tradfi_names(),
    ensures
        handler::faults(Seq::empty()) == 0,
        parser.decoding(payload).outcome is Ok ==> handler::faults(payloads.push(payload))
            == handler::faults(payloads),
        parser.decoding(payload).outcome is Err ==> handler::faults(payloads.push(payload))
            == handler::faults(payloads) + 1,
{
    assert(payloads.push(payload).drop_last() =~= payloads);
}

/// A datagram is taken wherever the books take every event in it, and no count
/// or sequence runs out.
#[verifier::rlimit(60)]
#[verifier::spinoff_prover]
pub proof fn lemma_when_a_datagram_is_taken(
    before: FeedHandler,
    datagram: Seq<u8>,
    header: Header,
    received: Received,
    after: FeedHandler,
    parser: Itch<'_>,
)
    requires
        datagram.len() >= 20,
        heads(datagram, header),
        before.receives(datagram, received, after),
        feed::names(parser.symbols@) == synth::tradfi_names(),
        !after.outgrown(),
        before@.lines.held.dom().finite(),
        ({
            let held = before@.lines;
            let offered = held.offered(header, datagram.skip(20));
            let said = parser.decoding(datagram.skip(20));
            let more = offered.released().len();
            &&& held.expected + header.count + more <= u64::MAX
            &&& held.delivered + 1 + more <= u64::MAX
            &&& held.duplicates < u64::MAX
            &&& held.gaps < u64::MAX
            &&& held.recovered + more <= u64::MAX
            &&& header.session@ == held.session && header.sequence == held.expected
                ==> before@.stage.admits_all(
                said.events + (if said.outcome is Ok {
                    all_say(parser, offered.released())
                } else {
                    Seq::empty()
                }),
            )
        }),
    ensures
        received != Received::Refused,
{
    let payload = datagram.skip(20);
    let held = before@.lines;
    let offered = held.offered(header, payload);
    lemma_taken(before, datagram, header, received, after);
    lines::lemma_what_is_decided(held, header, payload);
    lines::lemma_what_a_packet_changes(held, header, payload);
    assert(offered.held.dom().finite()) by {
        if header.session@ == held.session && header.sequence == held.expected {
            assert forall|q: nat| offered.held.dom().contains(q) implies held.held.dom().contains(
                q,
            ) by {
                assert(offered.held.contains_key(q));
            }
            vstd::set_lib::lemma_set_subset_finite(held.held.dom(), offered.held.dom());
        }
    }
    lines::lemma_what_is_released(offered);
    lemma_all_say(parser, offered.released());
    let said = parser.decoding(payload);
    assert(said.events + Seq::<Event>::empty() =~= said.events);
    assert(before@.stage.admits_all(Seq::empty()));
    assert(before@.admits(header, payload));
}

/// A refused datagram that cannot be counted changes nothing. Any other has its
/// packet counted, and of what it brings some first part was taken, in order, and
/// at most the next event refused.
pub proof fn lemma_what_a_refused_datagram_leaves(
    before: FeedHandler,
    datagram: Seq<u8>,
    header: Header,
    after: FeedHandler,
    parser: Itch<'_>,
) -> (n: int)
    requires
        datagram.len() >= 20,
        heads(datagram, header),
        before.receives(datagram, Received::Refused, after),
        feed::names(parser.symbols@) == synth::tradfi_names(),
        header.session@ == before@.lines.session,
        header.sequence == before@.lines.expected,
    ensures
        ({
            let offered = before@.lines.offered(header, datagram.skip(20));
            let said = parser.decoding(datagram.skip(20));
            let brought = if said.outcome is Ok {
                said.events + all_say(parser, offered.released())
            } else {
                said.events
            };
            let reached = before@.stage.accept_all(brought.take(n));
            after@ == before@ || {
                &&& after@.lines == offered || after@.lines == offered.drained()
                &&& 0 <= n <= brought.len()
                &&& before@.stage.admits_all(brought.take(n))
                &&& after@.stage.touch == reached.touch
                &&& after@.stage.moved == reached.moved
                &&& after@.stage.books == reached.books || n < brought.len()
                    && reached.books.refuses(brought[n], after@.stage.books)
            }
        }),
{
    let payload = datagram.skip(20);
    lemma_taken(before, datagram, header, Received::Refused, after);
    lines::lemma_what_is_decided(before@.lines, header, payload);
    lemma_all_say(parser, before@.lines.offered(header, payload).released());
    if before@.lines.offered(header, payload).in_range() {
        choose|n: int|
            #[trigger] before@.stage.stops(before@.brought(header, payload), n, after@.stage)
    } else {
        0
    }
}

} // verus!
