//! What a datagram off the feed does to the books.

use vstd::prelude::*;

use crate::feed;
use crate::feed::itch as wire_format;
use crate::feed::itch::Itch;
use crate::feed::mold;
use crate::feed::mold::{Admit, Arbitrator, Header, Lines};
use crate::feed::synth;
use crate::feed::{Event, Parser};
use crate::pipeline;
use crate::pipeline::probe;
use crate::pipeline::{BboUpdate, FeedStage, StageState};
use crate::wire;

verus! {

/// What a datagram came to.
#[derive(Clone, Copy, Debug, Eq, PartialEq, Structural)]
pub enum Received {
    /// Shorter than a header: not ours.
    NotOurs,
    /// In sequence, but its payload does not parse.
    Undecodable,
    /// In sequence. The touch may have moved, and stashed payloads that were
    /// waiting on this one may have been undecodable.
    Delivered { update: Option<BboUpdate>, undecodable: u64 },
    /// The other line's copy of something already delivered.
    Duplicate,
    /// Ahead of a hole. The packet is stashed; the other line's copy, or the
    /// reordered original on this one, fills the hole and releases it.
    Gap { missing: u64 },
    /// Ahead by more than the stash holds: resynchronized past the loss.
    Lost { missing: u64 },
    /// The venue re-sequenced: resynchronized.
    Resequenced,
    /// An event or a count was beyond what the books and counters can hold.
    Refused,
}

/// Where the feed side stands.
#[verifier::ext_equal]
pub struct HandlerState {
    pub lines: Lines,
    pub stage: StageState,
}

/// The header of a datagram.
pub open spec fn header_of(datagram: Seq<u8>, header: Header) -> bool {
    &&& header.session@ == datagram.subrange(0, 10)
    &&& header.sequence == wire::be_value(datagram.subrange(10, 18))
    &&& header.count == wire::be_value(datagram.subrange(18, 20))
}

/// What a payload says.
pub open spec fn read(payload: Seq<u8>) -> feed::Decoding {
    wire_format::frames_spec(synth::tradfi_names(), payload, 0)
}

/// What payloads say, one after the other; an undecodable one says what it
/// says up to its fault.
pub open spec fn read_all(payloads: Seq<Seq<u8>>) -> Seq<Event>
    decreases payloads.len(),
{
    if payloads.len() == 0 {
        Seq::empty()
    } else {
        read_all(payloads.drop_last()) + read(payloads.last()).events
    }
}

/// How many payloads do not parse.
pub open spec fn faults(payloads: Seq<Seq<u8>>) -> nat
    decreases payloads.len(),
{
    if payloads.len() == 0 {
        0
    } else {
        faults(payloads.drop_last()) + (if read(payloads.last()).outcome is Err {
            1nat
        } else {
            0
        })
    }
}

impl HandlerState {
    /// The events that a datagram brings to the books.
    pub open spec fn brought(self, header: Header, payload: Seq<u8>) -> Seq<Event> {
        if self.lines.verdict(header, payload) is Deliver {
            if read(payload).outcome is Err {
                read(payload).events
            } else {
                read(payload).events + read_all(
                    self.lines.offered(header, payload).released(),
                )
            }
        } else {
            Seq::empty()
        }
    }

    /// Whether a datagram stays within what can be counted.
    pub open spec fn admits(self, header: Header, payload: Seq<u8>) -> bool {
        let offered = self.lines.offered(header, payload);
        &&& offered.in_range()
        &&& self.lines.verdict(header, payload) is Deliver && read(payload).outcome is Ok
            ==> offered.drained().in_range()
        &&& self.stage.admits_all(self.brought(header, payload))
    }

    /// Whether the orders that a datagram may bring leave every order table far
    /// from what it can grow to.
    pub open spec fn roomy(self, header: Header, payload: Seq<u8>) -> bool {
        let brought = self.brought(header, payload);
        brought.len() > 0 ==> self.stage.books.room_for(brought.len())
    }

    /// Where a refused datagram leaves the feed side: nothing changed, where it
    /// cannot be counted; otherwise some of what it brings was taken, in order.
    pub open spec fn refuses(self, header: Header, payload: Seq<u8>, after: HandlerState) -> bool {
        let offered = self.lines.offered(header, payload);
        if offered.in_range() {
            &&& after.lines == offered || after.lines == offered.drained()
            &&& exists|n: int|
                #[trigger] self.stage.stops(self.brought(header, payload), n, after.stage)
        } else {
            after == self
        }
    }

    /// The feed side after a datagram.
    pub open spec fn take(self, header: Header, payload: Seq<u8>) -> HandlerState {
        let offered = self.lines.offered(header, payload);
        let stage = self.stage.accept_all(self.brought(header, payload));
        match self.lines.verdict(header, payload) {
            Admit::Deliver => if read(payload).outcome is Err {
                HandlerState { lines: offered, stage }
            } else {
                HandlerState {
                    lines: offered.drained(),
                    stage: StageState { moved: None, ..stage },
                }
            },
            Admit::Duplicate => HandlerState { lines: offered, ..self },
            Admit::Gap { .. } => HandlerState { lines: offered, ..self },
            Admit::Unrecoverable { .. } => HandlerState {
                lines: offered.resynchronize(header.session@, header.sequence as nat),
                ..self
            },
            Admit::SessionChanged => HandlerState {
                lines: offered.resynchronize(header.session@, header.sequence as nat),
                ..self
            },
        }
    }

    /// What the datagram came to.
    pub open spec fn outcome(self, header: Header, payload: Seq<u8>) -> Received {
        match self.lines.verdict(header, payload) {
            Admit::Deliver => if read(payload).outcome is Err {
                Received::Undecodable
            } else {
                Received::Delivered {
                    update: self.stage.accept_all(self.brought(header, payload)).moved,
                    undecodable: faults(self.lines.offered(header, payload).released()) as u64,
                }
            },
            Admit::Duplicate => Received::Duplicate,
            Admit::Gap { missing } => Received::Gap { missing },
            Admit::Unrecoverable { missing } => Received::Lost { missing },
            Admit::SessionChanged => Received::Resequenced,
        }
    }
}

/// The feed side: the arbitrator, and the stage that owns the books.
#[derive(Debug)]
pub struct FeedHandler {
    arbitrator: Arbitrator,
    stage: FeedStage,
}

impl View for FeedHandler {
    type V = HandlerState;

    closed spec fn view(&self) -> HandlerState {
        HandlerState { lines: self.arbitrator@, stage: self.stage@ }
    }
}

/// Events of two runs are the one run after the other.
proof fn lemma_accept_all_adds(stage: StageState, a: Seq<Event>, b: Seq<Event>)
    ensures
        stage.accept_all(a + b) == stage.accept_all(a).accept_all(b),
        stage.admits_all(a + b) == (stage.admits_all(a) && stage.accept_all(a).admits_all(b)),
    decreases b.len(),
{
    if b.len() == 0 {
        assert(a + b =~= a);
    } else {
        assert((a + b).drop_last() =~= a + b.drop_last());
        assert((a + b).last() == b.last());
        lemma_accept_all_adds(stage, a, b.drop_last());
    }
}

proof fn lemma_one_more(stage: StageState, events: Seq<Event>, n: int)
    requires
        0 <= n < events.len(),
    ensures
        stage.accept_all(events.take(n + 1)) == stage.accept_all(events.take(n)).accept(events[n]),
        stage.admits_all(events.take(n + 1)) == (stage.admits_all(events.take(n))
            && stage.accept_all(events.take(n)).books.admits(events[n])),
        stage.admits_all(events) ==> stage.admits_all(events.take(n + 1)),
{
    assert(events.take(n + 1).drop_last() =~= events.take(n));
    lemma_accept_all_adds(stage, events.take(n + 1), events.skip(n + 1));
    assert(events.take(n + 1) + events.skip(n + 1) =~= events);
}

/// Events that are taken use up the room of one order each, at most.
proof fn lemma_accept_all_room(stage: StageState, events: Seq<Event>, more: nat)
    requires
        stage.admits_all(events),
        stage.books.room_for(events.len() + more),
    ensures
        stage.accept_all(events).books.room_for(more),
    decreases events.len(),
{
    if events.len() > 0 {
        let before = events.drop_last();
        assert(stage.books.room_for(before.len() + (more + 1)));
        lemma_accept_all_room(stage, before, more + 1);
        crate::book::lemma_room_kept(stage.accept_all(before).books, events.last(), more);
    }
}

/// A run that stops in its middle part stops there as a whole.
proof fn lemma_stops_within(
    stage: StageState,
    a: Seq<Event>,
    b: Seq<Event>,
    c: Seq<Event>,
    n: int,
    after: StageState,
)
    requires
        stage.admits_all(a),
        stage.accept_all(a).stops(b, n, after),
    ensures
        stage.stops(a + b + c, a.len() + n, after),
{
    let all = a + b + c;
    assert(all.take(a.len() + n) =~= a + b.take(n));
    lemma_accept_all_adds(stage, a, b.take(n));
    if n < b.len() {
        assert(all[a.len() + n] == b[n]);
    }
}

/// Takes events into the stage in turn; `false` where one is not admitted.
fn accept_events(stage: &mut FeedStage, events: &Vec<Event>) -> (accepted: bool)
    requires
        old(stage).wf(),
    ensures
        final(stage).wf(),
        accepted ==> old(stage)@.admits_all(events@) && final(stage)@ == old(stage)@.accept_all(
            events@,
        ),
        !accepted ==> !old(stage)@.admits_all(events@) || final(stage).outgrown(),
        !accepted ==> exists|n: int| #[trigger] old(stage)@.stops(events@, n, final(stage)@),
        !old(stage).outgrown() && (events@.len() > 0 ==> old(stage)@.books.room_for(events@.len()))
            ==> !final(stage).outgrown(),
{
    let ghost start = stage@;
    let mut i: usize = 0;
    assert(events@.take(0) =~= Seq::empty());
    while i < events.len()
        invariant
            i <= events@.len(),
            stage.wf(),
            start == old(stage)@,
            start.admits_all(events@.take(i as int)),
            stage@ == start.accept_all(events@.take(i as int)),
            !old(stage).outgrown() && start.books.room_for(events@.len()) ==> !stage.outgrown(),
            i == 0 ==> stage.outgrown() == old(stage).outgrown(),
        decreases events@.len() - i,
    {
        proof {
            lemma_one_more(start, events@, i as int);
            if start.books.room_for(events@.len()) {
                let left = (events@.len() - i) as nat;
                assert(start.books.room_for(events@.take(i as int).len() + left));
                lemma_accept_all_room(start, events@.take(i as int), left);
                assert(stage@.books.room_for(0));
            }
        }
        if !stage.try_accept(&events[i]) {
            assert(start.stops(events@, i as int, stage@));
            return false;
        }
        i = i + 1;
    }
    assert(events@.take(i as int) =~= events@);
    true
}

impl FeedHandler {
    pub closed spec fn wf(&self) -> bool {
        &&& self.arbitrator.wf()
        &&& self.stage.wf()
    }

    /// Whether some order table cannot double any more.
    pub closed spec fn outgrown(&self) -> bool {
        self.stage.outgrown()
    }

    /// A handler for the probes' session, with empty books.
    #[must_use]
    pub fn new() -> (handler: Self)
        ensures
            handler.wf(),
            handler@.lines == Lines::fresh(probe::SESSION@, probe::FIRST_SEQUENCE as nat),
            handler@.stage == (StageState {
                books: crate::book::BooksState::empty(
                    4,
                    crate::book::ladder::Band {
                        tick: pipeline::BAND_TICK,
                        ticks: pipeline::BAND_TICKS,
                    },
                ),
                touch: (0, 0),
                moved: None,
            }),
            !handler.outgrown(),
    {
        FeedHandler {
            arbitrator: Arbitrator::new(probe::SESSION, probe::FIRST_SEQUENCE),
            stage: FeedStage::new(4, pipeline::band()),
        }
    }

    /// The stage that owns the books.
    #[must_use]
    pub fn stage(&self) -> (stage: &FeedStage)
        requires
            self.wf(),
        ensures
            stage.wf(),
            stage@ == self@.stage,
            stage.outgrown() == self.outgrown(),
    {
        &self.stage
    }

    /// Parses a payload into the stage. `None` where an event is not admitted;
    /// otherwise whether the payload parsed.
    fn parse(&mut self, payload: &[u8]) -> (parsed: Option<bool>)
        requires
            old(self).wf(),
        ensures
            final(self).wf(),
            final(self).arbitrator == old(self).arbitrator,
            parsed matches Some(parsed) ==> {
                &&& parsed == (read(payload@).outcome is Ok)
                &&& old(self)@.stage.admits_all(read(payload@).events)
                &&& final(self)@.stage == old(self)@.stage.accept_all(read(payload@).events)
            },
            parsed is None ==> !old(self)@.stage.admits_all(read(payload@).events)
                || final(self).outgrown(),
            parsed is None ==> exists|n: int|
                #[trigger] old(self)@.stage.stops(read(payload@).events, n, final(self)@.stage),
            ({
                let events = read(payload@).events;
                !old(self).outgrown() && (events.len() > 0 ==> old(self)@.stage.books.room_for(
                    events.len(),
                )) ==> !final(self).outgrown()
            }),
    {
        let parser = Itch { symbols: synth::tradfi() };
        let mut events: Vec<Event> = Vec::new();
        let parsed = parser.parse(payload, &mut events).is_ok();
        assert(events@ =~= read(payload@).events);
        if !accept_events(&mut self.stage, &events) {
            return None;
        }
        Some(parsed)
    }

    /// What receiving a datagram came to, and where it left the handler.
    pub open spec fn receives(
        self,
        datagram: Seq<u8>,
        received: Received,
        after: FeedHandler,
    ) -> bool {
        if datagram.len() < mold::HEADER_LEN {
            &&& received == Received::NotOurs
            &&& after@ == self@
            &&& after.outgrown() == self.outgrown()
        } else {
            let payload = datagram.skip(mold::HEADER_LEN as int);
            forall|header: Header|
                #![trigger header_of(datagram, header)]
                header_of(datagram, header) ==> self.takes(header, payload, received, after)
        }
    }

    /// The same of a datagram taken apart.
    pub open spec fn takes(
        self,
        header: Header,
        payload: Seq<u8>,
        received: Received,
        after: FeedHandler,
    ) -> bool {
        &&& received != Received::NotOurs
        &&& received != Received::Refused ==> {
            &&& self@.admits(header, payload)
            &&& received == self@.outcome(header, payload)
            &&& after@ == self@.take(header, payload)
        }
        &&& received == Received::Refused ==> {
            &&& !self@.admits(header, payload) || after.outgrown()
            &&& self@.refuses(header, payload, after@)
        }
        &&& !self.outgrown() && self@.roomy(header, payload) ==> !after.outgrown()
    }

    /// What a datagram off either line does.
    pub fn receive(&mut self, datagram: &[u8]) -> (received: Received)
        requires
            old(self).wf(),
        ensures
            final(self).wf(),
            old(self).receives(datagram@, received, *final(self)),
    {
        let header = match Header::parse(datagram) {
            Ok(header) => header,
            Err(_) => {
                return Received::NotOurs;
            },
        };
        proof {
            assert forall|other: Header|
                #![trigger header_of(datagram@, other)]
                header_of(datagram@, other) implies other == header by {
                lemma_same_header(other, header);
            }
        }
        let payload = &datagram[mold::HEADER_LEN..datagram.len()];
        assert(payload@ =~= datagram@.skip(mold::HEADER_LEN as int));
        self.receive_payload(&header, payload)
    }

    fn receive_payload(&mut self, header: &Header, payload: &[u8]) -> (received: Received)
        requires
            old(self).wf(),
        ensures
            final(self).wf(),
            old(self).takes(*header, payload@, received, *final(self)),
    {
        let ghost brought = old(self)@.brought(*header, payload@);
        let ghost lines = old(self)@.lines;
        let ghost start = old(self)@.stage;
        if !self.arbitrator.can_offer(header) {
            return Received::Refused;
        }
        match self.arbitrator.offer(header, payload) {
            Admit::Deliver => {
                proof {
                    if read(payload@).outcome is Ok {
                        lemma_accept_all_adds(
                            old(self)@.stage,
                            read(payload@).events,
                            read_all(lines.offered(*header, payload@).released()),
                        );
                    }
                }
                let ghost said = read(payload@).events;
                let ghost stashed = read_all(lines.offered(*header, payload@).released());
                let parsed = self.parse(payload);
                match parsed {
                    None => {
                        proof {
                            let stage = self@.stage;
                            let n = choose|n: int| #[trigger] start.stops(said, n, stage);
                            let rest = brought.skip(said.len() as int);
                            assert(start.admits_all(Seq::empty()));
                            assert(start.accept_all(Seq::empty()) == start);
                            lemma_stops_within(start, Seq::empty(), said, rest, n, stage);
                            assert(Seq::<Event>::empty() + said + rest =~= brought);
                        }
                        Received::Refused
                    },
                    Some(false) => Received::Undecodable,
                    Some(true) => {
                        let ghost middle = self@.stage;
                        proof {
                            assert(brought == said + stashed);
                            if start.books.room_for(brought.len()) {
                                assert(start.books.room_for(said.len() + stashed.len()));
                                lemma_accept_all_room(start, said, stashed.len());
                            }
                        }
                        let received = self.release();
                        proof {
                            if received == Received::Refused {
                                let stage = self@.stage;
                                let n = choose|n: int| #[trigger] middle.stops(stashed, n, stage);
                                lemma_stops_within(start, said, stashed, Seq::empty(), n, stage);
                                assert(said + stashed + Seq::<Event>::empty() =~= brought);
                            }
                        }
                        received
                    },
                }
            },
            Admit::Duplicate => Received::Duplicate,
            Admit::Gap { missing } => Received::Gap { missing },
            Admit::Unrecoverable { missing } => {
                self.arbitrator.resynchronize(header.session, header.sequence);
                Received::Lost { missing }
            },
            Admit::SessionChanged => {
                self.arbitrator.resynchronize(header.session, header.sequence);
                Received::Resequenced
            },
        }
    }

    /// Delivers what was stashed behind a delivered packet, and announces the
    /// touch.
    #[verifier::rlimit(60)]
    #[verifier::spinoff_prover]
    fn release(&mut self) -> (received: Received)
        requires
            old(self).wf(),
        ensures
            final(self).wf(),
            received != Received::NotOurs,
            ({
                let payloads = old(self)@.lines.released();
                let stage = old(self)@.stage.accept_all(read_all(payloads));
                &&& received != Received::Refused ==> {
                    &&& old(self)@.lines.drained().in_range()
                    &&& old(self)@.stage.admits_all(read_all(payloads))
                    &&& received == (Received::Delivered {
                        update: stage.moved,
                        undecodable: faults(payloads) as u64,
                    })
                    &&& final(self)@ == (HandlerState {
                        lines: old(self)@.lines.drained(),
                        stage: StageState { moved: None, ..stage },
                    })
                }
                &&& received == Received::Refused ==> {
                    ||| !old(self)@.lines.drained().in_range()
                    ||| !old(self)@.stage.admits_all(read_all(payloads))
                    ||| final(self).outgrown()
                }
                &&& received == Received::Refused ==> {
                    &&& final(self)@.lines == old(self)@.lines || final(self)@.lines == old(
                        self,
                    )@.lines.drained()
                    &&& exists|n: int|
                        #[trigger] old(self)@.stage.stops(
                            read_all(payloads),
                            n,
                            final(self)@.stage,
                        )
                }
                &&& !old(self).outgrown() && (read_all(payloads).len() > 0
                    ==> old(self)@.stage.books.room_for(read_all(payloads).len()))
                    ==> !final(self).outgrown()
            }),
    {
        if !self.arbitrator.can_drain() {
            proof {
                let events = read_all(self@.lines.released());
                assert(events.take(0) =~= Seq::empty());
                assert(self@.stage.stops(events, 0, self@.stage));
            }
            return Received::Refused;
        }
        let ghost all = read_all(self@.lines.released());
        let mut stashed: Vec<Vec<u8>> = Vec::new();
        let ghost payloads = self@.lines.released();
        let ghost start = self@.stage;
        let ghost lines = self@.lines.drained();
        self.arbitrator.drain_stash(&mut stashed);
        let mut undecodable: u64 = 0;
        let mut i: usize = 0;
        assert(payloads.take(0) =~= Seq::empty());
        while i < stashed.len()
            invariant
                i <= stashed@.len(),
                stashed@.len() == payloads.len(),
                forall|k: int|
                    #![trigger payloads[k]]
                    0 <= k < payloads.len() ==> stashed@[k]@ == payloads[k],
                self.wf(),
                self@.lines == lines,
                lines == old(self)@.lines.drained(),
                start == old(self)@.stage,
                payloads == old(self)@.lines.released(),
                start.admits_all(read_all(payloads.take(i as int))),
                self@.stage == start.accept_all(read_all(payloads.take(i as int))),
                undecodable == faults(payloads.take(i as int)),
                undecodable <= i,
                all == read_all(payloads),
                !old(self).outgrown() && start.books.room_for(all.len()) ==> !self.outgrown(),
                !old(self).outgrown() && all.len() == 0 ==> !self.outgrown(),
            decreases stashed@.len() - i,
        {
            let ghost before = read_all(payloads.take(i as int));
            let ghost here = read(payloads[i as int]).events;
            let ghost after = all.skip((before.len() + here.len()) as int);
            proof {
                lemma_read_all_splits(payloads, i as int);
                assert(before + here + after =~= all);
                if start.books.room_for(all.len()) {
                    assert(start.books.room_for(before.len() + (here.len() + after.len())));
                    lemma_accept_all_room(start, before, here.len() + after.len());
                    assert(self@.stage.books.room_for(here.len()));
                }
            }
            proof {
                assert(payloads.take(i + 1).drop_last() =~= payloads.take(i as int));
                assert(payloads[i as int] == stashed@[i as int]@);
                lemma_accept_all_adds(
                    start,
                    read_all(payloads.take(i as int)),
                    read(payloads[i as int]).events,
                );
                lemma_read_all_prefix(start, payloads, i + 1);
            }
            match self.parse(&stashed[i]) {
                None => {
                    proof {
                        let reached = start.accept_all(before);
                        let stage = self@.stage;
                        let n = choose|n: int| #[trigger] reached.stops(here, n, stage);
                        lemma_stops_within(start, before, here, after, n, stage);
                    }
                    return Received::Refused;
                },
                Some(parsed) => {
                    if !parsed {
                        undecodable = undecodable + 1;
                    }
                },
            }
            i = i + 1;
        }
        assert(payloads.take(i as int) =~= payloads);
        let update = self.stage.take_moved();
        Received::Delivered { update, undecodable }
    }
}

/// A header is known by its fields.
proof fn lemma_same_header(a: Header, b: Header)
    requires
        a.session@ == b.session@,
        a.sequence == b.sequence,
        a.count == b.count,
    ensures
        a == b,
{
    assert(a.session =~= b.session);
}

/// What a payload says stands among what all of them say.
proof fn lemma_read_all_splits(payloads: Seq<Seq<u8>>, n: int)
    requires
        0 <= n < payloads.len(),
    ensures
        (read_all(payloads.take(n)) + read(payloads[n]).events).is_prefix_of(read_all(payloads)),
    decreases payloads.len() - n,
{
    let here = read_all(payloads.take(n + 1));
    assert(payloads.take(n + 1).drop_last() =~= payloads.take(n));
    assert(here == read_all(payloads.take(n)) + read(payloads[n]).events);
    if n + 1 < payloads.len() {
        lemma_read_all_splits(payloads, n + 1);
        let more = read(payloads[n + 1]).events;
        let all = read_all(payloads);
        assert((here + more).is_prefix_of(all));
        assert(here =~= all.take(here.len() as int)) by {
            assert(here + more =~= all.take((here + more).len() as int));
            assert forall|i: int| 0 <= i < here.len() implies here[i] == all[i] by {
                assert((here + more)[i] == all.take((here + more).len() as int)[i]);
            }
        }
    } else {
        assert(payloads.take(n + 1) =~= payloads);
        assert(here =~= here.take(here.len() as int));
    }
}

/// Events that are all admitted are admitted up to any payload.
proof fn lemma_read_all_prefix(stage: StageState, payloads: Seq<Seq<u8>>, n: int)
    requires
        0 <= n <= payloads.len(),
    ensures
        stage.admits_all(read_all(payloads)) ==> stage.admits_all(read_all(payloads.take(n))),
    decreases payloads.len() - n,
{
    if n < payloads.len() {
        lemma_read_all_prefix(stage, payloads, n + 1);
        assert(payloads.take(n + 1).drop_last() =~= payloads.take(n));
        lemma_accept_all_adds(
            stage,
            read_all(payloads.take(n)),
            read(payloads[n]).events,
        );
    } else {
        assert(payloads.take(n) =~= payloads);
    }
}

} // verus!
