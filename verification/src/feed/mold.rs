//! MoldUDP64 framing and A/B line arbitration: how ITCH actually arrives.
//!
//! Real feeds are sequenced datagrams sent twice down independent paths. The
//! handler's job is to deliver each sequence exactly once, in order, from
//! whichever line got there first, and to notice when both lost the same
//! packet.
//!
//! ```text
//! sequence == expected   deliver          (the overwhelming case: 1 compare)
//! sequence <  expected   duplicate, drop  (the other line, or a retransmit)
//! sequence >  expected   gap: stash, recover
//! ```

use vstd::prelude::*;

use crate::feed;
use crate::feed::FeedError;
use crate::wire;

verus! {

/// MoldUDP64 header: session, sequence, message count.
///
/// The session field is carried and checked but never interpreted: a change
/// means the venue restarted its sequencing and the handler must resynchronize
/// rather than reason about numbers from two different sessions.
pub const HEADER_LEN: usize = 20;

/// A count of `0xFFFF` marks end of session in MoldUDP64.
pub const END_OF_SESSION: u16 = 0xFFFF;

#[derive(Clone, Copy, Debug, Eq, PartialEq)]
pub struct Header {
    pub session: [u8; 10],
    pub sequence: u64,
    pub count: u16,
}

/// A header on the wire.
pub open spec fn header_bytes(header: Header) -> Seq<u8> {
    header.session@ + wire::be_bytes(header.sequence as nat, 8) + wire::be_bytes(
        header.count as nat,
        2,
    )
}

impl Header {
    /// Reads the header at the front of a datagram.
    ///
    /// # Errors
    /// [`FeedError::NeedMore`] if the datagram is shorter than a header.
    pub fn parse(bytes: &[u8]) -> (result: Result<Self, FeedError>)
        ensures
            bytes@.len() < HEADER_LEN ==> result == Err::<Header, FeedError>(FeedError::NeedMore),
            bytes@.len() >= HEADER_LEN ==> {
                &&& result matches Ok(header)
                &&& header.session@ == bytes@.subrange(0, 10)
                &&& header.sequence == wire::be_value(bytes@.subrange(10, 18))
                &&& header.count == wire::be_value(bytes@.subrange(18, 20))
            },
    {
        if bytes.len() < HEADER_LEN {
            return Err(FeedError::NeedMore);
        }
        let mut session = [0u8; 10];
        let mut i: usize = 0;
        while i < 10
            invariant
                i <= 10,
                bytes@.len() >= HEADER_LEN,
                session@.len() == 10,
                forall|j: int| 0 <= j < i ==> session@[j] == bytes@[j],
            decreases 10 - i,
        {
            session[i] = bytes[i];
            i = i + 1;
        }
        assert(session@ =~= bytes@.subrange(0, 10));
        let sequence = wire::read_be(&bytes[10..18]);
        proof {
            wire::lemma_be_value_bound(bytes@.subrange(18, 20));
            wire::lemma_pow256();
        }
        let count = wire::read_be(&bytes[18..20]) as u16;
        Ok(Header { session, sequence, count })
    }

    #[must_use]
    pub fn encode(&self) -> (out: [u8; 20])
        ensures
            out@ == header_bytes(*self),
    {
        let mut bytes: Vec<u8> = Vec::new();
        let mut i: usize = 0;
        while i < 10
            invariant
                i <= 10,
                bytes@ == self.session@.take(i as int),
            decreases 10 - i,
        {
            bytes.push(self.session[i]);
            assert(self.session@.take(i + 1) =~= self.session@.take(i as int).push(
                self.session@[i as int],
            ));
            i = i + 1;
        }
        assert(self.session@.take(10) =~= self.session@);
        wire::put_be(&mut bytes, self.sequence, 8);
        wire::put_be(&mut bytes, self.count as u64, 2);
        proof {
            wire::lemma_be_bytes_len(self.sequence as nat, 8);
            wire::lemma_be_bytes_len(self.count as nat, 2);
        }
        let mut out = [0u8; 20];
        let mut at: usize = 0;
        while at < 20
            invariant
                at <= 20,
                bytes@.len() == 20,
                out@.len() == 20,
                forall|j: int| 0 <= j < at ==> out@[j] == bytes@[j],
            decreases 20 - at,
        {
            out[at] = bytes[at];
            at = at + 1;
        }
        assert(out@ =~= bytes@);
        out
    }
}

/// A header read back from its own bytes is the header, whatever follows it.
pub proof fn lemma_header_roundtrip(header: Header, rest: Seq<u8>)
    ensures
        ({
            let bytes = header_bytes(header) + rest;
            &&& bytes.len() >= HEADER_LEN
            &&& bytes.subrange(0, 10) == header.session@
            &&& wire::be_value(bytes.subrange(10, 18)) == header.sequence
            &&& wire::be_value(bytes.subrange(18, 20)) == header.count
        }),
{
    let bytes = header_bytes(header) + rest;
    wire::lemma_pow256();
    wire::lemma_be_roundtrip(header.sequence as nat, 8);
    wire::lemma_be_roundtrip(header.count as nat, 2);
    assert(bytes.subrange(0, 10) =~= header.session@);
    assert(bytes.subrange(10, 18) =~= wire::be_bytes(header.sequence as nat, 8));
    assert(bytes.subrange(18, 20) =~= wire::be_bytes(header.count as nat, 2));
}

/// What the arbitrator decided about a packet.
#[derive(Clone, Copy, Debug, Eq, PartialEq, Structural)]
pub enum Admit {
    /// In sequence. Parse the payload.
    Deliver,
    /// Already seen on the other line, or a retransmit that raced. Drop it.
    Duplicate,
    /// Ahead of expectation: both lines lost `missing` packets. The payload
    /// has been stashed; recovery must fill the hole.
    Gap { missing: u64 },
    /// Ahead, and the stash is full: the hole is wider than the handler can
    /// hold. Only a snapshot resynchronizes from here.
    Unrecoverable { missing: u64 },
    /// The venue re-sequenced. Everything held is meaningless.
    SessionChanged,
}

/// Packets stashed while a gap is open. Sized for the reordering a redundant
/// feed actually produces; wider holes mean a snapshot, not more memory.
pub const STASH: usize = 64;

/// Largest payload a stashed packet may carry, matching a jumbo-free MTU.
pub const STASH_PAYLOAD: usize = 1_500;

/// Where an arbitrator stands.
#[verifier::ext_equal]
pub struct Lines {
    pub session: Seq<u8>,
    /// The next sequence to deliver.
    pub expected: nat,
    /// Stashed payloads, by sequence.
    pub held: Map<nat, Seq<u8>>,
    pub delivered: nat,
    pub duplicates: nat,
    pub gaps: nat,
    pub recovered: nat,
}

/// The stash slot of a sequence.
spec fn slot_of(sequence: nat) -> int {
    sequence as int % STASH as int
}

impl Lines {
    pub open spec fn fresh(session: Seq<u8>, first_sequence: nat) -> Lines {
        Lines {
            session,
            expected: first_sequence,
            held: Map::empty(),
            delivered: 0,
            duplicates: 0,
            gaps: 0,
            recovered: 0,
        }
    }

    /// What is decided about a packet.
    pub open spec fn verdict(self, header: Header, payload: Seq<u8>) -> Admit {
        let missing = header.sequence - self.expected;
        if header.session@ != self.session {
            Admit::SessionChanged
        } else if missing == 0 {
            Admit::Deliver
        } else if missing < 0 {
            Admit::Duplicate
        } else if missing >= STASH || payload.len() > STASH_PAYLOAD {
            Admit::Unrecoverable { missing: missing as u64 }
        } else {
            Admit::Gap { missing: missing as u64 }
        }
    }

    /// The lines once everything before `expected` is delivered: what is
    /// stashed behind it is dropped.
    pub open spec fn advanced(self, expected: nat) -> Lines {
        Lines {
            expected,
            held: self.held.restrict(Set::new(|sequence: nat| sequence >= expected)),
            ..self
        }
    }

    /// The lines after a packet.
    pub open spec fn offered(self, header: Header, payload: Seq<u8>) -> Lines {
        match self.verdict(header, payload) {
            Admit::Deliver => Lines {
                delivered: self.delivered + 1,
                ..self.advanced(self.expected + header.count as nat)
            },
            Admit::Duplicate => Lines { duplicates: self.duplicates + 1, ..self },
            Admit::Gap { .. } => Lines {
                gaps: self.gaps + 1,
                held: self.held.insert(header.sequence as nat, payload),
                ..self
            },
            Admit::Unrecoverable { .. } => Lines { gaps: self.gaps + 1, ..self },
            Admit::SessionChanged => self,
        }
    }

    /// Whether the stash holds the payload that is now in sequence.
    pub open spec fn ready(self) -> bool {
        self.held.dom().contains(self.expected)
    }

    /// One payload released from the stash.
    pub open spec fn release(self) -> Lines {
        Lines {
            expected: self.expected + 1,
            held: self.held.remove(self.expected),
            delivered: self.delivered + 1,
            recovered: self.recovered + 1,
            ..self
        }
    }

    /// The lines once nothing more can be released.
    pub open spec fn drained(self) -> Lines
        decreases self.held.dom().len(),
        when self.held.dom().finite()
    {
        if self.ready() {
            self.release().drained()
        } else {
            self
        }
    }

    /// The payloads that draining releases, in order.
    pub open spec fn released(self) -> Seq<Seq<u8>>
        decreases self.held.dom().len(),
        when self.held.dom().finite()
    {
        if self.ready() {
            seq![self.held[self.expected]] + self.release().released()
        } else {
            Seq::empty()
        }
    }

    /// Draining only moves forward.
    pub proof fn lemma_drained_grows(self)
        requires
            self.held.dom().finite(),
        ensures
            self.drained().expected >= self.expected,
            self.drained().delivered >= self.delivered,
            self.drained().recovered >= self.recovered,
            self.drained().expected == self.expected + self.released().len(),
            self.drained().delivered == self.delivered + self.released().len(),
        decreases self.held.dom().len(),
    {
        if self.ready() {
            self.release().lemma_drained_grows();
        }
    }

    pub open spec fn recover(self, sequence: u64, count: u16) -> Lines {
        if sequence == self.expected {
            Lines {
                recovered: self.recovered + 1,
                ..self.advanced(self.expected + count as nat)
            }
        } else {
            self
        }
    }

    pub open spec fn resynchronize(self, session: Seq<u8>, sequence: nat) -> Lines {
        Lines { session, expected: sequence, held: Map::empty(), ..self }
    }

    /// Whether every count fits its counter.
    pub open spec fn in_range(self) -> bool {
        &&& self.expected <= u64::MAX
        &&& self.delivered <= u64::MAX
        &&& self.duplicates <= u64::MAX
        &&& self.gaps <= u64::MAX
        &&& self.recovered <= u64::MAX
    }
}

/// Delivers a sequenced feed exactly once, in order, from any number of lines.
/// A packet out of the stash counts as one sequence, whatever its header said.
#[derive(Debug)]
pub struct Arbitrator {
    session: [u8; 10],
    expected: u64,
    /// Ring of stashed payloads, indexed by `sequence % STASH`.
    stash: Vec<[u8; 1_500]>,
    /// The sequence that a slot was stashed for. One behind what is expected
    /// is stale, and its slot free.
    stash_sequence: [u64; 64],
    stash_len: [u16; 64],
    stash_held: [bool; 64],
    delivered: u64,
    duplicates: u64,
    gaps: u64,
    recovered: u64,
}

impl View for Arbitrator {
    type V = Lines;

    closed spec fn view(&self) -> Lines {
        Lines {
            session: self.session@,
            expected: self.expected as nat,
            held: Map::new(|sequence: nat| self.holds(sequence), |sequence: nat|
                self.stash@[slot_of(sequence)]@.take(self.stash_len@[slot_of(sequence)] as int)),
            delivered: self.delivered as nat,
            duplicates: self.duplicates as nat,
            gaps: self.gaps as nat,
            recovered: self.recovered as nat,
        }
    }
}

impl Arbitrator {
    /// Whether the payload of a sequence is stashed and still to come.
    spec fn holds(&self, sequence: nat) -> bool {
        &&& sequence >= self.expected
        &&& self.stash_held@[slot_of(sequence)]
        &&& self.stash_sequence@[slot_of(sequence)] == sequence
    }

    pub closed spec fn wf(&self) -> bool {
        &&& self.stash@.len() == STASH
        &&& forall|slot: int|
            #![trigger self.stash_len@[slot]]
            0 <= slot < STASH ==> self.stash_len@[slot] <= STASH_PAYLOAD
        &&& forall|slot: int|
            #![trigger self.stash_sequence@[slot]]
            0 <= slot < STASH && self.stash_held@[slot] ==> {
                &&& slot_of(self.stash_sequence@[slot] as nat) == slot
                &&& self.stash_sequence@[slot] < self.expected + STASH
            }
    }

    /// What is stashed is finite, and still to come.
    pub proof fn lemma_held(&self)
        requires
            self.wf(),
        ensures
            self@.held.dom().finite(),
            forall|sequence: nat|
                #![trigger self@.held.dom().contains(sequence)]
                self@.held.dom().contains(sequence) ==> self@.expected <= sequence
                    < self@.expected + STASH,
    {
        let near = vstd::set_lib::set_int_range(
            self.expected as int,
            self.expected + STASH as int,
        ).map(|i: int| i as nat);
        vstd::set_lib::lemma_int_range(self.expected as int, self.expected + STASH as int);
        vstd::set_lib::set_int_range(
            self.expected as int,
            self.expected + STASH as int,
        ).lemma_map_finite(|i: int| i as nat);
        assert forall|sequence: nat| self@.held.dom().contains(sequence) implies near.contains(
            sequence,
        ) by {
            assert(self.stash_sequence@[slot_of(sequence)] == sequence);
            assert(vstd::set_lib::set_int_range(
                self.expected as int,
                self.expected + STASH as int,
            ).contains(sequence as int));
        }
        assert(self@.held.dom().subset_of(near));
        vstd::set_lib::lemma_set_subset_finite(near, self@.held.dom());
    }

    #[must_use]
    pub fn new(session: [u8; 10], first_sequence: u64) -> (arbitrator: Self)
        ensures
            arbitrator.wf(),
            arbitrator@ == Lines::fresh(session@, first_sequence as nat),
    {
        let arbitrator = Arbitrator {
            session,
            expected: first_sequence,
            stash: vec![[0u8; 1_500]; STASH],
            stash_sequence: [0u64; 64],
            stash_len: [0u16; 64],
            stash_held: [false; 64],
            delivered: 0,
            duplicates: 0,
            gaps: 0,
            recovered: 0,
        };
        assert(arbitrator@.held =~= Map::empty());
        arbitrator
    }

    /// Offers a packet. The hot path, in-sequence delivery, is one comparison
    /// and one add; nothing else is touched.
    pub fn offer(&mut self, header: &Header, payload: &[u8]) -> (verdict: Admit)
        requires
            old(self).wf(),
            old(self)@.offered(*header, payload@).in_range(),
        ensures
            final(self).wf(),
            verdict == old(self)@.verdict(*header, payload@),
            final(self)@ == old(self)@.offered(*header, payload@),
    {
        if header.sequence == self.expected {
            if !feed::same_bytes(&header.session, &self.session) {
                return Admit::SessionChanged;
            }
            self.expected = self.expected + header.count as u64;
            self.delivered = self.delivered + 1;
            assert(self@.held =~= old(self)@.offered(*header, payload@).held);
            return Admit::Deliver;
        }
        self.offer_slow(header, payload)
    }

    /// Whether [`Arbitrator::offer`] can count a packet with this header.
    #[must_use]
    pub fn can_offer(&self, header: &Header) -> (yes: bool)
        ensures
            forall|payload: Seq<u8>|
                #![trigger self@.offered(*header, payload)]
                yes == self@.offered(*header, payload).in_range(),
    {
        if !feed::same_bytes(&header.session, &self.session) {
            true
        } else if header.sequence == self.expected {
            self.expected <= u64::MAX - header.count as u64 && self.delivered < u64::MAX
        } else if header.sequence < self.expected {
            self.duplicates < u64::MAX
        } else {
            self.gaps < u64::MAX
        }
    }

    /// Everything that is not in-sequence delivery, kept out of line so the
    /// common case stays a compare and a branch.
    fn offer_slow(&mut self, header: &Header, payload: &[u8]) -> (verdict: Admit)
        requires
            old(self).wf(),
            old(self)@.offered(*header, payload@).in_range(),
            header.sequence != old(self)@.expected,
        ensures
            final(self).wf(),
            verdict == old(self)@.verdict(*header, payload@),
            final(self)@ == old(self)@.offered(*header, payload@),
    {
        if !feed::same_bytes(&header.session, &self.session) {
            return Admit::SessionChanged;
        }
        if header.sequence < self.expected {
            self.duplicates = self.duplicates + 1;
            return Admit::Duplicate;
        }
        let missing = header.sequence - self.expected;
        self.gaps = self.gaps + 1;
        if missing >= STASH as u64 || payload.len() > STASH_PAYLOAD {
            return Admit::Unrecoverable { missing };
        }
        let slot = (header.sequence % STASH as u64) as usize;
        let mut i: usize = 0;
        while i < payload.len()
            invariant
                i <= payload@.len() <= STASH_PAYLOAD,
                slot < STASH,
                self.stash@.len() == STASH,
                *self == (Arbitrator {
                    stash: self.stash,
                    gaps: (old(self).gaps + 1) as u64,
                    ..*old(self)
                }),
                forall|k: int|
                    #![trigger self.stash@[k]]
                    0 <= k < STASH && k != slot ==> self.stash@[k] == old(self).stash@[k],
                forall|j: int|
                    #![trigger self.stash@[slot as int]@[j]]
                    0 <= j < i ==> self.stash@[slot as int]@[j] == payload@[j],
            decreases payload@.len() - i,
        {
            self.stash[slot][i] = payload[i];
            i = i + 1;
        }
        self.stash_sequence[slot] = header.sequence;
        self.stash_len[slot] = payload.len() as u16;
        self.stash_held[slot] = true;
        proof {
            assert(self.stash@[slot as int]@.take(payload@.len() as int) =~= payload@);
            let q = header.sequence as nat;
            assert forall|sequence: nat| sequence != q implies self.holds(sequence) == old(
                self,
            ).holds(sequence) by {
                if slot_of(sequence) == slot && old(self).holds(sequence) {
                    assert(old(self).stash_sequence@[slot as int] == sequence);
                    assert(sequence == q);
                }
            }
            assert(self.holds(q));
            assert(self@.held =~= old(self)@.held.insert(q, payload@));
        }
        Admit::Gap { missing }
    }

    /// Whether [`Arbitrator::drain_stash`] can count what it would release.
    #[must_use]
    pub fn can_drain(&self) -> (yes: bool)
        requires
            self.wf(),
        ensures
            yes == self@.drained().in_range(),
    {
        let mut expected = self.expected;
        let mut delivered = self.delivered;
        let mut recovered = self.recovered;
        let ghost mut lines = self@;
        proof {
            self.lemma_held();
        }
        loop
            invariant
                self.wf(),
                lines.held.dom().finite(),
                lines.drained() == self@.drained(),
                self.expected <= expected,
                lines == (Lines {
                    expected: expected as nat,
                    held: lines.held,
                    delivered: delivered as nat,
                    recovered: recovered as nat,
                    ..self@
                }),
                forall|sequence: nat|
                    #![trigger lines.held.dom().contains(sequence)]
                    lines.held.dom().contains(sequence) <==> sequence >= expected && self.holds(
                        sequence,
                    ),
            decreases lines.held.dom().len(),
        {
            let slot = (expected % STASH as u64) as usize;
            if !self.stash_held[slot] || self.stash_sequence[slot] != expected {
                assert(!lines.ready());
                return true;
            }
            proof {
                assert(lines.ready());
                lines.release().lemma_drained_grows();
            }
            if expected == u64::MAX || delivered == u64::MAX || recovered == u64::MAX {
                return false;
            }
            expected = expected + 1;
            delivered = delivered + 1;
            recovered = recovered + 1;
            proof {
                lines = lines.release();
            }
        }
    }

    /// After recovery has supplied the missing packets, drains whatever was
    /// stashed and is now in sequence. Appends each payload in order.
    ///
    /// Called only when a gap was open, so the walk costs nothing in a healthy
    /// stream.
    pub fn drain_stash(&mut self, deliver: &mut Vec<Vec<u8>>)
        requires
            old(self).wf(),
            old(self)@.drained().in_range(),
        ensures
            final(self).wf(),
            final(self)@ == old(self)@.drained(),
            final(deliver)@.len() == old(deliver)@.len() + old(self)@.released().len(),
            forall|i: int|
                #![trigger final(deliver)@[i]]
                0 <= i < old(deliver)@.len() ==> final(deliver)@[i] == old(deliver)@[i],
            forall|i: int|
                #![trigger old(self)@.released()[i]]
                0 <= i < old(self)@.released().len() ==> final(deliver)@[old(deliver)@.len()
                    + i]@ == old(self)@.released()[i],
    {
        let ghost whole = self@.released();
        let ghost start = deliver@.len();
        proof {
            self.lemma_held();
        }
        loop
            invariant
                self.wf(),
                old(self)@.drained() == self@.drained(),
                self@.drained().in_range(),
                self@.held.dom().finite(),
                whole == old(self)@.released(),
                start == old(deliver)@.len(),
                start <= deliver@.len(),
                deliver@.len() - start <= whole.len(),
                whole.skip(deliver@.len() - start) == self@.released(),
                forall|i: int|
                    #![trigger deliver@[i]]
                    0 <= i < start ==> deliver@[i] == old(deliver)@[i],
                forall|i: int|
                    #![trigger whole[i]]
                    0 <= i < deliver@.len() - start ==> deliver@[start + i]@ == whole[i],
            decreases self@.held.dom().len(),
        {
            let slot = (self.expected % STASH as u64) as usize;
            if !self.stash_held[slot] || self.stash_sequence[slot] != self.expected {
                proof {
                    assert(!self@.ready());
                    assert(self@.released() =~= Seq::empty());
                    assert(whole.skip(deliver@.len() - start).len() == 0);
                }
                return;
            }
            proof {
                assert(self@.ready());
                self@.release().lemma_drained_grows();
            }
            let ghost before = self@;
            let ghost taken = deliver@.len() - start;
            let length = self.stash_len[slot] as usize;
            let mut payload: Vec<u8> = Vec::new();
            let mut i: usize = 0;
            while i < length
                invariant
                    i <= length <= STASH_PAYLOAD,
                    slot < STASH,
                    self.stash@.len() == STASH,
                    payload@ == self.stash@[slot as int]@.take(i as int),
                decreases length - i,
            {
                payload.push(self.stash[slot][i]);
                assert(self.stash@[slot as int]@.take(i + 1) =~= self.stash@[slot as int]@.take(
                    i as int,
                ).push(self.stash@[slot as int]@[i as int]));
                i = i + 1;
            }
            deliver.push(payload);
            self.stash_held[slot] = false;
            self.recovered = self.recovered + 1;
            self.delivered = self.delivered + 1;
            // A stashed packet's own count is not known here; MoldUDP64
            // recovery replays one sequence at a time, so advancing by one is
            // the contract.
            self.expected = self.expected + 1;
            proof {
                assert(self@.held =~= before.held.remove(before.expected));
                assert(self@ == before.release());
                assert(whole.skip(taken)[0] == before.released()[0]);
                assert(whole.skip(taken + 1) =~= whole.skip(taken).skip(1));
                assert(before.released().skip(1) =~= self@.released());
            }
        }
    }

    /// Accepts a recovered packet, filling the hole from the front.
    pub fn recover(&mut self, sequence: u64, count: u16)
        requires
            old(self).wf(),
            old(self)@.recover(sequence, count).in_range(),
        ensures
            final(self).wf(),
            final(self)@ == old(self)@.recover(sequence, count),
    {
        if sequence == self.expected {
            self.expected = self.expected + count as u64;
            self.recovered = self.recovered + 1;
            assert(self@.held =~= old(self)@.recover(sequence, count).held);
        }
    }

    /// Resynchronizes to a snapshot: a new session, a new starting sequence,
    /// nothing held.
    pub fn resynchronize(&mut self, session: [u8; 10], sequence: u64)
        requires
            old(self).wf(),
        ensures
            final(self).wf(),
            final(self)@ == old(self)@.resynchronize(session@, sequence as nat),
    {
        self.session = session;
        self.expected = sequence;
        self.stash_held = [false; 64];
        assert(self@.held =~= Map::empty());
    }

    #[must_use]
    pub fn expected(&self) -> (sequence: u64)
        ensures
            sequence == self@.expected,
    {
        self.expected
    }

    #[must_use]
    pub fn delivered(&self) -> (count: u64)
        ensures
            count == self@.delivered,
    {
        self.delivered
    }

    #[must_use]
    pub fn duplicates(&self) -> (count: u64)
        ensures
            count == self@.duplicates,
    {
        self.duplicates
    }

    #[must_use]
    pub fn gaps(&self) -> (count: u64)
        ensures
            count == self@.gaps,
    {
        self.gaps
    }

    #[must_use]
    pub fn recovered(&self) -> (count: u64)
        ensures
            count == self@.recovered,
    {
        self.recovered
    }
}

// ------------------------------------------------------------- over many packets

/// What a venue sends: the packet that starts at a sequence carries so many
/// messages, and this payload.
pub struct Sent {
    pub count: spec_fn(nat) -> nat,
    pub payload: spec_fn(nat) -> Seq<u8>,
}

impl Sent {
    /// Whether whole packets lead from one sequence to another.
    pub open spec fn leads(self, from: nat, to: nat) -> bool
        decreases to - from,
    {
        from == to || {
            &&& (self.count)(from) > 0
            &&& from + (self.count)(from) <= to
            &&& self.leads(from + (self.count)(from), to)
        }
    }

    /// The payloads of the packets from one sequence up to another, in order.
    pub open spec fn payloads(self, from: nat, to: nat) -> Seq<Seq<u8>>
        decreases to - from,
    {
        if (self.count)(from) > 0 && from + (self.count)(from) <= to {
            seq![(self.payload)(from)] + self.payloads(from + (self.count)(from), to)
        } else {
            Seq::empty()
        }
    }

    proof fn lemma_leads_on(self, from: nat, mid: nat, to: nat)
        requires
            self.leads(from, mid),
            self.leads(mid, to),
        ensures
            self.leads(from, to),
            self.payloads(from, to) == self.payloads(from, mid) + self.payloads(mid, to),
        decreases mid - from,
    {
        if from < mid {
            self.lemma_leads_forward(mid, to);
            self.lemma_leads_on(from + (self.count)(from), mid, to);
        }
        assert(self.payloads(from, to) =~= self.payloads(from, mid) + self.payloads(mid, to));
    }

    proof fn lemma_leads_forward(self, from: nat, to: nat)
        requires
            self.leads(from, to),
        ensures
            from <= to,
    {
    }

    /// One packet.
    proof fn lemma_one_packet(self, from: nat)
        requires
            (self.count)(from) > 0,
        ensures
            self.leads(from, from + (self.count)(from)),
            self.payloads(from, from + (self.count)(from)) == seq![(self.payload)(from)],
    {
        let to = from + (self.count)(from);
        assert(self.leads(to, to));
        assert(self.payloads(to, to) =~= Seq::empty());
        assert(self.payloads(from, to) =~= seq![(self.payload)(from)]);
    }
}

/// What reaches a handler: a packet off either line, or one from recovery.
pub enum Arrival {
    Packet(Header),
    Recovery { sequence: u64, count: u16 },
}

/// The payload behind a header; a packet of no messages has none.
pub open spec fn behind(sent: Sent, header: Header) -> Seq<u8> {
    if header.count == 0 {
        Seq::empty()
    } else {
        (sent.payload)(header.sequence as nat)
    }
}

/// The handler's state after an arrival, and the payloads of messages that
/// went to the parser. The stash is drained every time.
pub open spec fn handled(lines: Lines, sent: Sent, arrival: Arrival) -> (Lines, Seq<Seq<u8>>) {
    match arrival {
        Arrival::Packet(header) => {
            let payload = behind(sent, header);
            let after = lines.offered(header, payload);
            let first = if lines.verdict(header, payload) is Deliver && header.count > 0 {
                seq![payload]
            } else {
                Seq::empty()
            };
            (after.drained(), first + after.released())
        },
        Arrival::Recovery { sequence, count } => {
            let after = lines.recover(sequence, count);
            let first = if sequence == lines.expected && count > 0 {
                seq![(sent.payload)(sequence as nat)]
            } else {
                Seq::empty()
            };
            (after.drained(), first + after.released())
        },
    }
}

pub open spec fn handled_all(
    lines: Lines,
    sent: Sent,
    arrivals: Seq<Arrival>,
) -> (Lines, Seq<Seq<u8>>)
    decreases arrivals.len(),
{
    if arrivals.len() == 0 {
        (lines, Seq::empty())
    } else {
        let before = handled_all(lines, sent, arrivals.drop_last());
        let last = handled(before.0, sent, arrivals.last());
        (last.0, before.1 + last.1)
    }
}

/// An arrival that the venue sent. A packet in sequence, from a line or from
/// recovery, is the one that starts there, or empty. A packet that has to wait
/// starts where a packet does, and carries one message, as the stash takes for
/// granted. Of duplicates, of other sessions' packets and of packets too far
/// ahead nothing is asked.
pub open spec fn genuine(lines: Lines, sent: Sent, arrival: Arrival) -> bool {
    match arrival {
        Arrival::Packet(header) => match lines.verdict(header, behind(sent, header)) {
            Admit::Deliver => header.count == 0 || header.count == (sent.count)(
                header.sequence as nat,
            ),
            Admit::Gap { .. } => {
                &&& header.count == 1
                &&& (sent.count)(header.sequence as nat) == 1
                &&& sent.leads(lines.expected, header.sequence as nat)
            },
            _ => true,
        },
        Arrival::Recovery { sequence, count } => sequence == lines.expected ==> count == 0 || count
            == (sent.count)(sequence as nat),
    }
}

/// Every arrival is genuine when its turn comes.
pub open spec fn all_genuine(lines: Lines, sent: Sent, arrivals: Seq<Arrival>) -> bool
    decreases arrivals.len(),
{
    arrivals.len() == 0 || {
        let before = handled_all(lines, sent, arrivals.drop_last());
        &&& all_genuine(lines, sent, arrivals.drop_last())
        &&& genuine(before.0, sent, arrivals.last())
    }
}

/// A stashed payload is that of a packet of one message, still to come.
spec fn held_true(lines: Lines, sent: Sent, sequence: nat) -> bool {
    &&& lines.held[sequence] == (sent.payload)(sequence)
    &&& (sent.count)(sequence) == 1
    &&& sent.leads(lines.expected, sequence)
}

/// The stash holds what the venue sent next.
spec fn stash_true(lines: Lines, sent: Sent) -> bool {
    &&& lines.held.dom().finite()
    &&& forall|sequence: nat|
        #![trigger lines.held.dom().contains(sequence)]
        lines.held.dom().contains(sequence) ==> held_true(lines, sent, sequence)
}

/// Past the packet in sequence, the rest of the stash is still true.
proof fn lemma_advance(lines: Lines, next: Lines, sent: Sent)
    requires
        stash_true(lines, sent),
        (sent.count)(lines.expected) > 0,
        next.expected == lines.expected + (sent.count)(lines.expected),
        next.held.dom().finite(),
        forall|sequence: nat|
            #![trigger next.held.dom().contains(sequence)]
            next.held.dom().contains(sequence) ==> {
                &&& sequence != lines.expected
                &&& lines.held.dom().contains(sequence)
                &&& next.held[sequence] == lines.held[sequence]
            },
    ensures
        stash_true(next, sent),
{
    assert forall|sequence: nat|
        #![trigger next.held.dom().contains(sequence)]
        next.held.dom().contains(sequence) implies held_true(next, sent, sequence) by {
        assert(held_true(lines, sent, sequence));
        assert(sent.leads(next.expected, sequence));
    }
}

proof fn lemma_drain(lines: Lines, sent: Sent)
    requires
        stash_true(lines, sent),
    ensures
        stash_true(lines.drained(), sent),
        !lines.drained().ready(),
        sent.leads(lines.expected, lines.drained().expected),
        lines.released() == sent.payloads(lines.expected, lines.drained().expected),
    decreases lines.held.dom().len(),
{
    let from = lines.expected;
    if lines.ready() {
        let next = lines.release();
        assert(held_true(lines, sent, from));
        lemma_advance(lines, next, sent);
        lemma_drain(next, sent);
        sent.lemma_one_packet(from);
        sent.lemma_leads_on(from, next.expected, lines.drained().expected);
    } else {
        assert(lines.released() =~= sent.payloads(from, from));
    }
}

/// An arrival that advances nothing takes nothing out of the stash.
proof fn lemma_unmoved(lines: Lines, sent: Sent, arrival: Arrival)
    requires
        stash_true(lines, sent),
    ensures
        match arrival {
            Arrival::Packet(header) => {
                let payload = behind(sent, header);
                let after = lines.offered(header, payload);
                after.expected == lines.expected ==> after.held == if lines.verdict(
                    header,
                    payload,
                ) is Gap {
                    lines.held.insert(header.sequence as nat, payload)
                } else {
                    lines.held
                }
            },
            Arrival::Recovery { sequence, count } => {
                let after = lines.recover(sequence, count);
                after.expected == lines.expected ==> after.held == lines.held
            },
        },
{
    assert forall|sequence: nat| lines.held.dom().contains(sequence) implies sequence
        >= lines.expected by {
        assert(held_true(lines, sent, sequence));
        sent.lemma_leads_forward(lines.expected, sequence);
    }
    assert(lines.advanced(lines.expected).held =~= lines.held);
}

proof fn lemma_handled(lines: Lines, sent: Sent, arrival: Arrival)
    requires
        stash_true(lines, sent),
        !lines.ready(),
        genuine(lines, sent, arrival),
    ensures
        ({
            let (after, log) = handled(lines, sent, arrival);
            &&& stash_true(after, sent)
            &&& !after.ready()
            &&& sent.leads(lines.expected, after.expected)
            &&& log == sent.payloads(lines.expected, after.expected)
        }),
{
    let (after, log) = handled(lines, sent, arrival);
    let (moved, count) = match arrival {
        Arrival::Packet(header) => (lines.offered(header, behind(sent, header)), header.count),
        Arrival::Recovery { sequence, count } => (lines.recover(sequence, count), count),
    };
    if moved.expected != lines.expected {
        assert(moved.held.dom().subset_of(lines.held.dom()));
        vstd::set_lib::lemma_set_subset_finite(lines.held.dom(), moved.held.dom());
        assert(count == (sent.count)(lines.expected));
        lemma_advance(lines, moved, sent);
        lemma_drain(moved, sent);
        sent.lemma_one_packet(lines.expected);
        sent.lemma_leads_on(lines.expected, moved.expected, after.expected);
        assert(log =~= sent.payloads(lines.expected, after.expected));
    } else {
        assert(stash_true(moved, sent)) by {
            lemma_unmoved(lines, sent, arrival);
            assert forall|sequence: nat|
                #![trigger moved.held.dom().contains(sequence)]
                moved.held.dom().contains(sequence) implies held_true(moved, sent, sequence) by {
                if lines.held.dom().contains(sequence) {
                    assert(held_true(lines, sent, sequence));
                }
            }
        }
        lemma_drain(moved, sent);
        assert(log =~= sent.payloads(lines.expected, after.expected));
    }
}

/// Each sequence is delivered exactly once, in order: whatever the lines lose,
/// repeat or reorder, what went to the parser is the packets that the venue
/// sent, from the first up to the one that is expected next.
pub proof fn lemma_exactly_once(
    session: Seq<u8>,
    first: nat,
    sent: Sent,
    arrivals: Seq<Arrival>,
)
    requires
        all_genuine(Lines::fresh(session, first), sent, arrivals),
    ensures
        ({
            let (after, log) = handled_all(Lines::fresh(session, first), sent, arrivals);
            &&& sent.leads(first, after.expected)
            &&& log == sent.payloads(first, after.expected)
        }),
{
    lemma_exactly_once_from(session, first, sent, arrivals);
}

proof fn lemma_exactly_once_from(
    session: Seq<u8>,
    first: nat,
    sent: Sent,
    arrivals: Seq<Arrival>,
)
    requires
        all_genuine(Lines::fresh(session, first), sent, arrivals),
    ensures
        ({
            let (after, log) = handled_all(Lines::fresh(session, first), sent, arrivals);
            &&& stash_true(after, sent)
            &&& !after.ready()
            &&& sent.leads(first, after.expected)
            &&& log == sent.payloads(first, after.expected)
        }),
    decreases arrivals.len(),
{
    let start = Lines::fresh(session, first);
    if arrivals.len() == 0 {
        assert(sent.payloads(first, first) =~= Seq::empty());
    } else {
        let before = arrivals.drop_last();
        lemma_exactly_once_from(session, first, sent, before);
        let (mid, mid_log) = handled_all(start, sent, before);
        lemma_handled(mid, sent, arrivals.last());
        let (after, _) = handled_all(start, sent, arrivals);
        sent.lemma_leads_on(first, mid.expected, after.expected);
    }
}

/// What is done to the lines.
pub enum Step {
    Offer { header: Header, payload: Seq<u8> },
    Recover { sequence: u64, count: u16 },
    Drain,
}

/// So many packets of one message each.
pub open spec fn singles(from: nat, count: nat) -> Seq<(nat, nat)> {
    Seq::new(count, |i: int| ((from + i) as nat, 1nat))
}

/// The lines after a step, and the sequences that it delivered: the first of
/// them and how many, for each packet.
pub open spec fn stepped(lines: Lines, step: Step) -> (Lines, Seq<(nat, nat)>) {
    match step {
        Step::Offer { header, payload } => (
            lines.offered(header, payload),
            if lines.verdict(header, payload) is Deliver {
                seq![(header.sequence as nat, header.count as nat)]
            } else {
                Seq::empty()
            },
        ),
        Step::Recover { sequence, count } => (
            lines.recover(sequence, count),
            if sequence == lines.expected {
                seq![(sequence as nat, count as nat)]
            } else {
                Seq::empty()
            },
        ),
        Step::Drain => (lines.drained(), singles(lines.expected, lines.released().len())),
    }
}

pub open spec fn stepped_all(lines: Lines, steps: Seq<Step>) -> (Lines, Seq<(nat, nat)>)
    decreases steps.len(),
{
    if steps.len() == 0 {
        (lines, Seq::empty())
    } else {
        let before = stepped_all(lines, steps.drop_last());
        let last = stepped(before.0, steps.last());
        (last.0, before.1 + last.1)
    }
}

/// Whether ranges cover the sequences from one up to another, each starting
/// where the one before it ends.
pub open spec fn tiles(ranges: Seq<(nat, nat)>, from: nat, to: nat) -> bool
    decreases ranges.len(),
{
    if ranges.len() == 0 {
        from == to
    } else {
        &&& tiles(ranges.drop_last(), from, ranges.last().0)
        &&& ranges.last().0 + ranges.last().1 == to
    }
}

proof fn lemma_tiles_join(a: Seq<(nat, nat)>, b: Seq<(nat, nat)>, from: nat, mid: nat, to: nat)
    requires
        tiles(a, from, mid),
        tiles(b, mid, to),
    ensures
        tiles(a + b, from, to),
    decreases b.len(),
{
    if b.len() == 0 {
        assert(a + b =~= a);
    } else {
        lemma_tiles_join(a, b.drop_last(), from, mid, b.last().0);
        assert((a + b).drop_last() =~= a + b.drop_last());
    }
}

proof fn lemma_singles_tile(from: nat, count: nat)
    ensures
        tiles(singles(from, count), from, from + count),
    decreases count,
{
    if count > 0 {
        lemma_singles_tile(from, (count - 1) as nat);
        assert(singles(from, count).drop_last() =~= singles(from, (count - 1) as nat));
    }
}

/// A release leaves a finite stash finite.
proof fn lemma_drained_finite(lines: Lines)
    requires
        lines.held.dom().finite(),
    ensures
        lines.drained().held.dom().finite(),
    decreases lines.held.dom().len(),
{
    if lines.ready() {
        lemma_drained_finite(lines.release());
    }
}

proof fn lemma_step_tiles(lines: Lines, step: Step)
    requires
        lines.held.dom().finite(),
    ensures
        stepped(lines, step).0.held.dom().finite(),
        tiles(stepped(lines, step).1, lines.expected, stepped(lines, step).0.expected),
        !(step is Recover) ==> stepped(lines, step).0.delivered == lines.delivered + stepped(
            lines,
            step,
        ).1.len(),
{
    let (after, ranges) = stepped(lines, step);
    match step {
        Step::Drain => {
            lines.lemma_drained_grows();
            lemma_drained_finite(lines);
            lemma_singles_tile(lines.expected, lines.released().len());
        },
        Step::Offer { header, payload } => {
            if lines.verdict(header, payload) is Deliver {
                assert(after.held.dom().subset_of(lines.held.dom()));
                vstd::set_lib::lemma_set_subset_finite(lines.held.dom(), after.held.dom());
                assert(tiles(ranges.drop_last(), lines.expected, lines.expected));
            }
        },
        Step::Recover { sequence, count } => {
            if sequence == lines.expected {
                assert(after.held.dom().subset_of(lines.held.dom()));
                vstd::set_lib::lemma_set_subset_finite(lines.held.dom(), after.held.dom());
                assert(tiles(ranges.drop_last(), lines.expected, lines.expected));
            }
        },
    }
}

/// Whatever arrives, what is delivered leaves no hole and nothing overlaps:
/// the sequences delivered, by offers, by recovery and out of the stash, tile
/// what lies between the first that was expected and the one that is now.
/// Nothing is asked of the packets, nor of the order of the steps. Every packet
/// delivered is counted, as recovered where recovery brought it.
pub proof fn lemma_delivered_tiles(session: Seq<u8>, first: nat, steps: Seq<Step>)
    ensures
        ({
            let (after, ranges) = stepped_all(Lines::fresh(session, first), steps);
            &&& tiles(ranges, first, after.expected)
            &&& (forall|i: int|
                0 <= i < steps.len() ==> !(#[trigger] steps[i] is Recover)) ==> after.delivered
                == ranges.len()
        }),
{
    lemma_delivered_tiles_from(session, first, steps);
}

proof fn lemma_delivered_tiles_from(session: Seq<u8>, first: nat, steps: Seq<Step>)
    ensures
        ({
            let (after, ranges) = stepped_all(Lines::fresh(session, first), steps);
            &&& after.held.dom().finite()
            &&& tiles(ranges, first, after.expected)
            &&& (forall|i: int|
                0 <= i < steps.len() ==> !(#[trigger] steps[i] is Recover)) ==> after.delivered
                == ranges.len()
        }),
    decreases steps.len(),
{
    if steps.len() > 0 {
        lemma_delivered_tiles_from(session, first, steps.drop_last());
        assert(steps.last() == steps[steps.len() - 1]);
        assert(forall|i: int|
            0 <= i < steps.len() - 1 ==> #[trigger] steps.drop_last()[i] == steps[i]);
        let before = stepped_all(Lines::fresh(session, first), steps.drop_last());
        let last = stepped(before.0, steps.last());
        lemma_step_tiles(before.0, steps.last());
        lemma_tiles_join(before.1, last.1, first, before.0.expected, last.0.expected);
    }
}

/// The other line's copy of a delivered packet is a duplicate, and moves
/// nothing but its count.
pub proof fn lemma_second_copy_is_duplicate(lines: Lines, header: Header, payload: Seq<u8>)
    requires
        lines.verdict(header, payload) is Deliver,
        header.count > 0,
    ensures
        ({
            let after = lines.offered(header, payload);
            &&& after.verdict(header, payload) is Duplicate
            &&& after.offered(header, payload) == (Lines {
                duplicates: after.duplicates + 1,
                ..after
            })
        }),
{
}

/// A packet of another session is refused and changes nothing, until the
/// handler resynchronizes to that session.
pub proof fn lemma_session_change_refused(lines: Lines, header: Header, payload: Seq<u8>)
    requires
        header.session@ != lines.session,
    ensures
        lines.verdict(header, payload) is SessionChanged,
        lines.offered(header, payload) == lines,
        ({
            let anew = lines.resynchronize(header.session@, header.sequence as nat);
            anew.verdict(header, payload) is Deliver
        }),
{
}

} // verus!
