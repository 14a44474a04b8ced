//! Two lines into one: what is decided about a packet, what that changes, and
//! what comes out of the stash.

use vstd::prelude::*;

use crate::feed::mold;
use crate::feed::mold::{Admit, Header, Lines};
use crate::feed::FeedError;
use crate::promises;
use crate::promises::{eight, two};

verus! {

/// Every packet gets exactly one verdict. Of another session nothing is decided
/// but that. Otherwise the sequence expected is delivered, one before it is a
/// duplicate, and one after it opens a gap of as many sequences as it is ahead,
/// which can be bridged where it is less than 64 ahead and holds 1,500 bytes at
/// most.
pub proof fn lemma_what_is_decided(lines: Lines, header: Header, payload: Seq<u8>)
    ensures
        ({
            let verdict = lines.verdict(header, payload);
            let ahead = header.sequence - lines.expected;
            &&& verdict == Admit::SessionChanged <==> header.session@ != lines.session
            &&& header.session@ == lines.session ==> {
                &&& verdict == Admit::Deliver <==> ahead == 0
                &&& verdict == Admit::Duplicate <==> ahead < 0
                &&& 0 < ahead < 64 && payload.len() <= 1_500 ==> verdict == (Admit::Gap {
                    missing: ahead as u64,
                })
                &&& 0 < ahead && (ahead >= 64 || payload.len() > 1_500) ==> verdict == (
                Admit::Unrecoverable { missing: ahead as u64 })
            }
        }),
{
}

/// Whether `after` holds what `before` held of the sequences from `first` on.
pub open spec fn holds_from(before: Lines, after: Lines, first: nat) -> bool {
    forall|sequence: nat|
        #![trigger after.held.contains_key(sequence)]
        {
            &&& after.held.contains_key(sequence) <==> before.held.contains_key(sequence)
                && sequence >= first
            &&& after.held.contains_key(sequence) ==> after.held[sequence] == before.held[sequence]
        }
}

/// A delivered packet moves what is expected on by its count, and what was held
/// behind that is dropped. A duplicate is counted. A gap that can be bridged is
/// counted and its payload held; one that cannot is counted. Nothing else
/// changes, and a packet of another session changes nothing.
#[verifier::rlimit(30)]
pub proof fn lemma_what_a_packet_changes(lines: Lines, header: Header, payload: Seq<u8>)
    ensures
        ({
            let after = lines.offered(header, payload);
            let same = header.session@ == lines.session;
            let ahead = header.sequence - lines.expected;
            let bridged = 0 < ahead < 64 && payload.len() <= 1_500;
            &&& !same ==> after == lines
            &&& same && ahead == 0 ==> {
                &&& after.expected == lines.expected + header.count
                &&& after.delivered == lines.delivered + 1
                &&& holds_from(lines, after, (lines.expected + header.count) as nat)
                &&& after == (Lines {
                    expected: after.expected,
                    delivered: after.delivered,
                    held: after.held,
                    ..lines
                })
            }
            &&& same && ahead < 0 ==> after == (Lines { duplicates: lines.duplicates + 1, ..lines })
            &&& same && bridged ==> after == (Lines {
                gaps: lines.gaps + 1,
                held: lines.held.insert(header.sequence as nat, payload),
                ..lines
            })
            &&& same && 0 < ahead && !bridged ==> after == (Lines { gaps: lines.gaps + 1, ..lines })
        }),
{
}

/// Whether `out` is what is held for the sequence `first`, the one after it and
/// so on.
pub open spec fn in_order(held: Map<nat, Seq<u8>>, first: nat, out: Seq<Seq<u8>>) -> bool {
    forall|i: nat|
        #![trigger out[i as int]]
        i < out.len() ==> held.contains_pair(first + i, out[i as int])
}

proof fn lemma_released_in_order(lines: Lines)
    requires
        lines.held.dom().finite(),
    ensures
        in_order(lines.held, lines.expected, lines.released()),
    decreases lines.held.dom().len(),
{
    if lines.ready() {
        let rest = lines.release();
        lemma_released_in_order(rest);
        let out = lines.released();
        let later = rest.released();
        assert(out =~= seq![lines.held[lines.expected]] + later);
        assert forall|i: nat|
            #![trigger out[i as int]]
            i < out.len() implies lines.held.contains_pair(
            lines.expected + i,
            out[i as int],
        ) by {
            if i > 0 {
                let before = (i - 1) as nat;
                assert(out[i as int] == later[before as int]);
                assert(rest.held.contains_pair(rest.expected + before, later[before as int]));
            }
        }
    }
}

/// Draining releases what is held for the sequence expected, the one after it
/// and so on up to the first that is not held, each once and in order. Each
/// counts as delivered and as recovered.
#[verifier::rlimit(60)]
#[verifier::spinoff_prover]
pub proof fn lemma_what_is_released(lines: Lines)
    requires
        lines.held.dom().finite(),
    ensures
        ({
            let out = lines.released();
            let after = lines.drained();
            let next = lines.expected + out.len();
            &&& in_order(lines.held, lines.expected, out)
            &&& !lines.held.contains_key(next)
            &&& after.expected == next
            &&& after.delivered == lines.delivered + out.len()
            &&& after.recovered == lines.recovered + out.len()
            &&& after.duplicates == lines.duplicates
            &&& after.gaps == lines.gaps
            &&& after.session == lines.session
            &&& forall|sequence: nat|
                #![trigger after.held.contains_key(sequence)]
                {
                    &&& after.held.contains_key(sequence) <==> lines.held.contains_key(sequence)
                        && !(lines.expected <= sequence < next)
                    &&& after.held.contains_key(sequence) ==> after.held[sequence]
                        == lines.held[sequence]
                }
        }),
    decreases lines.held.dom().len(),
{
    lemma_released_in_order(lines);
    if lines.ready() {
        let rest = lines.release();
        lemma_what_is_released(rest);
        let out = lines.released();
        let next = lines.expected + out.len();
        assert(rest.expected + rest.released().len() == next);
        assert(!rest.held.contains_key(next));
        assert(!lines.held.contains_key(next));
        let after = lines.drained();
        assert(after == rest.drained());
        assert forall|sequence: nat|
            #![trigger after.held.contains_key(sequence)]
            (after.held.contains_key(sequence) <==> lines.held.contains_key(sequence) && !(
            lines.expected <= sequence < next)) && (after.held.contains_key(sequence)
                ==> after.held[sequence] == lines.held[sequence]) by {
            assert(rest.held.contains_key(sequence) <==> lines.held.contains_key(sequence)
                && sequence != lines.expected);
        }
    } else {
        assert(lines.released().len() == 0);
        assert(!lines.held.contains_key(lines.expected));
    }
}

/// A recovered stretch counts only where it starts at the sequence expected: it
/// moves that on by its count and drops what was held behind. Resynchronizing
/// drops everything held and keeps the counts.
#[verifier::rlimit(30)]
pub proof fn lemma_recovering(lines: Lines, sequence: u64, count: u16, session: Seq<u8>)
    ensures
        sequence != lines.expected ==> lines.recover(sequence, count) == lines,
        sequence == lines.expected ==> {
            let after = lines.recover(sequence, count);
            &&& after.expected == lines.expected + count
            &&& after.recovered == lines.recovered + 1
            &&& holds_from(lines, after, (lines.expected + count) as nat)
            &&& after == (Lines {
                expected: after.expected,
                recovered: after.recovered,
                held: after.held,
                ..lines
            })
        },
        lines.resynchronize(session, sequence as nat) == (Lines {
            session,
            expected: sequence as nat,
            held: Map::empty(),
            ..lines
        }),
        Lines::fresh(session, sequence as nat) == (Lines {
            session,
            expected: sequence as nat,
            held: Map::empty(),
            delivered: 0,
            duplicates: 0,
            gaps: 0,
            recovered: 0,
        }),
{
}

/// A header is twenty bytes: ten of session, then the sequence in eight and the
/// count in two, most significant first. Fewer bytes are no header.
pub proof fn lemma_header_layout(bytes: &[u8], result: Result<Header, FeedError>)
    requires
        call_ensures(Header::parse, (bytes,), result),
    ensures
        bytes@.len() < 20 ==> result == Err::<Header, FeedError>(FeedError::NeedMore),
        bytes@.len() >= 20 ==> {
            &&& result is Ok
            &&& result->Ok_0.session@ == bytes@.take(10)
            &&& result->Ok_0.sequence == eight(bytes@, 10)
            &&& result->Ok_0.count == two(bytes@, 18)
        },
{
    if bytes@.len() >= 20 {
        promises::lemma_eight(bytes@.subrange(10, 18));
        promises::lemma_two(bytes@.subrange(18, 20));
        assert(bytes@.subrange(0, 10) =~= bytes@.take(10));
    }
}

/// A header that is sent has that layout.
pub proof fn lemma_header_sent(header: Header, out: [u8; 20])
    requires
        call_ensures(Header::encode, (&header,), out),
    ensures
        out@.take(10) == header.session@,
        eight(out@, 10) == header.sequence,
        two(out@, 18) == header.count,
{
    mold::lemma_header_roundtrip(header, Seq::empty());
    let bytes = mold::header_bytes(header) + Seq::empty();
    assert(bytes =~= out@);
    promises::lemma_eight(bytes.subrange(10, 18));
    promises::lemma_two(bytes.subrange(18, 20));
    assert(bytes.subrange(0, 10) =~= bytes.take(10));
}

/// Counts and the sequence expected have to fit 64 bits, and nothing more is asked
/// of them.
pub proof fn lemma_what_can_be_counted(lines: Lines)
    ensures
        lines.in_range() <==> {
            &&& lines.expected <= 0xffff_ffff_ffff_ffff
            &&& lines.delivered <= 0xffff_ffff_ffff_ffff
            &&& lines.duplicates <= 0xffff_ffff_ffff_ffff
            &&& lines.gaps <= 0xffff_ffff_ffff_ffff
            &&& lines.recovered <= 0xffff_ffff_ffff_ffff
        },
{
}

} // verus!
