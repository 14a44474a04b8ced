//! The order session: what each thing done with it changes, and what holds over
//! any history of them.

use vstd::prelude::*;

use crate::pipeline::session::{Action, Deed, Inbound, Window};
use crate::pipeline::OrderCommand;
use crate::promises::eight_up;
use crate::promises::orders;
use crate::promises::orders::writes;

verus! {

/// Only an acknowledgement confirms: hearing anything else leaves the confirmed
/// sequence as it was, and an acknowledgement makes it the greater of the two.
/// Whatever is heard, the peer was alive just now, and nothing else changes.
pub proof fn lemma_only_acknowledgements_confirm(window: Window, inbound: Inbound, now: nat)
    ensures
        ({
            let after = window.received(inbound, now);
            &&& inbound is ResendFrom ==> after.acknowledged == window.acknowledged
            &&& inbound is Heartbeat ==> after.acknowledged == window.acknowledged
            &&& inbound matches Inbound::Acknowledged(n) ==> {
                &&& after.acknowledged >= n
                &&& after.acknowledged >= window.acknowledged
                &&& after.acknowledged == n || after.acknowledged == window.acknowledged
            }
            &&& after.last_heard == now
            &&& after == (Window {
                acknowledged: after.acknowledged,
                last_heard: after.last_heard,
                ..window
            })
        }),
{
}

/// Whether `deed` acknowledges `n`.
pub open spec fn acknowledges(deed: Deed, n: nat) -> bool {
    deed matches Deed::Hear { inbound: Inbound::Acknowledged(m), .. } && m == n
}

/// Over any history, the confirmed sequence is the greatest one acknowledged so
/// far, and zero where there was none.
#[verifier::rlimit(30)]
pub proof fn lemma_confirmed_is_the_greatest(
    heartbeat_every: nat,
    peer_timeout: nat,
    now: nat,
    deeds: Seq<Deed>,
)
    ensures
        ({
            let confirmed = Window::fresh(heartbeat_every, peer_timeout, now).done_all(
                deeds,
            ).acknowledged;
            &&& forall|i: int, n: nat|
                #![trigger acknowledges(deeds[i], n)]
                0 <= i < deeds.len() && acknowledges(deeds[i], n) ==> n <= confirmed
            &&& confirmed == 0 || exists|i: int|
                #![trigger deeds[i]]
                0 <= i < deeds.len() && acknowledges(deeds[i], confirmed)
        }),
    decreases deeds.len(),
{
    let start = Window::fresh(heartbeat_every, peer_timeout, now);
    if deeds.len() > 0 {
        let fewer = deeds.drop_last();
        lemma_confirmed_is_the_greatest(heartbeat_every, peer_timeout, now, fewer);
        let before = start.done_all(fewer).acknowledged;
        let confirmed = start.done_all(deeds).acknowledged;
        let last = deeds.last();
        assert(confirmed == before || acknowledges(last, confirmed));
        assert forall|i: int, n: nat|
            #![trigger acknowledges(deeds[i], n)]
            0 <= i < deeds.len() && acknowledges(deeds[i], n) implies n <= confirmed by {
            if i < fewer.len() {
                assert(acknowledges(fewer[i], n));
            }
        }
        if confirmed != 0 && !acknowledges(last, confirmed) {
            let i = choose|i: int|
                #![trigger fewer[i]]
                0 <= i < fewer.len() && acknowledges(fewer[i], confirmed);
            assert(deeds[i] == fewer[i]);
        } else if confirmed != 0 {
            assert(deeds[deeds.len() - 1] == last);
        }
    }
}

/// When `deed` heard from the peer, if it did.
pub open spec fn heard_at(deed: Deed) -> Option<nat> {
    match deed {
        Deed::Hear { now, .. } => Some(now),
        _ => None,
    }
}

/// Over any history, the peer was last heard when it last spoke, or at the
/// start; the intervals never change; and every heartbeat is counted.
#[verifier::rlimit(30)]
pub proof fn lemma_last_heard_is_when_it_spoke(start: Window, deeds: Seq<Deed>, last: int)
    requires
        -1 <= last < deeds.len(),
        last >= 0 ==> heard_at(deeds[last]) is Some,
        forall|i: int|
            #![trigger deeds[i]]
            last < i < deeds.len() ==> heard_at(deeds[i]) is None,
    ensures
        start.done_all(deeds).last_heard == (if last < 0 {
            start.last_heard
        } else {
            heard_at(deeds[last])->0
        }),
        start.done_all(deeds).peer_timeout == start.peer_timeout,
        start.done_all(deeds).heartbeat_every == start.heartbeat_every,
        start.done_all(deeds).heartbeats_sent == start.heartbeats_sent + deeds.filter(
            |deed: Deed| deed is Heartbeat,
        ).len(),
    decreases deeds.len(),
{
    let beats = |deed: Deed| deed is Heartbeat;
    reveal(Seq::filter);
    if deeds.len() > 0 {
        let fewer = deeds.drop_last();
        assert(deeds.filter(beats) == if beats(deeds.last()) {
            fewer.filter(beats).push(deeds.last())
        } else {
            fewer.filter(beats)
        });
        let end = deeds.len() - 1;
        if last == end {
            lemma_heard_before(start, fewer);
        } else {
            assert(heard_at(deeds[end]) is None);
            assert forall|i: int|
                #![trigger fewer[i]]
                last < i < fewer.len() implies heard_at(fewer[i]) is None by {
                assert(fewer[i] == deeds[i]);
            }
            lemma_last_heard_is_when_it_spoke(start, fewer, last);
        }
    }
}

proof fn lemma_heard_before(start: Window, deeds: Seq<Deed>)
    ensures
        start.done_all(deeds).peer_timeout == start.peer_timeout,
        start.done_all(deeds).heartbeat_every == start.heartbeat_every,
        start.done_all(deeds).heartbeats_sent == start.heartbeats_sent + deeds.filter(
            |deed: Deed| deed is Heartbeat,
        ).len(),
    decreases deeds.len(),
{
    let beats = |deed: Deed| deed is Heartbeat;
    reveal(Seq::filter);
    if deeds.len() > 0 {
        let fewer = deeds.drop_last();
        assert(deeds.filter(beats) == if beats(deeds.last()) {
            fewer.filter(beats).push(deeds.last())
        } else {
            fewer.filter(beats)
        });
        lemma_heard_before(start, fewer);
    }
}

/// The peer is gone once a whole timeout has passed since it was heard, and not
/// before. Short of that a heartbeat is due once nothing was sent for a whole
/// interval; an order sent since the last poll counts as sent now. A poll only
/// takes that order into account.
pub proof fn lemma_what_is_due(window: Window, now: nat)
    ensures
        window.due(now) == Action::PeerIsDead <==> now - window.last_heard >= window.peer_timeout
            || window.peer_timeout == 0,
        window.due(now) == Action::SendHeartbeat <==> {
            &&& now - window.last_heard < window.peer_timeout
            &&& window.peer_timeout > 0
            &&& window.heartbeat_every == 0 || !window.sent_since_poll && now - window.last_sent
                >= window.heartbeat_every
        },
        !window.sent_since_poll ==> window.polled(now) == window,
        window.sent_since_poll ==> window.polled(now) == (Window {
            sent_since_poll: false,
            last_sent: now,
            ..window
        }),
{
}

/// An order is refused exactly while 4,096 are unconfirmed, and then nothing
/// changes. One that is taken is kept in its place in the ring, under the next
/// number, and everything else that was kept stays.
#[verifier::rlimit(60)]
#[verifier::spinoff_prover]
pub proof fn lemma_what_a_send_changes(window: Window, order: OrderCommand, sequence: nat)
    requires
        window.valid(),
        window.next_sequence <= u64::MAX,
    ensures
        ({
            let after = window.prepare(order);
            let refused = window.next_sequence - 1 - window.acknowledged >= 4_096;
            &&& window.full() == refused
            &&& refused ==> after == window
            &&& !refused ==> {
                &&& after.next_sequence == window.next_sequence + 1
                &&& after.sent_since_poll
                &&& after.replayed(window.next_sequence) == seq![window.stamped(order)]
                &&& window.acknowledged < sequence < window.next_sequence ==> after.replayed(
                    sequence,
                ) == window.replayed(sequence).push(window.stamped(order))
                &&& after == (Window {
                    next_sequence: after.next_sequence,
                    retained: after.retained,
                    sent_since_poll: after.sent_since_poll,
                    ..window
                })
            }
        }),
{
    let after = window.prepare(order);
    if !window.full() {
        assert(after.replayed(window.next_sequence) =~= seq![window.stamped(order)]);
        if window.acknowledged < sequence < window.next_sequence {
            let longer = window.replayed(sequence).push(window.stamped(order));
            let next = window.next_sequence as int;
            assert forall|i: int| 0 <= i < longer.len() implies after.replayed(sequence)[i]
                == longer[i] by {
                let at = sequence + i;
                if at < next {
                    assert(at % 4_096 != next % 4_096);
                }
            }
            assert(after.replayed(sequence) =~= longer);
        }
    }
}

/// A request can be answered exactly where nothing was sent from there on, or
/// where none of what was is confirmed and the ring still holds it.
pub proof fn lemma_which_requests_are_answered(window: Window, sequence: nat)
    ensures
        window.can_resend(sequence) <==> sequence >= window.next_sequence || {
            &&& sequence > window.acknowledged
            &&& window.next_sequence - sequence <= 4_096
        },
        window.can_resend(sequence) && sequence < window.next_sequence ==> window.replayed(
            sequence,
        ).len() == window.next_sequence - sequence,
        !window.can_resend(sequence) || sequence >= window.next_sequence ==> window.replayed(
            sequence,
        ).len() == 0,
{
}

/// A new session has sent and confirmed nothing, has just heard from the peer, and
/// numbers its first order one.
pub proof fn lemma_new_session(heartbeat_every: nat, peer_timeout: nat, now: nat)
    ensures
        ({
            let window = Window::fresh(heartbeat_every, peer_timeout, now);
            &&& window.next_sequence == 1
            &&& window.acknowledged == 0
            &&& window.heartbeat_every == heartbeat_every
            &&& window.peer_timeout == peer_timeout
            &&& window.last_sent == now
            &&& window.last_heard == now
            &&& !window.sent_since_poll
            &&& window.heartbeats_sent == 0
            &&& window.resends == 0
            &&& window.in_flight() == 0
        }),
{
}

/// What is in flight is what was sent and not confirmed.
pub proof fn lemma_in_flight(window: Window)
    ensures
        window.in_flight() + window.acknowledged == window.next_sequence - 1,
{
}

/// A session can be used where its ring has 4,096 slots, no more than that many
/// orders are unconfirmed, and none is confirmed that was not sent. A session may
/// hear and be polled though the venue confirmed more than was sent.
pub proof fn lemma_which_sessions_can_be_used(window: Window)
    ensures
        window.wf() <==> window.next_sequence >= 1 && window.retained.len() == 4_096
            && window.next_sequence - 1 - window.acknowledged <= 4_096,
        window.valid() <==> window.wf() && window.acknowledged < window.next_sequence,
{
}

/// An order goes out as it was given, but for its number, which is the next.
pub proof fn lemma_what_goes_out(window: Window, order: OrderCommand)
    requires
        window.next_sequence <= u64::MAX,
    ensures
        ({
            let bytes = window.stamped(order);
            &&& bytes.len() == 32
            &&& eight_up(bytes, 0) == window.next_sequence
            &&& writes(
                bytes,
                OrderCommand { client_order_id: window.next_sequence as u64, ..order },
            )
            &&& forall|i: int| 11 <= i < 16 ==> #[trigger] bytes[i] == 0
        }),
{
    orders::lemma_order_layout(
        OrderCommand { client_order_id: window.next_sequence as u64, ..order },
    );
}

} // verus!
