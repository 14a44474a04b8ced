//! ITCH messages: where every field of an event stands.

use vstd::prelude::*;

use crate::feed;
use crate::feed::itch as wire_format;
use crate::feed::itch::Itch;
use crate::feed::{Decoding, FeedError, Kind, Parser, Side};
use crate::promises;
use crate::promises::{eight, four, refused, then_reads, two, waits};

verus! {

/// A message behind its length.
pub open spec fn framed(body: Seq<u8>) -> Seq<u8> {
    seq![(body.len() / 256) as u8, (body.len() % 256) as u8] + body
}

/// Whether `field` is `name`, filled up with spaces to eight bytes.
pub open spec fn filled_up(field: Seq<u8>, name: Seq<u8>) -> bool {
    &&& field.len() == 8
    &&& name.len() <= 8
    &&& field.take(name.len() as int) == name
    &&& forall|i: int| name.len() <= i < 8 ==> #[trigger] field[i] == 0x20
    &&& name.len() > 0 ==> name[name.len() - 1] != 0x20
}

/// Whether the message has a type that stands for an event, and that type's
/// length: an add, an execution, a cancel, a deletion, a replacement, a print.
pub open spec fn stands_for_an_event(body: Seq<u8>) -> bool {
    ||| body[0] == 0x41 && body.len() == 36
    ||| body[0] == 0x45 && body.len() == 31
    ||| body[0] == 0x58 && body.len() == 23
    ||| body[0] == 0x44 && body.len() == 19
    ||| body[0] == 0x55 && body.len() == 35
    ||| body[0] == 0x50 && body.len() == 44
}

/// Whether the message carries a side and the stock's name: an add or a print.
pub open spec fn names_its_stock(body: Seq<u8>) -> bool {
    body[0] == 0x41 || body[0] == 0x50
}

/// Whether the locate is in the table, and the stock's name the one there.
pub open spec fn listed(parser: Itch<'_>, body: Seq<u8>) -> bool {
    &&& two(body, 1) < parser.symbols@.len()
    &&& names_its_stock(body) ==> filled_up(
        body.subrange(24, 32),
        parser.symbols@[two(body, 1)]@,
    )
}

/// Whether the message is one for somebody else, at its length: system event,
/// stock directory, trading action, short sale restriction, participant
/// position, circuit breaker levels and status, quoting period, auction collar,
/// operational halt, cross trade, broken trade, order imbalance, retail
/// interest, price discovery.
pub open spec fn for_somebody_else(body: Seq<u8>) -> bool {
    ||| body[0] == 0x53 && body.len() == 12
    ||| body[0] == 0x52 && body.len() == 39
    ||| body[0] == 0x48 && body.len() == 25
    ||| body[0] == 0x59 && body.len() == 20
    ||| body[0] == 0x4c && body.len() == 26
    ||| body[0] == 0x56 && body.len() == 35
    ||| body[0] == 0x57 && body.len() == 12
    ||| body[0] == 0x4b && body.len() == 28
    ||| body[0] == 0x4a && body.len() == 35
    ||| body[0] == 0x68 && body.len() == 21
    ||| body[0] == 0x51 && body.len() == 40
    ||| body[0] == 0x42 && body.len() == 19
    ||| body[0] == 0x49 && body.len() == 50
    ||| body[0] == 0x4e && body.len() == 20
    ||| body[0] == 0x4f && body.len() == 48
}

proof fn lemma_two_at(b: Seq<u8>, i: int)
    requires
        0 <= i,
        i + 2 <= b.len(),
    ensures
        wire_format::number(b, i, 2) == two(b, i),
        0 <= two(b, i) <= u16::MAX,
{
    promises::lemma_two(b.subrange(i, i + 2));
}

proof fn lemma_four_at(b: Seq<u8>, i: int)
    requires
        0 <= i,
        i + 4 <= b.len(),
    ensures
        wire_format::number(b, i, 4) == four(b, i),
        0 <= four(b, i) < 0x1_0000_0000,
{
    promises::lemma_four(b.subrange(i, i + 4));
}

proof fn lemma_eight_at(b: Seq<u8>, i: int)
    requires
        0 <= i,
        i + 8 <= b.len(),
    ensures
        wire_format::number(b, i, 8) == eight(b, i),
        0 <= eight(b, i) <= u64::MAX,
{
    promises::lemma_eight(b.subrange(i, i + 8));
}

/// Trimming takes off the filling and nothing else.
proof fn lemma_trimmed(field: Seq<u8>, name: Seq<u8>)
    requires
        field.len() == 8,
    ensures
        wire_format::trim_end(field) == name <==> filled_up(field, name),
{
    lemma_trim_end(field);
    let kept = wire_format::trim_end(field);
    if filled_up(field, name) {
        if kept.len() < name.len() {
            assert(field[name.len() - 1] == name[name.len() - 1]) by {
                assert(field.take(name.len() as int)[name.len() - 1] == field[name.len() - 1]);
            }
        }
        if kept.len() > name.len() {
            assert(field[kept.len() - 1] == kept[kept.len() - 1]);
        }
        assert(kept =~= name);
    }
}

#[verifier::rlimit(30)]
proof fn lemma_trim_end(field: Seq<u8>)
    ensures
        ({
            let kept = wire_format::trim_end(field);
            &&& kept.len() <= field.len()
            &&& kept == field.take(kept.len() as int)
            &&& forall|i: int| kept.len() <= i < field.len() ==> #[trigger] field[i] == 0x20
            &&& kept.len() > 0 ==> kept[kept.len() - 1] != 0x20
        }),
    decreases field.len(),
{
    let kept = wire_format::trim_end(field);
    if field.len() > 0 && field.last() == 0x20 {
        lemma_trim_end(field.drop_last());
        assert(field.drop_last().take(kept.len() as int) =~= field.take(kept.len() as int));
        assert forall|i: int| kept.len() <= i < field.len() implies #[trigger] field[i] == 0x20 by {
            if i < field.len() - 1 {
                assert(field.drop_last()[i] == 0x20);
            }
        }
    } else {
        assert(kept =~= field.take(kept.len() as int));
    }
}

proof fn lemma_listed(parser: Itch<'_>, body: Seq<u8>)
    requires
        stands_for_an_event(body),
    ensures
        listed(parser, body) == wire_format::symbol_known(feed::names(parser.symbols@), body),
{
    lemma_two_at(body, 1);
    if names_its_stock(body) && two(body, 1) < parser.symbols@.len() {
        lemma_trimmed(body.subrange(24, 32), parser.symbols@[two(body, 1)]@);
    }
}

/// The first message of a stream and what stands behind it.
#[verifier::rlimit(60)]
#[verifier::spinoff_prover]
proof fn lemma_first(parser: Itch<'_>, body: Seq<u8>, rest: Seq<u8>)
    requires
        0 < body.len() <= u16::MAX,
        (framed(body) + rest).len() <= usize::MAX,
    ensures
        ({
            let table = feed::names(parser.symbols@);
            parser.decoding(framed(body) + rest) == match wire_format::message_spec(
                table,
                body,
                0,
            ) {
                Ok(event) => then_reads(
                    wire_format::some_event(event),
                    2 + body.len() as int,
                    parser.decoding(rest),
                ),
                Err(error) => refused(error),
            }
        }),
{
    let table = feed::names(parser.symbols@);
    let bytes = framed(body) + rest;
    let size = 2 + body.len() as int;
    lemma_two_at(bytes, 0);
    assert(bytes[0] == (body.len() / 256) as u8 && bytes[1] == (body.len() % 256) as u8);
    assert(two(bytes, 0) == body.len());
    assert(bytes.subrange(2, size) =~= body);
    assert(wire_format::frames_spec(table, framed(body), size) == Decoding::stop(
        Ok(size as usize),
    ));
    let alone = framed(body);
    lemma_two_at(alone, 0);
    assert(two(alone, 0) == body.len());
    assert(alone.subrange(2, size) =~= body);
    wire_format::lemma_resumes(table, alone, rest);
    assert(alone.skip(size) + rest =~= rest);
    if let Ok(event) = wire_format::message_spec(table, body, 0) {
        let read = wire_format::frames_spec(table, alone, 0);
        assert(read.events =~= wire_format::some_event(event));
        assert(read.outcome == Ok::<usize, FeedError>(size as usize));
        let tail = parser.decoding(rest);
        assert(parser.decoding(bytes) =~= then_reads(
            wire_format::some_event(event),
            size,
            tail,
        ));
    }
}

/// An event message is read field by field, whatever its tracking number and
/// its time of day are: the locate is the symbol, bytes 11 to 18 are the order,
/// and the rest stands where the type puts it. Prices come with four decimals
/// and leave with eight; quantities are whole shares.
#[verifier::rlimit(60)]
#[verifier::spinoff_prover]
pub proof fn lemma_event_is_read(parser: Itch<'_>, body: Seq<u8>, rest: Seq<u8>)
    requires
        (framed(body) + rest).len() <= usize::MAX,
        stands_for_an_event(body),
        listed(parser, body),
        names_its_stock(body) ==> body[19] == 0x42 || body[19] == 0x53,
    ensures
        ({
            let read = parser.decoding(framed(body) + rest);
            let event = read.events[0];
            &&& read == then_reads(seq![event], 2 + body.len() as int, parser.decoding(rest))
            &&& event.symbol == two(body, 1)
            &&& event.order_id == eight(body, 11)
            &&& event.kind == (if body[0] == 0x41 {
                Kind::Add
            } else if body[0] == 0x45 {
                Kind::Execute
            } else if body[0] == 0x58 {
                Kind::Cancel
            } else if body[0] == 0x44 {
                Kind::Delete
            } else if body[0] == 0x55 {
                Kind::Replace
            } else {
                Kind::Trade
            })
            &&& event.side == (if names_its_stock(body) && body[19] == 0x53 {
                Side::Ask
            } else {
                Side::Bid
            })
            &&& event.qty == 100_000_000 * (if names_its_stock(body) {
                four(body, 20)
            } else if body[0] == 0x45 || body[0] == 0x58 {
                four(body, 19)
            } else if body[0] == 0x55 {
                four(body, 27)
            } else {
                0
            })
            &&& event.price == 10_000 * (if names_its_stock(body) {
                four(body, 32)
            } else if body[0] == 0x55 {
                four(body, 31)
            } else {
                0
            })
            &&& event.aux == (if body[0] == 0x45 {
                eight(body, 23)
            } else if body[0] == 0x55 {
                eight(body, 19)
            } else if body[0] == 0x50 {
                eight(body, 36)
            } else {
                0
            })
        }),
{
    lemma_listed(parser, body);
    lemma_first(parser, body, rest);
    lemma_two_at(body, 1);
    lemma_eight_at(body, 11);
    if body[0] == 0x41 {
        lemma_four_at(body, 20);
        lemma_four_at(body, 32);
    } else if body[0] == 0x45 {
        lemma_four_at(body, 19);
        lemma_eight_at(body, 23);
    } else if body[0] == 0x58 {
        lemma_four_at(body, 19);
    } else if body[0] == 0x55 {
        lemma_eight_at(body, 19);
        lemma_four_at(body, 27);
        lemma_four_at(body, 31);
    } else if body[0] == 0x50 {
        lemma_four_at(body, 20);
        lemma_four_at(body, 32);
        lemma_eight_at(body, 36);
    }
    let event = wire_format::event_spec(body)->0;
    assert(parser.decoding(framed(body) + rest).events[0] == event);
}

/// An event message about a symbol that the table does not have, or has under
/// another name, is stopped on there; one with neither side is malformed.
pub proof fn lemma_unlisted_is_refused(parser: Itch<'_>, body: Seq<u8>, rest: Seq<u8>)
    requires
        (framed(body) + rest).len() <= usize::MAX,
        stands_for_an_event(body),
    ensures
        !listed(parser, body) ==> parser.decoding(framed(body) + rest) == refused(
            FeedError::UnknownSymbol { offset: 0 },
        ),
        listed(parser, body) && names_its_stock(body) && body[19] != 0x42 && body[19] != 0x53
            ==> parser.decoding(framed(body) + rest) == refused(
            FeedError::Malformed { offset: 0 },
        ),
{
    lemma_listed(parser, body);
    lemma_first(parser, body, rest);
}

/// A message for somebody else says nothing, and what stands behind it is read.
/// Any other message that stands for no event is malformed.
pub proof fn lemma_other_messages(parser: Itch<'_>, body: Seq<u8>, rest: Seq<u8>)
    requires
        0 < body.len() <= u16::MAX,
        (framed(body) + rest).len() <= usize::MAX,
        !stands_for_an_event(body),
    ensures
        parser.decoding(framed(body) + rest) == (if for_somebody_else(body) {
            then_reads(Seq::empty(), 2 + body.len() as int, parser.decoding(rest))
        } else {
            refused(FeedError::Malformed { offset: 0 })
        }),
{
    lemma_first(parser, body, rest);
}

/// A message that is not there whole is waited for, and one of no length is
/// malformed.
pub proof fn lemma_unfinished(parser: Itch<'_>, bytes: Seq<u8>)
    requires
        bytes.len() <= usize::MAX,
    ensures
        bytes.len() < 2 ==> parser.decoding(bytes) == waits(),
        bytes.len() >= 2 && bytes[0] == 0 && bytes[1] == 0 ==> parser.decoding(bytes) == refused(
            FeedError::Malformed { offset: 0 },
        ),
        bytes.len() >= 2 && bytes.len() < 2 + two(bytes, 0) ==> parser.decoding(bytes) == waits(),
{
    if bytes.len() >= 2 {
        lemma_two_at(bytes, 0);
    }
}

} // verus!
