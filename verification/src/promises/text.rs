//! Numbers as digits, and names in a table: what text is worth.

use vstd::prelude::*;

use crate::feed;
use crate::feed::text as digits_of;

verus! {

/// Whether every byte is a decimal digit.
pub open spec fn digits(s: Seq<u8>) -> bool {
    forall|i: int| 0 <= i < s.len() ==> 0x30 <= #[trigger] s[i] <= 0x39
}

/// Ten to the `n`.
pub open spec fn power(n: nat) -> nat
    decreases n,
{
    if n == 0 {
        1
    } else {
        power((n - 1) as nat) * 10
    }
}

/// What digits write: the first is worth ten times as much as the next, and so
/// on.
pub open spec fn written(s: Seq<u8>) -> nat
    decreases s.len(),
{
    if s.len() == 0 {
        0
    } else {
        ((s[0] - 0x30) as nat) * power((s.len() - 1) as nat) + written(s.skip(1))
    }
}

/// Whether `text` is a decimal: `whole` alone, or `whole`, a dot and `frac`.
pub open spec fn decimal(text: Seq<u8>, whole: Seq<u8>, frac: Seq<u8>) -> bool {
    &&& digits(whole)
    &&& digits(frac)
    &&& whole.len() >= 1
    &&& frac.len() <= 8
    &&& text == whole && frac.len() == 0 || text == whole + seq![0x2e] + frac
}

/// Whether `text` is a decimal worth `n` hundred-millionths.
pub open spec fn worth(text: Seq<u8>, n: int) -> bool {
    exists|whole: Seq<u8>, frac: Seq<u8>|
        #![trigger decimal(text, whole, frac)]
        decimal(text, whole, frac) && n == written(whole) * 100_000_000 + written(frac) * power(
            (8 - frac.len()) as nat,
        )
}

pub proof fn lemma_power(n: nat)
    ensures
        power(n) == digits_of::ten_to(n),
    decreases n,
{
    if n > 0 {
        lemma_power((n - 1) as nat);
    }
}

/// The last digit is worth itself, and those before it ten times what they are
/// worth alone.
#[verifier::rlimit(30)]
proof fn lemma_written_last(s: Seq<u8>)
    requires
        s.len() > 0,
        digits(s),
    ensures
        written(s) == written(s.drop_last()) * 10 + (s.last() - 0x30),
    decreases s.len(),
{
    if s.len() == 1 {
        assert(s.skip(1) =~= Seq::empty());
        assert(s.drop_last() =~= Seq::empty());
        assert(power(0) == 1);
        assert(0x30 <= s[0]);
        let d = (s[0] - 0x30) as nat;
        assert(d * 1 == d) by (nonlinear_arith);
    } else {
        let rest = s.skip(1);
        assert forall|i: int| 0 <= i < rest.len() implies 0x30 <= #[trigger] rest[i] <= 0x39 by {
            assert(rest[i] == s[i + 1]);
        }
        lemma_written_last(rest);
        let front = s.drop_last();
        assert(front.skip(1) =~= rest.drop_last());
        let d = (s[0] - 0x30) as nat;
        let p = power((s.len() - 2) as nat);
        assert(power((s.len() - 1) as nat) == p * 10);
        assert(d * (p * 10) == (d * p) * 10) by (nonlinear_arith);
        assert(front[0] == s[0]);
    }
}

/// Digits are worth the same read from either end.
pub proof fn lemma_written(s: Seq<u8>)
    requires
        digits(s),
    ensures
        written(s) == digits_of::decimal_value(s),
        digits_of::all_digits(s),
    decreases s.len(),
{
    assert forall|i: int| 0 <= i < s.len() implies digits_of::is_digit(#[trigger] s[i]) by {}
    if s.len() > 0 {
        let front = s.drop_last();
        assert forall|i: int| 0 <= i < front.len() implies 0x30 <= #[trigger] front[i] <= 0x39 by {
            assert(front[i] == s[i]);
        }
        lemma_written_last(s);
        lemma_written(front);
        assert(0x30 <= s[s.len() - 1]);
    }
}

/// The parts of a decimal are what stands before and behind the dot.
pub proof fn lemma_decimal_parts(text: Seq<u8>, whole: Seq<u8>, frac: Seq<u8>)
    requires
        decimal(text, whole, frac),
    ensures
        digits_of::whole_part(text) == whole,
        digits_of::fraction_part(text) == frac,
        digits_of::fixed_point(text) == Some(
            (written(whole) * 100_000_000 + written(frac) * power((8 - frac.len()) as nat)) as nat,
        ),
{
    let dot = whole.len() as int;
    assert forall|i: int| 0 <= i < dot implies text[i] != 0x2e by {
        assert(text[i] == whole[i]);
        assert(0x30 <= whole[i]);
    }
    if text != whole {
        assert(text[dot] == 0x2e);
    }
    digits_of::lemma_find_byte_is(text, 0, 0x2e, dot);
    assert(digits_of::whole_part(text) =~= whole);
    assert(digits_of::fraction_part(text) =~= frac);
    lemma_written(whole);
    lemma_written(frac);
    lemma_power((8 - frac.len()) as nat);
}

/// What text is worth, it is read as; and it is read as nothing else.
#[verifier::rlimit(30)]
pub proof fn lemma_worth(text: Seq<u8>, n: int)
    ensures
        worth(text, n) <==> n >= 0 && digits_of::fixed_point(text) == Some(n as nat),
        worth(text, n) && n <= i64::MAX ==> digits_of::fixed_point_i64(text) == Some(n as i64),
{
    if worth(text, n) {
        let (whole, frac) = choose|whole: Seq<u8>, frac: Seq<u8>|
            #![trigger decimal(text, whole, frac)]
            decimal(text, whole, frac) && n == written(whole) * 100_000_000 + written(frac)
                * power((8 - frac.len()) as nat);
        lemma_decimal_parts(text, whole, frac);
    }
    if digits_of::fixed_point(text) is Some {
        let whole = digits_of::whole_part(text);
        let frac = digits_of::fraction_part(text);
        let dot = digits_of::find_byte(text, 0, 0x2e);
        digits_of::lemma_find_byte(text, 0, 0x2e);
        assert forall|i: int| 0 <= i < whole.len() implies 0x30 <= #[trigger] whole[i] <= 0x39 by {
            assert(digits_of::is_digit(whole[i]));
        }
        assert forall|i: int| 0 <= i < frac.len() implies 0x30 <= #[trigger] frac[i] <= 0x39 by {
            assert(digits_of::is_digit(frac[i]));
        }
        if dot < text.len() {
            assert(text =~= whole + seq![0x2e] + frac);
        } else {
            assert(text =~= whole);
        }
        assert(decimal(text, whole, frac));
        lemma_decimal_parts(text, whole, frac);
    }
}

/// A zero at the end of a fraction changes nothing.
#[verifier::rlimit(30)]
pub proof fn lemma_trailing_zero(whole: Seq<u8>, frac: Seq<u8>, n: int)
    requires
        digits(whole),
        digits(frac),
        whole.len() >= 1,
        frac.len() < 8,
    ensures
        worth(whole + seq![0x2e] + frac, n) <==> worth(whole + seq![0x2e] + frac.push(0x30), n),
{
    let short = whole + seq![0x2e] + frac;
    let more = frac.push(0x30);
    let long = whole + seq![0x2e] + more;
    assert forall|i: int| 0 <= i < more.len() implies 0x30 <= #[trigger] more[i] <= 0x39 by {
        if i < frac.len() {
            assert(more[i] == frac[i]);
        }
    }
    lemma_written_last(more);
    assert(more.drop_last() =~= frac);
    let p = power((8 - more.len()) as nat);
    assert(power((8 - frac.len()) as nat) == p * 10);
    assert(written(frac) * (p * 10) == (written(frac) * 10) * p) by (nonlinear_arith);
    assert(decimal(short, whole, frac));
    assert(decimal(long, whole, more));
    lemma_decimal_parts(short, whole, frac);
    lemma_decimal_parts(long, whole, more);
    lemma_worth(short, n);
    lemma_worth(long, n);
}

/// Whether `name` first stands in the table at `index`.
pub open spec fn first_at(table: Seq<&[u8]>, name: Seq<u8>, index: int) -> bool {
    &&& 0 <= index < table.len()
    &&& table[index]@ == name
    &&& forall|i: int| 0 <= i < index ==> #[trigger] table[i]@ != name
}

/// A name is found where it first stands in the table, and nowhere where it
/// does not.
#[verifier::rlimit(30)]
pub proof fn lemma_found_first(table: Seq<&[u8]>, name: Seq<u8>, index: int)
    ensures
        first_at(table, name, index) ==> feed::symbol_index(feed::names(table), name) == Some(
            index as u16,
        ),
        (forall|i: int| 0 <= i < table.len() ==> #[trigger] table[i]@ != name)
            ==> feed::symbol_index(feed::names(table), name) is None,
{
    let known = feed::names(table);
    known.index_of_first_ensures(name);
    if first_at(table, name, index) {
        assert(known[index] == name);
        let found = known.index_of_first(name)->0;
        assert(known[found] == table[found]@);
        if found < index {
            assert(table[found]@ != name);
        }
    }
    if forall|i: int| 0 <= i < table.len() ==> #[trigger] table[i]@ != name {
        if known.contains(name) {
            let i = choose|i: int| 0 <= i < known.len() && known[i] == name;
            assert(table[i]@ != name);
        }
    }
}

/// Digits that are read from the right are digits.
proof fn lemma_are_digits(s: Seq<u8>)
    requires
        digits_of::all_digits(s),
    ensures
        digits(s),
{
    assert forall|i: int| 0 <= i < s.len() implies 0x30 <= #[trigger] s[i] <= 0x39 by {
        assert(digits_of::is_digit(s[i]));
    }
}

/// A number is written in the digits that write it, and starts with a zero only
/// where it is zero.
pub proof fn lemma_numbers_are_written(n: nat)
    ensures
        digits(digits_of::digits(n)),
        written(digits_of::digits(n)) == n,
        digits_of::digits(n).len() >= 1,
        n > 0 ==> digits_of::digits(n)[0] != 0x30,
        n == 0 ==> digits_of::digits(n).len() == 1,
    decreases n,
{
    digits_of::lemma_digits(n);
    lemma_are_digits(digits_of::digits(n));
    lemma_written(digits_of::digits(n));
    if n >= 10 {
        lemma_numbers_are_written(n / 10);
    }
}

/// A padded number is its last digits, as many as asked for.
pub proof fn lemma_padded_numbers(n: nat, width: nat)
    ensures
        digits(digits_of::padded(n, width)),
        digits_of::padded(n, width).len() == width,
        n < power(width) ==> written(digits_of::padded(n, width)) == n,
{
    digits_of::lemma_padded(n, width);
    lemma_are_digits(digits_of::padded(n, width));
    lemma_written(digits_of::padded(n, width));
    lemma_power(width);
}

/// A value is written as a decimal worth it, and no fraction ends in a zero.
#[verifier::rlimit(30)]
pub proof fn lemma_values_are_written(value: nat)
    ensures
        worth(digits_of::scaled_text(value), value as int),
        value % 100_000_000 != 0 ==> digits_of::scaled_text(value).last() != 0x30,
        value % 100_000_000 == 0 ==> digits(digits_of::scaled_text(value)),
{
    digits_of::lemma_scaled_text(value);
    lemma_worth(digits_of::scaled_text(value), value as int);
    let frac = value % 100_000_000;
    digits_of::lemma_digits(value / 100_000_000);
    if frac == 0 {
        lemma_are_digits(digits_of::scaled_text(value));
    } else {
        let all = digits_of::padded(frac, 8);
        assert(digits_of::ten_to(8) == 100_000_000) by {
            reveal_with_fuel(digits_of::ten_to, 9);
        }
        digits_of::lemma_padded(frac, 8);
        lemma_trimmed(all);
        let tail = digits_of::trim_zeros(all);
        if tail.len() == 0 {
            digits_of::lemma_trim_zeros(all, 8);
            assert(digits_of::decimal_value(tail) == 0);
            assert(0 * digits_of::ten_to(8) == 0) by (nonlinear_arith);
            assert(digits_of::ten_to(0) == 1);
            assert(frac * 1 == frac) by (nonlinear_arith);
        }
        assert(digits_of::scaled_text(value).last() == tail.last());
    }
}

proof fn lemma_trimmed(s: Seq<u8>)
    ensures
        digits_of::trim_zeros(s).len() > 0 ==> digits_of::trim_zeros(s).last() != 0x30,
    decreases s.len(),
{
    if s.len() > 0 && s.last() == 0x30 {
        lemma_trimmed(s.drop_last());
    }
}

/// Looking a name up gives the first place it has in the table.
pub proof fn lemma_looked_up(table: &[&[u8]], name: &[u8], found: Option<u16>, index: int)
    requires
        call_ensures(feed::lookup, (table, name), found),
    ensures
        first_at(table@, name@, index) ==> found == Some(index as u16),
        (forall|i: int| 0 <= i < table@.len() ==> #[trigger] table@[i]@ != name@) ==> found is None,
{
    lemma_found_first(table@, name@, index);
}

} // verus!
