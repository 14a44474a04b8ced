//! Numbers as digits: the decimal forms that text feeds carry.

use vstd::prelude::*;

use crate::feed::PRICE_SCALE;

verus! {

/// Decimal places that the fixed-point scale holds.
pub const PLACES: usize = 8;

pub const DIGIT_ZERO: u8 = 0x30;

pub const DOT: u8 = 0x2e;

pub open spec fn is_digit(byte: u8) -> bool {
    0x30 <= byte <= 0x39
}

pub open spec fn all_digits(s: Seq<u8>) -> bool {
    forall|i: int| 0 <= i < s.len() ==> is_digit(#[trigger] s[i])
}

/// The number that a run of decimal digits writes.
pub open spec fn decimal_value(s: Seq<u8>) -> nat
    decreases s.len(),
{
    if s.len() == 0 {
        0
    } else {
        decimal_value(s.drop_last()) * 10 + (s.last() - DIGIT_ZERO) as nat
    }
}

pub open spec fn ten_to(n: nat) -> nat
    decreases n,
{
    if n == 0 {
        1
    } else {
        10 * ten_to((n - 1) as nat)
    }
}

/// The first position at or after `at` that holds `byte`, or the length.
pub open spec fn find_byte(s: Seq<u8>, at: int, byte: u8) -> int
    decreases s.len() - at,
{
    if at >= s.len() || s[at] == byte {
        at
    } else {
        find_byte(s, at + 1, byte)
    }
}

/// The first position at or after `at` that holds no digit, or the length.
pub open spec fn skip_digits(s: Seq<u8>, at: int) -> int
    decreases s.len() - at,
{
    if at >= s.len() || !is_digit(s[at]) {
        at
    } else {
        skip_digits(s, at + 1)
    }
}

/// The digits before the dot.
pub open spec fn whole_part(s: Seq<u8>) -> Seq<u8> {
    s.take(find_byte(s, 0, DOT))
}

/// The digits after the dot; none where there is no dot.
pub open spec fn fraction_part(s: Seq<u8>) -> Seq<u8> {
    let dot = find_byte(s, 0, DOT);
    if dot < s.len() {
        s.skip(dot + 1)
    } else {
        Seq::empty()
    }
}

/// A decimal such as `43250.1` in fixed point. `None` where the text is not a
/// decimal or carries more places than the scale holds.
pub open spec fn fixed_point(s: Seq<u8>) -> Option<nat> {
    let whole = whole_part(s);
    let frac = fraction_part(s);
    if whole.len() > 0 && all_digits(whole) && all_digits(frac) && frac.len() <= PLACES {
        Some(
            decimal_value(whole) * (PRICE_SCALE as nat) + decimal_value(frac) * ten_to(
                (PLACES - frac.len()) as nat,
            ),
        )
    } else {
        None
    }
}

/// [`fixed_point`], where an `i64` holds it.
pub open spec fn fixed_point_i64(s: Seq<u8>) -> Option<i64> {
    match fixed_point(s) {
        Some(value) => if value <= i64::MAX {
            Some(value as i64)
        } else {
            None
        },
        None => None,
    }
}

pub proof fn lemma_find_byte(s: Seq<u8>, at: int, byte: u8)
    requires
        0 <= at <= s.len(),
    ensures
        at <= find_byte(s, at, byte) <= s.len(),
        forall|i: int| at <= i < find_byte(s, at, byte) ==> s[i] != byte,
        find_byte(s, at, byte) < s.len() ==> s[find_byte(s, at, byte)] == byte,
    decreases s.len() - at,
{
    if at < s.len() && s[at] != byte {
        lemma_find_byte(s, at + 1, byte);
    }
}

/// The first occurrence is the only position that has the two properties.
pub proof fn lemma_find_byte_is(s: Seq<u8>, at: int, byte: u8, found: int)
    requires
        0 <= at <= found <= s.len(),
        forall|i: int| at <= i < found ==> s[i] != byte,
        found < s.len() ==> s[found] == byte,
    ensures
        find_byte(s, at, byte) == found,
    decreases s.len() - at,
{
    if at < found {
        lemma_find_byte_is(s, at + 1, byte, found);
    }
}

pub proof fn lemma_skip_digits(s: Seq<u8>, at: int)
    requires
        0 <= at <= s.len(),
    ensures
        at <= skip_digits(s, at) <= s.len(),
        forall|i: int| at <= i < skip_digits(s, at) ==> is_digit(#[trigger] s[i]),
        skip_digits(s, at) < s.len() ==> !is_digit(s[skip_digits(s, at)]),
    decreases s.len() - at,
{
    if at < s.len() && is_digit(s[at]) {
        lemma_skip_digits(s, at + 1);
    }
}

pub proof fn lemma_skip_digits_is(s: Seq<u8>, at: int, end: int)
    requires
        0 <= at <= end <= s.len(),
        forall|i: int| at <= i < end ==> is_digit(#[trigger] s[i]),
        end < s.len() ==> !is_digit(s[end]),
    ensures
        skip_digits(s, at) == end,
    decreases s.len() - at,
{
    if at < end {
        assert(is_digit(s[at]));
        lemma_skip_digits_is(s, at + 1, end);
    }
}

pub proof fn lemma_ten_to_positive(n: nat)
    ensures
        ten_to(n) >= 1,
    decreases n,
{
    if n > 0 {
        lemma_ten_to_positive((n - 1) as nat);
    }
}

/// `n` digits write a number below ten to the `n`.
pub proof fn lemma_decimal_value_bound(s: Seq<u8>)
    requires
        all_digits(s),
    ensures
        decimal_value(s) < ten_to(s.len()),
    decreases s.len(),
{
    if s.len() > 0 {
        assert(is_digit(s.last()));
        assert forall|i: int| 0 <= i < s.drop_last().len() implies is_digit(
            #[trigger] s.drop_last()[i],
        ) by {
            assert(is_digit(s[i]));
        }
        lemma_decimal_value_bound(s.drop_last());
    }
}

/// More digits never write a smaller number.
pub proof fn lemma_decimal_value_prefix(s: Seq<u8>, n: int)
    requires
        0 <= n <= s.len(),
    ensures
        decimal_value(s.take(n)) <= decimal_value(s),
    decreases s.len() - n,
{
    if n == s.len() {
        assert(s.take(n) =~= s);
    } else {
        assert(s.take(n + 1).drop_last() =~= s.take(n));
        lemma_decimal_value_prefix(s, n + 1);
    }
}

/// The number that `digits` writes; `None` where some byte is no digit or the
/// number exceeds what a `u64` holds.
pub fn decimal_u64(digits: &[u8]) -> (value: Option<u64>)
    ensures
        value == (if all_digits(digits@) && decimal_value(digits@) <= u64::MAX {
            Some(decimal_value(digits@) as u64)
        } else {
            None
        }),
{
    let mut out: u64 = 0;
    let mut i: usize = 0;
    assert(digits@.take(0) =~= Seq::<u8>::empty());
    while i < digits.len()
        invariant
            i <= digits@.len(),
            forall|j: int| 0 <= j < i ==> is_digit(#[trigger] digits@[j]),
            out == decimal_value(digits@.take(i as int)),
        decreases digits@.len() - i,
    {
        let byte = digits[i];
        if byte < DIGIT_ZERO || byte > DIGIT_ZERO + 9 {
            assert(!is_digit(digits@[i as int]));
            return None;
        }
        let digit: u64 = (byte - DIGIT_ZERO) as u64;
        proof {
            assert(digits@.take(i + 1).drop_last() =~= digits@.take(i as int));
            lemma_decimal_value_prefix(digits@, i + 1);
        }
        if out > u64::MAX / 10 || out * 10 > u64::MAX - digit {
            return None;
        }
        out = out * 10 + digit;
        i = i + 1;
    }
    assert(digits@.take(i as int) =~= digits@);
    Some(out)
}

/// The fraction only adds.
proof fn lemma_fixed_point_at_least_whole(s: Seq<u8>)
    ensures
        fixed_point(s) matches Some(value) ==> value >= decimal_value(whole_part(s)) * 100_000_000,
{
    let frac = fraction_part(s);
    let fraction = decimal_value(frac);
    let worth = ten_to((PLACES - frac.len()) as nat);
    assert(fraction * worth >= 0) by (nonlinear_arith)
        requires
            fraction >= 0,
            worth >= 0,
    ;
}

/// A decimal in fixed point; `None` where the text is no decimal, carries more
/// places than the scale holds, or writes a number that an `i64` cannot hold.
pub fn parse_fixed_point(text: &[u8]) -> (value: Option<i64>)
    ensures
        value == fixed_point_i64(text@),
{
    let mut dot: usize = 0;
    while dot < text.len() && text[dot] != DOT
        invariant
            dot <= text@.len(),
            forall|j: int| 0 <= j < dot ==> text@[j] != DOT,
        decreases text@.len() - dot,
    {
        dot = dot + 1;
    }
    proof {
        lemma_find_byte_is(text@, 0, DOT, dot as int);
    }
    let whole = &text[0..dot];
    let frac = if dot < text.len() {
        &text[dot + 1..text.len()]
    } else {
        &text[0..0]
    };
    assert(whole@ =~= whole_part(text@));
    assert(frac@ =~= fraction_part(text@));
    if whole.len() == 0 || frac.len() > PLACES {
        return None;
    }
    proof {
        lemma_fixed_point_at_least_whole(text@);
    }
    let Some(units) = decimal_u64(whole) else {
        return None;
    };
    let Some(mut part) = decimal_u64(frac) else {
        proof {
            if all_digits(frac@) {
                lemma_decimal_value_bound(frac@);
                lemma_ten_to_increasing(frac@.len(), PLACES as nat);
                assert(ten_to(8) == 100_000_000) by {
                    reveal_with_fuel(ten_to, 9);
                }
            }
        }
        return None;
    };
    let mut places: usize = frac.len();
    proof {
        lemma_decimal_value_bound(frac@);
        assert(ten_to(8) == 100_000_000) by {
            reveal_with_fuel(ten_to, 9);
        }
        lemma_ten_to_increasing(places as nat, 8);
    }
    let ghost scaled = part * ten_to((PLACES - places) as nat);
    assert(decimal_value(frac@) * ten_to((PLACES - frac@.len()) as nat) == scaled);
    while places < PLACES
        invariant
            places <= PLACES,
            part < ten_to(places as nat),
            ten_to(places as nat) <= ten_to(8),
            ten_to(8) == 100_000_000,
            scaled == part * ten_to((PLACES - places) as nat),
        decreases PLACES - places,
    {
        let ghost rest = ten_to((PLACES - places - 1) as nat);
        assert(part * (10 * rest) == (part * 10) * rest) by (nonlinear_arith);
        assert(ten_to((places + 1) as nat) == 10 * ten_to(places as nat));
        proof {
            lemma_ten_to_increasing((places + 1) as nat, 8);
        }
        part = part * 10;
        places = places + 1;
    }
    assert(part * ten_to(0) == part) by (nonlinear_arith)
        requires
            ten_to(0) == 1,
    ;
    let scale: u64 = PRICE_SCALE as u64;
    if units > i64::MAX as u64 / scale {
        return None;
    }
    let total = units * scale + part;
    if total > i64::MAX as u64 {
        return None;
    }
    Some(total as i64)
}

pub proof fn lemma_ten_to_increasing(m: nat, n: nat)
    requires
        m <= n,
    ensures
        ten_to(m) <= ten_to(n),
    decreases n - m,
{
    if m < n {
        lemma_ten_to_increasing(m, (n - 1) as nat);
        lemma_ten_to_positive((n - 1) as nat);
    }
}

// ------------------------------------------------------------------ written out

/// A number in decimal, with no leading zeros.
pub open spec fn digits(n: nat) -> Seq<u8>
    decreases n,
{
    if n < 10 {
        seq![(0x30 + n) as u8]
    } else {
        digits(n / 10).push((0x30 + n % 10) as u8)
    }
}

/// The last `width` decimal digits of a number.
pub open spec fn padded(n: nat, width: nat) -> Seq<u8>
    decreases width,
{
    if width == 0 {
        Seq::empty()
    } else {
        padded(n / 10, (width - 1) as nat).push((0x30 + n % 10) as u8)
    }
}

/// A run of digits without its trailing zeros.
pub open spec fn trim_zeros(s: Seq<u8>) -> Seq<u8>
    decreases s.len(),
{
    if s.len() > 0 && s.last() == DIGIT_ZERO {
        trim_zeros(s.drop_last())
    } else {
        s
    }
}

/// A fixed-point value as the decimal text an exchange would send, trailing
/// zeros trimmed the way real feeds trim them.
pub open spec fn scaled_text(value: nat) -> Seq<u8> {
    let whole = digits(value / 100_000_000);
    let frac = value % 100_000_000;
    if frac == 0 {
        whole
    } else {
        whole + seq![DOT] + trim_zeros(padded(frac, 8))
    }
}

/// Digits read back are the number, and few digits write a small one.
pub proof fn lemma_digits(n: nat)
    ensures
        decimal_value(digits(n)) == n,
        all_digits(digits(n)),
        digits(n).len() >= 1,
        forall|k: nat| #![trigger ten_to(k)] k >= 1 && n < ten_to(k) ==> digits(n).len() <= k,
    decreases n,
{
    if n < 10 {
        assert(digits(n).drop_last() =~= Seq::empty());
        assert(decimal_value(Seq::<u8>::empty()) == 0);
    } else {
        lemma_digits(n / 10);
        assert(digits(n).drop_last() =~= digits(n / 10));
        assert forall|k: nat| #![trigger ten_to(k)] k >= 1 && n < ten_to(k) implies digits(n).len()
            <= k by {
            assert(ten_to(1) == 10) by {
                reveal_with_fuel(ten_to, 2);
            }
            assert(n / 10 < ten_to((k - 1) as nat));
            assert(k >= 2);
        }
    }
}

pub proof fn lemma_padded(n: nat, width: nat)
    ensures
        padded(n, width).len() == width,
        all_digits(padded(n, width)),
        n < ten_to(width) ==> decimal_value(padded(n, width)) == n,
    decreases width,
{
    if width > 0 {
        lemma_padded(n / 10, (width - 1) as nat);
        assert(padded(n, width).drop_last() =~= padded(n / 10, (width - 1) as nat));
    }
}

/// Trimming zeros off a fraction does not change its worth.
pub proof fn lemma_trim_zeros(s: Seq<u8>, width: nat)
    requires
        all_digits(s),
        s.len() <= width,
    ensures
        all_digits(trim_zeros(s)),
        trim_zeros(s).len() <= s.len(),
        decimal_value(trim_zeros(s)) * ten_to((width - trim_zeros(s).len()) as nat)
            == decimal_value(s) * ten_to((width - s.len()) as nat),
    decreases s.len(),
{
    if s.len() > 0 && s.last() == DIGIT_ZERO {
        let rest = s.drop_last();
        assert(all_digits(rest)) by {
            assert forall|i: int| 0 <= i < rest.len() implies is_digit(#[trigger] rest[i]) by {
                assert(is_digit(s[i]));
            }
        }
        lemma_trim_zeros(rest, width);
        let v = decimal_value(rest);
        let t = ten_to((width - s.len()) as nat);
        assert(decimal_value(s) == v * 10);
        assert(ten_to((width - rest.len()) as nat) == 10 * t);
        assert(v * (10 * t) == (v * 10) * t) by (nonlinear_arith);
    }
}

/// The text of a fixed-point value reads back as the value.
pub proof fn lemma_scaled_text(value: nat)
    ensures
        fixed_point(scaled_text(value)) == Some(value),
        whole_part(scaled_text(value)) == digits(value / 100_000_000),
        scaled_text(value).len() >= 1,
        forall|i: int|
            #![trigger scaled_text(value)[i]]
            0 <= i < scaled_text(value).len() ==> is_digit(scaled_text(value)[i])
                || scaled_text(value)[i] == DOT,
{
    let text = scaled_text(value);
    let whole = digits(value / 100_000_000);
    let frac = value % 100_000_000;
    lemma_digits(value / 100_000_000);
    assert(ten_to(8) == 100_000_000) by {
        reveal_with_fuel(ten_to, 9);
    }
    lemma_padded(frac, 8);
    lemma_trim_zeros(padded(frac, 8), 8);
    let tail = trim_zeros(padded(frac, 8));
    assert forall|i: int| 0 <= i < whole.len() implies text[i] != DOT && is_digit(
        #[trigger] text[i],
    ) by {
        assert(text[i] == whole[i]);
        assert(is_digit(whole[i]));
    }
    lemma_find_byte_is(text, 0, DOT, whole.len() as int);
    assert(text.take(whole.len() as int) =~= whole);
    if frac == 0 {
        assert(fraction_part(text) =~= Seq::empty());
        assert(decimal_value(fraction_part(text)) == 0);
        assert(0 * ten_to(8) == 0) by (nonlinear_arith);
    } else {
        assert(fraction_part(text) =~= tail);
        assert(ten_to(0) == 1);
        assert(decimal_value(padded(frac, 8)) * ten_to(0) == frac) by (nonlinear_arith)
            requires
                decimal_value(padded(frac, 8)) == frac,
                ten_to(0) == 1,
        ;
        assert forall|i: int|
            #![trigger text[i]]
            0 <= i < text.len() implies is_digit(text[i]) || text[i] == DOT by {
            if i > whole.len() {
                assert(text[i] == tail[i - whole.len() - 1]);
                assert(is_digit(tail[i - whole.len() - 1]));
            }
        }
    }
}

/// Appends a number in decimal.
pub fn put_digits(out: &mut Vec<u8>, n: u64)
    ensures
        final(out)@ == old(out)@ + digits(n as nat),
    decreases n,
{
    if n >= 10 {
        put_digits(out, n / 10);
    }
    out.push(DIGIT_ZERO + (n % 10) as u8);
    assert(out@ =~= old(out)@ + digits(n as nat));
}

/// Appends the last `width` decimal digits of a number.
pub fn put_padded(out: &mut Vec<u8>, n: u64, width: usize)
    ensures
        final(out)@ == old(out)@ + padded(n as nat, width as nat),
    decreases width,
{
    if width > 0 {
        put_padded(out, n / 10, width - 1);
        out.push(DIGIT_ZERO + (n % 10) as u8);
    }
    assert(out@ =~= old(out)@ + padded(n as nat, width as nat));
}

/// Appends a fixed-point value as decimal text.
pub fn put_scaled(out: &mut Vec<u8>, value: u64)
    ensures
        final(out)@ == old(out)@ + scaled_text(value as nat),
{
    let scale: u64 = PRICE_SCALE as u64;
    let frac = value % scale;
    put_digits(out, value / scale);
    if frac != 0 {
        out.push(DOT);
        let mut tail: Vec<u8> = Vec::new();
        put_padded(&mut tail, frac, PLACES);
        assert(tail@ =~= padded(frac as nat, 8));
        while tail.len() > 0 && tail[tail.len() - 1] == DIGIT_ZERO
            invariant
                trim_zeros(tail@) == trim_zeros(padded(frac as nat, 8)),
            decreases tail@.len(),
        {
            tail.pop();
        }
        out.extend_from_slice(&tail);
    }
    assert(out@ =~= old(out)@ + scaled_text(value as nat));
}

// ------------------------------------------------------------------- placed text

/// `s` stands in `bytes` at `at`.
pub open spec fn stands(bytes: Seq<u8>, at: int, s: Seq<u8>) -> bool {
    &&& 0 <= at
    &&& at + s.len() <= bytes.len()
    &&& bytes.subrange(at, (at + s.len()) as int) == s
}

/// What stands somewhere has its parts side by side.
pub proof fn lemma_stands_split(bytes: Seq<u8>, at: int, a: Seq<u8>, b: Seq<u8>)
    requires
        stands(bytes, at, a + b),
    ensures
        stands(bytes, at, a),
        stands(bytes, (at + a.len()) as int, b),
{
    let whole = bytes.subrange(at, (at + (a + b).len()) as int);
    assert(bytes.subrange(at, (at + a.len()) as int) =~= whole.take(a.len() as int));
    assert(whole.take(a.len() as int) =~= a);
    assert(bytes.subrange((at + a.len()) as int, (at + a.len() + b.len()) as int) =~= whole.skip(
        a.len() as int,
    ));
    assert(whole.skip(a.len() as int) =~= b);
}

/// The bytes of what stands somewhere.
pub proof fn lemma_stands_at(bytes: Seq<u8>, at: int, s: Seq<u8>, i: int)
    requires
        stands(bytes, at, s),
        0 <= i < s.len(),
    ensures
        bytes[at + i] == s[i],
{
    assert(bytes.subrange(at, (at + s.len()) as int)[i] == bytes[at + i]);
}

/// A number ends where something else than a digit follows it.
pub proof fn lemma_stands_digits(bytes: Seq<u8>, at: int, n: nat)
    requires
        stands(bytes, at, digits(n)),
        at + digits(n).len() < bytes.len() ==> !is_digit(bytes[(at + digits(n).len()) as int]),
    ensures
        skip_digits(bytes, at) == at + digits(n).len(),
        decimal_value(bytes.subrange(at, (at + digits(n).len()) as int)) == n,
        digits(n).len() >= 1,
{
    lemma_digits(n);
    let end = (at + digits(n).len()) as int;
    assert forall|i: int| at <= i < end implies is_digit(#[trigger] bytes[i]) by {
        lemma_stands_at(bytes, at, digits(n), i - at);
        assert(is_digit(digits(n)[i - at]));
    }
    lemma_skip_digits_is(bytes, at, end);
}

/// Text without `byte` ends where `byte` first stands after it.
pub proof fn lemma_stands_until(bytes: Seq<u8>, at: int, s: Seq<u8>, byte: u8)
    requires
        stands(bytes, at, s),
        at + s.len() < bytes.len() ==> bytes[(at + s.len()) as int] == byte,
        forall|i: int| #![trigger s[i]] 0 <= i < s.len() ==> s[i] != byte,
    ensures
        find_byte(bytes, at, byte) == at + s.len(),
{
    let end = (at + s.len()) as int;
    assert forall|i: int| at <= i < end implies bytes[i] != byte by {
        lemma_stands_at(bytes, at, s, i - at);
        assert(s[i - at] != byte);
    }
    lemma_find_byte_is(bytes, at, byte, end);
}

// ---------------------------------------------------------------- moved text

/// Scanning text that stands `by` further on.
pub proof fn lemma_find_byte_shifted(s: Seq<u8>, at: int, byte: u8, by: int)
    requires
        0 <= by <= at,
        by <= s.len(),
    ensures
        find_byte(s, at, byte) == find_byte(s.skip(by), at - by, byte) + by,
    decreases s.len() - at,
{
    if at < s.len() && s[at] != byte {
        lemma_find_byte_shifted(s, at + 1, byte, by);
    }
}

pub proof fn lemma_skip_digits_shifted(s: Seq<u8>, at: int, by: int)
    requires
        0 <= by <= at,
        by <= s.len(),
    ensures
        skip_digits(s, at) == skip_digits(s.skip(by), at - by) + by,
    decreases s.len() - at,
{
    if at < s.len() && is_digit(s[at]) {
        lemma_skip_digits_shifted(s, at + 1, by);
    }
}

/// What is found in the first part of a text is found in the whole.
pub proof fn lemma_find_byte_extended(a: Seq<u8>, b: Seq<u8>, at: int, byte: u8)
    requires
        0 <= at <= a.len(),
        find_byte(a, at, byte) < a.len(),
    ensures
        find_byte(a + b, at, byte) == find_byte(a, at, byte),
{
    lemma_find_byte(a, at, byte);
    let found = find_byte(a, at, byte);
    assert forall|i: int| at <= i < found implies (a + b)[i] != byte by {
        assert((a + b)[i] == a[i]);
    }
    lemma_find_byte_is(a + b, at, byte, found);
}

pub proof fn lemma_skip_digits_extended(a: Seq<u8>, b: Seq<u8>, at: int)
    requires
        0 <= at <= a.len(),
        skip_digits(a, at) < a.len(),
    ensures
        skip_digits(a + b, at) == skip_digits(a, at),
{
    lemma_skip_digits(a, at);
    let end = skip_digits(a, at);
    assert forall|i: int| at <= i < end implies is_digit(#[trigger] (a + b)[i]) by {
        assert((a + b)[i] == a[i]);
        assert(is_digit(a[i]));
    }
    lemma_skip_digits_is(a + b, at, end);
}

} // verus!
