//! Fixed-width integers as bytes, in both byte orders.

use vstd::prelude::*;

verus! {

pub open spec fn pow256(n: nat) -> nat
    decreases n,
{
    if n == 0 {
        1
    } else {
        256 * pow256((n - 1) as nat)
    }
}

/// The number that `s` holds, most significant byte first.
pub open spec fn be_value(s: Seq<u8>) -> nat
    decreases s.len(),
{
    if s.len() == 0 {
        0
    } else {
        be_value(s.drop_last()) * 256 + s.last() as nat
    }
}

/// The low `n` bytes of `value`, most significant first.
pub open spec fn be_bytes(value: nat, n: nat) -> Seq<u8>
    decreases n,
{
    if n == 0 {
        Seq::empty()
    } else {
        be_bytes(value / 256, (n - 1) as nat).push((value % 256) as u8)
    }
}

/// The number that `s` holds, least significant byte first.
pub open spec fn le_value(s: Seq<u8>) -> nat {
    be_value(s.reverse())
}

/// The low `n` bytes of `value`, least significant first.
pub open spec fn le_bytes(value: nat, n: nat) -> Seq<u8> {
    be_bytes(value, n).reverse()
}

/// The unsigned number whose 64-bit pattern is that of `value`.
pub open spec fn as_unsigned(value: i64) -> nat {
    if value >= 0 {
        value as nat
    } else {
        (value + 0x1_0000_0000_0000_0000) as nat
    }
}

/// The signed number whose 64-bit pattern is that of `value`.
pub open spec fn as_signed(value: nat) -> int {
    if value < 0x8000_0000_0000_0000 {
        value as int
    } else {
        value - 0x1_0000_0000_0000_0000
    }
}

pub proof fn lemma_be_bytes_len(value: nat, n: nat)
    ensures
        be_bytes(value, n).len() == n,
    decreases n,
{
    if n > 0 {
        lemma_be_bytes_len(value / 256, (n - 1) as nat);
    }
}

pub proof fn lemma_le_bytes_len(value: nat, n: nat)
    ensures
        le_bytes(value, n).len() == n,
{
    lemma_be_bytes_len(value, n);
}

pub proof fn lemma_be_value_bound(s: Seq<u8>)
    ensures
        be_value(s) < pow256(s.len()),
    decreases s.len(),
{
    if s.len() > 0 {
        lemma_be_value_bound(s.drop_last());
    }
}

pub proof fn lemma_pow256()
    ensures
        pow256(2) == 0x1_0000,
        pow256(4) == 0x1_0000_0000,
        pow256(8) == 0x1_0000_0000_0000_0000,
{
    reveal_with_fuel(pow256, 9);
}

pub proof fn lemma_pow256_increasing(m: nat, n: nat)
    requires
        m <= n,
    ensures
        pow256(m) <= pow256(n),
    decreases n - m,
{
    if m < n {
        lemma_pow256_increasing(m, (n - 1) as nat);
    }
}

/// Reading back what was written gives the number, where the bytes hold it.
pub proof fn lemma_be_roundtrip(value: nat, n: nat)
    requires
        value < pow256(n),
    ensures
        be_value(be_bytes(value, n)) == value,
        be_bytes(value, n).len() == n,
    decreases n,
{
    if n > 0 {
        let rest = (n - 1) as nat;
        lemma_be_roundtrip(value / 256, rest);
        assert(be_bytes(value, n).drop_last() =~= be_bytes(value / 256, rest));
    }
}

pub proof fn lemma_le_roundtrip(value: nat, n: nat)
    requires
        value < pow256(n),
    ensures
        le_value(le_bytes(value, n)) == value,
        le_bytes(value, n).len() == n,
{
    lemma_be_roundtrip(value, n);
    assert(be_bytes(value, n).reverse().reverse() =~= be_bytes(value, n));
}

pub proof fn lemma_le_value_bound(s: Seq<u8>)
    ensures
        le_value(s) < pow256(s.len()),
{
    lemma_be_value_bound(s.reverse());
}

pub proof fn lemma_signed_roundtrip(value: i64)
    ensures
        as_unsigned(value) < 0x1_0000_0000_0000_0000,
        as_signed(as_unsigned(value)) == value,
{
}

/// Reads up to eight bytes, most significant first.
pub fn read_be(bytes: &[u8]) -> (value: u64)
    requires
        bytes@.len() <= 8,
    ensures
        value == be_value(bytes@),
{
    let mut value: u64 = 0;
    let mut i: usize = 0;
    assert(bytes@.take(0) =~= Seq::<u8>::empty());
    while i < bytes.len()
        invariant
            i <= bytes@.len() <= 8,
            value == be_value(bytes@.take(i as int)),
        decreases bytes@.len() - i,
    {
        proof {
            assert(bytes@.take(i + 1).drop_last() =~= bytes@.take(i as int));
            lemma_be_value_bound(bytes@.take(i + 1));
            lemma_pow256_increasing((i + 1) as nat, 8);
            lemma_pow256();
        }
        value = value * 256 + bytes[i] as u64;
        i = i + 1;
    }
    assert(bytes@.take(i as int) =~= bytes@);
    value
}

/// Reads up to eight bytes, least significant first.
pub fn read_le(bytes: &[u8]) -> (value: u64)
    requires
        bytes@.len() <= 8,
    ensures
        value == le_value(bytes@),
{
    let ghost back = bytes@.reverse();
    let mut value: u64 = 0;
    let mut i: usize = bytes.len();
    assert(back.take(0) =~= Seq::<u8>::empty());
    while i > 0
        invariant
            i <= bytes@.len() <= 8,
            back == bytes@.reverse(),
            value == be_value(back.take(bytes@.len() - i)),
        decreases i,
    {
        i = i - 1;
        proof {
            let n = bytes@.len() - i;
            assert(back.take(n).drop_last() =~= back.take(n - 1));
            lemma_be_value_bound(back.take(n));
            lemma_pow256_increasing(n as nat, 8);
            lemma_pow256();
        }
        value = value * 256 + bytes[i] as u64;
    }
    assert(back.take(bytes@.len() as int) =~= back);
    value
}

/// Appends the low `n` bytes of `value`, most significant first.
pub fn put_be(out: &mut Vec<u8>, value: u64, n: usize)
    ensures
        final(out)@ == old(out)@ + be_bytes(value as nat, n as nat),
    decreases n,
{
    if n > 0 {
        put_be(out, value / 256, n - 1);
        out.push((value % 256) as u8);
        assert(out@ =~= old(out)@ + be_bytes(value as nat, n as nat));
    } else {
        assert(out@ =~= old(out)@ + be_bytes(value as nat, n as nat));
    }
}

/// Appends the low `n` bytes of `value`, least significant first.
pub fn put_le(out: &mut Vec<u8>, value: u64, n: usize)
    ensures
        final(out)@ == old(out)@ + le_bytes(value as nat, n as nat),
    decreases n,
{
    proof {
        lemma_be_bytes_len(value as nat, n as nat);
    }
    if n > 0 {
        proof {
            lemma_be_bytes_len(value as nat / 256, (n - 1) as nat);
        }
        out.push((value % 256) as u8);
        put_le(out, value / 256, n - 1);
        assert(out@ =~= old(out)@ + le_bytes(value as nat, n as nat));
    } else {
        assert(out@ =~= old(out)@ + le_bytes(value as nat, n as nat));
    }
}

/// The 64-bit pattern of `value`.
pub fn to_unsigned(value: i64) -> (bits: u64)
    ensures
        bits == as_unsigned(value),
{
    if value >= 0 {
        value as u64
    } else {
        u64::MAX - (-(value + 1)) as u64
    }
}

/// The number with the 64-bit pattern `bits`.
pub fn to_signed(bits: u64) -> (value: i64)
    ensures
        value == as_signed(bits as nat),
{
    if bits < 0x8000_0000_0000_0000 {
        bits as i64
    } else {
        -((u64::MAX - bits) as i64) - 1
    }
}

} // verus!
