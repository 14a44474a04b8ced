//! An occupancy bitmap: one bit an index, in 64-bit words.

use vstd::prelude::*;

verus! {

/// Bit `b` of `word`.
pub open spec fn word_bit(word: u64, b: u64) -> bool {
    (word >> b) & 1 == 1
}

/// Bit `i` of the bitmap.
pub open spec fn bit(words: Seq<u64>, i: int) -> bool {
    word_bit(words[i / 64], (i % 64) as u64)
}

proof fn lemma_zero_word(b: u64)
    ensures
        b < 64 ==> !word_bit(0, b),
{
    assert(b < 64 ==> (0u64 >> b) & 1 != 1) by (bit_vector);
}

proof fn lemma_word_set(word: u64, at: u64, b: u64)
    requires
        at < 64,
        b < 64,
    ensures
        word_bit(word | (1u64 << at), b) == (b == at || word_bit(word, b)),
{
    assert(((word | (1u64 << at)) >> b) & 1 == 1 <==> (b == at || (word >> b) & 1 == 1))
        by (bit_vector)
        requires
            at < 64,
            b < 64,
    ;
}

proof fn lemma_word_clear(word: u64, at: u64, b: u64)
    requires
        at < 64,
        b < 64,
    ensures
        word_bit(word & !(1u64 << at), b) == (b != at && word_bit(word, b)),
{
    assert(((word & !(1u64 << at)) >> b) & 1 == 1 <==> (b != at && (word >> b) & 1 == 1))
        by (bit_vector)
        requires
            at < 64,
            b < 64,
    ;
}

proof fn lemma_mask_above(word: u64, at: u64, b: u64)
    requires
        at < 64,
        b < 64,
    ensures
        word_bit(word & !((((1u128 << (at + 1) as u64) - 1) as u128) as u64), b) == (b > at
            && word_bit(word, b)),
{
    assert(((word & !((((1u128 << ((at + 1) as u64)) - 1) as u128) as u64)) >> b) & 1 == 1 <==> (b
        > at && (word >> b) & 1 == 1)) by (bit_vector)
        requires
            at < 64,
            b < 64,
    ;
}

proof fn lemma_mask_below(word: u64, at: u64, b: u64)
    requires
        at < 64,
        b < 64,
    ensures
        word_bit(word & ((((1u128 << at) - 1) as u128) as u64), b) == (b < at && word_bit(
            word,
            b,
        )),
{
    assert(((word & ((((1u128 << at) - 1) as u128) as u64)) >> b) & 1 == 1 <==> (b < at && (word
        >> b) & 1 == 1)) by (bit_vector)
        requires
            at < 64,
            b < 64,
    ;
}

proof fn lemma_shifted_one(at: u64)
    requires
        at < 127,
    ensures
        1u128 << at >= 1,
{
    assert(1u128 << at >= 1) by (bit_vector)
        requires
            at < 127,
    ;
}

/// A bitmap with room for `n` bits, none of them set.
pub fn empty(n: usize) -> (words: Vec<u64>)
    requires
        n + 63 <= usize::MAX,
    ensures
        words@.len() == (n + 63) / 64,
        forall|i: int| 0 <= i < 64 * words@.len() ==> !bit(words@, i),
{
    let words = vec![0u64; (n + 63) / 64];
    assert forall|i: int| 0 <= i < 64 * words@.len() implies !bit(words@, i) by {
        lemma_zero_word((i % 64) as u64);
    }
    words
}

pub fn set_bit(words: &mut Vec<u64>, at: usize)
    requires
        at < 64 * old(words)@.len(),
    ensures
        final(words)@.len() == old(words)@.len(),
        forall|i: int|
            0 <= i < 64 * old(words)@.len() ==> bit(final(words)@, i) == (i == at || bit(
                old(words)@,
                i,
            )),
{
    let word = words[at / 64];
    words[at / 64] = word | (1u64 << (at % 64) as u64);
    assert forall|i: int| 0 <= i < 64 * old(words)@.len() implies bit(words@, i) == (i == at || bit(
        old(words)@,
        i,
    )) by {
        lemma_word_set(word, (at % 64) as u64, (i % 64) as u64);
    }
}

pub fn clear_bit(words: &mut Vec<u64>, at: usize)
    requires
        at < 64 * old(words)@.len(),
    ensures
        final(words)@.len() == old(words)@.len(),
        forall|i: int|
            0 <= i < 64 * old(words)@.len() ==> bit(final(words)@, i) == (i != at && bit(
                old(words)@,
                i,
            )),
{
    let word = words[at / 64];
    words[at / 64] = word & !(1u64 << (at % 64) as u64);
    assert forall|i: int| 0 <= i < 64 * old(words)@.len() implies bit(words@, i) == (i != at && bit(
        old(words)@,
        i,
    )) by {
        lemma_word_clear(word, (at % 64) as u64, (i % 64) as u64);
    }
}

/// The lowest set bit above `from`.
///
/// One masked word, then whole words: the bitmap makes the emptiness between
/// set bits free to skip.
pub fn next_above(words: &Vec<u64>, from: usize) -> (found: Option<usize>)
    requires
        from < 64 * words@.len(),
        64 * words@.len() <= usize::MAX,
    ensures
        match found {
            Some(at) => {
                &&& from < at < 64 * words@.len()
                &&& bit(words@, at as int)
                &&& forall|i: int| from < i < at ==> !bit(words@, i)
            },
            None => forall|i: int| from < i < 64 * words@.len() ==> !bit(words@, i),
        },
{
    let mut index: usize = from / 64;
    let at: u64 = (from % 64) as u64;
    // The shift can reach 64, which 128 bits take.
    proof {
        lemma_shifted_one((at + 1) as u64);
    }
    let keep = !(((1u128 << (at + 1)) - 1) as u64);
    let mut word: u64 = words[index] & keep;
    proof {
        assert forall|b: u64| b < 64 implies #[trigger] word_bit(word, b) == (from < 64 * index + b
            && word_bit(words@[index as int], b)) by {
            lemma_mask_above(words@[index as int], at, b);
        }
    }
    loop
        invariant
            from < 64 * words@.len() <= usize::MAX,
            index < words@.len(),
            from / 64 <= index,
            forall|b: u64|
                b < 64 ==> #[trigger] word_bit(word, b) == (from < 64 * index + b && word_bit(
                    words@[index as int],
                    b,
                )),
            forall|i: int| from < i < 64 * index ==> !bit(words@, i),
        decreases words@.len() - index,
    {
        if word != 0 {
            let low = word.trailing_zeros() as usize;
            proof {
                assert(word_bit(word, low as u64));
                assert forall|i: int| from < i < 64 * index + low implies !bit(words@, i) by {
                    if i >= 64 * index {
                        let b = (i - 64 * index) as u64;
                        assert((word >> b) & 1 == 0);
                        assert(!word_bit(word, b));
                        assert(i / 64 == index && i % 64 == b);
                    }
                }
                assert((64 * index + low) / 64 == index && (64 * index + low) % 64 == low);
            }
            return Some(index * 64 + low);
        }
        proof {
            assert forall|i: int| from < i < 64 * (index + 1) implies !bit(words@, i) by {
                if i >= 64 * index {
                    let b = (i - 64 * index) as u64;
                    lemma_zero_word(b);
                    assert(!word_bit(word, b));
                    assert(i / 64 == index && i % 64 == b);
                }
            }
        }
        index = index + 1;
        if index == words.len() {
            return None;
        }
        word = words[index];
    }
}

/// The highest set bit below `from`.
pub fn next_below(words: &Vec<u64>, from: usize) -> (found: Option<usize>)
    requires
        from < 64 * words@.len(),
        64 * words@.len() <= usize::MAX,
    ensures
        match found {
            Some(at) => {
                &&& at < from
                &&& bit(words@, at as int)
                &&& forall|i: int| at < i < from ==> !bit(words@, i)
            },
            None => forall|i: int| 0 <= i < from ==> !bit(words@, i),
        },
{
    let mut index: usize = from / 64;
    let at: u64 = (from % 64) as u64;
    proof {
        lemma_shifted_one(at);
    }
    let mut word: u64 = words[index] & (((1u128 << at) - 1) as u64);
    proof {
        assert forall|b: u64| b < 64 implies #[trigger] word_bit(word, b) == (64 * index + b < from
            && word_bit(words@[index as int], b)) by {
            lemma_mask_below(words@[index as int], at, b);
        }
    }
    loop
        invariant
            from < 64 * words@.len() <= usize::MAX,
            index < words@.len(),
            index <= from / 64,
            forall|b: u64|
                b < 64 ==> #[trigger] word_bit(word, b) == (64 * index + b < from && word_bit(
                    words@[index as int],
                    b,
                )),
            forall|i: int| 64 * (index + 1) <= i < from ==> !bit(words@, i),
        decreases index,
    {
        if word != 0 {
            let high = 63 - word.leading_zeros() as usize;
            proof {
                assert(word >> high as u64 & 1 == 1 || word >> high as u64 & 1 == 0)
                    by (bit_vector);
                assert(word_bit(word, high as u64));
                assert forall|i: int| 64 * index + high < i < from implies !bit(words@, i) by {
                    if i < 64 * (index + 1) {
                        let b = (i - 64 * index) as u64;
                        assert((word >> b) & 1 == 0);
                        assert(!word_bit(word, b));
                        assert(i / 64 == index && i % 64 == b);
                    }
                }
                assert((64 * index + high) / 64 == index && (64 * index + high) % 64 == high);
            }
            return Some(index * 64 + high);
        }
        proof {
            assert forall|i: int| 64 * index <= i < from implies !bit(words@, i) by {
                if i < 64 * (index + 1) {
                    let b = (i - 64 * index) as u64;
                    lemma_zero_word(b);
                    assert(!word_bit(word, b));
                    assert(i / 64 == index && i % 64 == b);
                }
            }
        }
        if index == 0 {
            return None;
        }
        index = index - 1;
        word = words[index];
    }
}

} // verus!
