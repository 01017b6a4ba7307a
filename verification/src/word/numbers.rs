//! Binary digits of machine numbers.

use super::bits::bits_of;
use super::types::{bit_lsb, BitVal, ConstBits};
use vstd::arithmetic::power2::{lemma_pow2_pos, lemma_pow2_unfold, pow2};
use vstd::prelude::*;

verus! {

/// The low `width` digits of a number, least significant first.
pub fn number_bits(value: u64, width: usize) -> (bits: Vec<bool>)
    ensures
        bits@ == bits_of(value as int, width as nat),
{
    let mut bits: Vec<bool> = Vec::new();
    let mut rest: u64 = value;
    proof {
        super::bits::lemma2();
        vstd::arithmetic::div_mod::lemma_div_basics(value as int);
    }
    while bits.len() < width
        invariant
            bits@.len() <= width,
            rest == value as int / pow2(bits@.len()) as int,
            forall|i: int|
                0 <= i < bits@.len() ==> #[trigger] bits@[i] == ((value as int / pow2(
                    i as nat,
                ) as int) % 2 == 1),
        decreases width - bits.len(),
    {
        proof {
            let n = bits@.len();
            lemma_pow2_pos(n);
            lemma_pow2_unfold(n + 1);
            vstd::arithmetic::div_mod::lemma_div_denominator(value as int, pow2(n) as int, 2);
        }
        bits.push(rest % 2 == 1);
        rest = rest / 2;
    }
    assert(bits@ =~= bits_of(value as int, width as nat));
    bits
}

/// The truth values of a constant without unknown bits, lowest first.
pub open spec fn known_word(bits: Seq<BitVal>) -> Seq<bool> {
    Seq::new(bits.len(), |i: int| bit_lsb(bits, i) is One)
}

pub open spec fn all_known(bits: Seq<BitVal>) -> bool {
    forall|i: int| 0 <= i < bits.len() ==> (#[trigger] bits[i]).known()
}

/// The constant of a row of truth values, lowest first.
pub fn constant_from(word: &Vec<bool>) -> (constant: ConstBits)
    ensures
        constant@.len() == word@.len(),
        all_known(constant@),
        known_word(constant@) == word@,
{
    let mut bits: Vec<BitVal> = Vec::new();
    let mut index: usize = word.len();
    while index > 0
        invariant
            index <= word@.len(),
            bits@.len() == word@.len() - index,
            forall|i: int|
                0 <= i < bits@.len() ==> #[trigger] bits@[i] == (if word@[word@.len() - 1 - i] {
                    BitVal::One
                } else {
                    BitVal::Zero
                }),
        decreases index,
    {
        index -= 1;
        if word[index] {
            bits.push(BitVal::One);
        } else {
            bits.push(BitVal::Zero);
        }
    }
    let constant = ConstBits { bits };
    assert(known_word(constant@) =~= word@);
    constant
}

/// A set of numbers below a bound has at most that many.
pub proof fn lemma_below(set: Set<int>, bound: nat)
    requires
        set.finite(),
        forall|x: int| #[trigger] set.contains(x) ==> 0 <= x < bound,
    ensures
        set.len() <= bound,
{
    let all = vstd::set_lib::set_int_range(0, bound as int);
    vstd::set_lib::lemma_int_range(0, bound as int);
    assert(set.subset_of(all));
    vstd::set_lib::lemma_len_subset(set, all);
}

} // verus!
