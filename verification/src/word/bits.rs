//! Words as sequences of bits, least significant bit first.

use vstd::arithmetic::div_mod::{
    lemma_fundamental_div_mod, lemma_fundamental_div_mod_converse,
};
use vstd::arithmetic::power2::{lemma_pow2_adds, lemma_pow2_pos, lemma_pow2_unfold, pow2};
use vstd::prelude::*;

verus! {

/// The unsigned number that a word stands for.
pub open spec fn nat_of(bits: Seq<bool>) -> nat
    decreases bits.len(),
{
    if bits.len() == 0 {
        0
    } else {
        nat_of(bits.drop_last()) + (if bits.last() {
            pow2((bits.len() - 1) as nat)
        } else {
            0
        })
    }
}

/// The two's complement number that a word stands for.
pub open spec fn int_of(bits: Seq<bool>) -> int {
    if bits.len() > 0 && bits.last() {
        nat_of(bits) - pow2(bits.len())
    } else {
        nat_of(bits) as int
    }
}

/// The low `width` bits of a number, in two's complement.
pub open spec fn bits_of(value: int, width: nat) -> Seq<bool> {
    Seq::new(width, |i: int| (value / (pow2(i as nat) as int)) % 2 == 1)
}

/// Whether some bit is set.
pub open spec fn any_bit(bits: Seq<bool>) -> bool {
    exists|i: int| 0 <= i < bits.len() && bits[i]
}

/// Whether every bit is set.
pub open spec fn all_bits(bits: Seq<bool>) -> bool {
    forall|i: int| 0 <= i < bits.len() ==> bits[i]
}

/// Whether an odd number of bits is set.
pub open spec fn parity(bits: Seq<bool>) -> bool
    decreases bits.len(),
{
    if bits.len() == 0 {
        false
    } else {
        parity(bits.drop_last()) != bits.last()
    }
}

pub open spec fn bit_nat(bit: bool) -> nat {
    if bit {
        1
    } else {
        0
    }
}

pub proof fn lemma_nat_bound(bits: Seq<bool>)
    ensures
        nat_of(bits) < pow2(bits.len()),
    decreases bits.len(),
{
    lemma_pow2_pos(bits.len());
    if bits.len() > 0 {
        lemma_nat_bound(bits.drop_last());
        lemma_pow2_unfold(bits.len());
    }
}

/// Appending a bit at the top.
pub proof fn lemma_nat_push(bits: Seq<bool>, top: bool)
    ensures
        nat_of(bits.push(top)) == nat_of(bits) + bit_nat(top) * pow2(bits.len()),
{
    assert(bits.push(top).drop_last() =~= bits);
}

/// The low bit first.
pub proof fn lemma_nat_first(bits: Seq<bool>)
    requires
        bits.len() > 0,
    ensures
        nat_of(bits) == bit_nat(bits[0]) + 2 * nat_of(bits.skip(1)),
    decreases bits.len(),
{
    lemma2();
    if bits.len() == 1 {
        assert(bits.drop_last().len() == 0);
        assert(nat_of(bits.drop_last()) == 0);
        assert(bits.skip(1).len() == 0);
    } else {
        lemma_nat_first(bits.drop_last());
        assert(bits.drop_last().skip(1) =~= bits.skip(1).drop_last());
        assert(bits.drop_last()[0] == bits[0]);
        assert(bits.skip(1).last() == bits.last());
        lemma_pow2_unfold((bits.len() - 1) as nat);
    }
}

pub proof fn lemma2()
    ensures
        pow2(0) == 1,
        pow2(1) == 2,
{
    vstd::arithmetic::power2::lemma2_to64();
}

/// Splitting a word in a low and a high part.
pub proof fn lemma_nat_split(bits: Seq<bool>, low: int)
    requires
        0 <= low <= bits.len(),
    ensures
        nat_of(bits) == nat_of(bits.take(low)) + pow2(low as nat) * nat_of(bits.skip(low)),
    decreases bits.len() - low,
{
    if low == bits.len() {
        assert(bits.take(low) =~= bits);
        assert(bits.skip(low).len() == 0);
        assert(nat_of(bits.skip(low)) == 0);
        assert(pow2(low as nat) * 0 == 0) by (nonlinear_arith);
    } else {
        let upper = bits.skip(low);
        lemma_nat_split(bits, low + 1);
        lemma_nat_first(upper);
        assert(upper.skip(1) =~= bits.skip(low + 1));
        assert(bits.take(low + 1) =~= bits.take(low).push(bits[low]));
        lemma_nat_push(bits.take(low), bits[low]);
        lemma_pow2_unfold((low + 1) as nat);
        let p = pow2(low as nat) as int;
        let h = nat_of(bits.skip(low + 1)) as int;
        let b = bit_nat(bits[low]) as int;
        assert(p * (b + 2 * h) == b * p + (2 * p) * h) by (nonlinear_arith);
    }
}

/// A bit of a word is a binary digit of its number.
pub proof fn lemma_nat_digit(bits: Seq<bool>, i: int)
    requires
        0 <= i < bits.len(),
    ensures
        ((nat_of(bits) as int) / (pow2(i as nat) as int)) % 2 == bit_nat(bits[i]),
{
    lemma_nat_split(bits, i);
    lemma_nat_bound(bits.take(i));
    lemma_pow2_pos(i as nat);
    let upper = bits.skip(i);
    lemma_nat_first(upper);
    let p = pow2(i as nat) as int;
    let h = nat_of(upper) as int;
    assert(p * h == h * p) by (nonlinear_arith);
    lemma_fundamental_div_mod_converse(
        nat_of(bits) as int,
        pow2(i as nat) as int,
        nat_of(upper) as int,
        nat_of(bits.take(i)) as int,
    );
    assert(upper[0] == bits[i]);
}

pub proof fn lemma_bits_of_nat(bits: Seq<bool>)
    ensures
        bits_of(nat_of(bits) as int, bits.len()) == bits,
{
    assert forall|i: int| 0 <= i < bits.len() implies bits_of(nat_of(bits) as int, bits.len())[i]
        == bits[i] by {
        lemma_nat_digit(bits, i);
    }
    assert(bits_of(nat_of(bits) as int, bits.len()) =~= bits);
}

/// Equal numbers on equal widths are equal words.
pub proof fn lemma_nat_injective(left: Seq<bool>, right: Seq<bool>)
    requires
        left.len() == right.len(),
        nat_of(left) == nat_of(right),
    ensures
        left == right,
{
    lemma_bits_of_nat(left);
    lemma_bits_of_nat(right);
}

/// The digits of a number below `width` only depend on its residue.
pub proof fn lemma_bits_of_residue(left: int, right: int, width: nat)
    requires
        left % (pow2(width) as int) == right % (pow2(width) as int),
    ensures
        bits_of(left, width) == bits_of(right, width),
{
    assert forall|i: int| 0 <= i < width implies bits_of(left, width)[i] == bits_of(
        right,
        width,
    )[i] by {
        lemma_digit_residue(left, width, i as nat);
        lemma_digit_residue(right, width, i as nat);
    }
    assert(bits_of(left, width) =~= bits_of(right, width));
}

proof fn lemma_digit_residue(value: int, width: nat, i: nat)
    requires
        i < width,
    ensures
        (value / (pow2(i) as int)) % 2 == ((value % (pow2(width) as int)) / (pow2(i) as int)) % 2,
{
    let p = pow2(i) as int;
    let m = pow2(width) as int;
    lemma_pow2_pos(i);
    lemma_pow2_pos(width);
    lemma_pow2_adds(i, (width - i) as nat);
    lemma_pow2_unfold((width - i) as nat);
    let h = pow2((width - i - 1) as nat) as int;
    lemma_pow2_pos((width - i - 1) as nat);
    let q = value / m;
    let r = value % m;
    lemma_fundamental_div_mod(value, m);
    // value == m * q + r and m == p * (2 * h)
    let a = r / p;
    let b = r % p;
    lemma_fundamental_div_mod(r, p);
    assert(value == (2 * h * q + a) * p + b) by (nonlinear_arith)
        requires
            value == m * q + r,
            m == p * (2 * h),
            r == p * a + b,
    ;
    lemma_fundamental_div_mod_converse(value, p, 2 * h * q + a, b);
    let hq = h * q;
    assert(2 * h * q == 2 * hq) by (nonlinear_arith)
        requires
            hq == h * q,
    ;
}

pub proof fn lemma_nat_of_bits(value: int, width: nat)
    ensures
        nat_of(bits_of(value, width)) == value % (pow2(width) as int),
    decreases width,
{
    lemma2();
    lemma_pow2_pos(width);
    if width == 0 {
        assert(bits_of(value, width).len() == 0);
    } else {
        let w = (width - 1) as nat;
        lemma_nat_of_bits(value, w);
        assert(bits_of(value, width).drop_last() =~= bits_of(value, w));
        let p = pow2(w) as int;
        lemma_pow2_pos(w);
        lemma_pow2_unfold(width);
        let a = value / p;
        let b = value % p;
        let d = a % 2;
        lemma_fundamental_div_mod(value, p);
        assert(value == (a / 2) * (2 * p) + (p * d + b)) by (nonlinear_arith)
            requires
                value == p * a + b,
                a == 2 * (a / 2) + d,
        ;
        assert(p * d == if d == 1 { p } else { 0 }) by (nonlinear_arith)
            requires
                d == 0 || d == 1,
        ;
        lemma_fundamental_div_mod_converse(value, 2 * p, a / 2, p * d + b);
    }
}

/// A word whose number is known is the digits of that number.
pub proof fn lemma_bits_are(bits: Seq<bool>, value: int)
    requires
        nat_of(bits) == value % (pow2(bits.len()) as int),
    ensures
        bits == bits_of(value, bits.len()),
{
    lemma_nat_of_bits(value, bits.len());
    lemma_nat_injective(bits, bits_of(value, bits.len()));
}

pub proof fn lemma_any_bit(bits: Seq<bool>)
    ensures
        any_bit(bits) == (nat_of(bits) != 0),
    decreases bits.len(),
{
    if bits.len() > 0 {
        let low = bits.drop_last();
        lemma_any_bit(low);
        lemma_pow2_pos((bits.len() - 1) as nat);
        if any_bit(low) {
            let i = choose|i: int| 0 <= i < low.len() && low[i];
            assert(bits[i]);
        } else if bits.last() {
            assert(bits[bits.len() - 1]);
        } else {
            assert forall|i: int| 0 <= i < bits.len() implies !bits[i] by {
                if i < bits.len() - 1 {
                    assert(!low[i]);
                }
            }
        }
    }
}

/// A word of clear bits stands for zero.
pub proof fn lemma_nat_zero(bits: Seq<bool>)
    requires
        forall|i: int| 0 <= i < bits.len() ==> !bits[i],
    ensures
        nat_of(bits) == 0,
{
    lemma_any_bit(bits);
}

/// Appending a bit at the top adds its weight.
pub proof fn lemma_nat_top(bits: Seq<bool>, top: bool)
    ensures
        nat_of(bits.push(top)) == nat_of(bits) + weight(top, bits.len()),
{
    assert(bits.push(top).drop_last() =~= bits);
}

/// What a bit at a position adds to a number.
pub open spec fn weight(bit: bool, position: nat) -> nat {
    if bit {
        pow2(position)
    } else {
        0
    }
}

pub proof fn lemma_nat_take(bits: Seq<bool>, i: int)
    requires
        0 <= i < bits.len(),
    ensures
        nat_of(bits.take(i + 1)) == nat_of(bits.take(i)) + weight(bits[i], i as nat),
{
    assert(bits.take(i + 1) =~= bits.take(i).push(bits[i]));
    lemma_nat_top(bits.take(i), bits[i]);
}

pub proof fn lemma_nat_skip(bits: Seq<bool>, i: int)
    requires
        0 <= i < bits.len(),
    ensures
        nat_of(bits.skip(i)) == bit_nat(bits[i]) + 2 * nat_of(bits.skip(i + 1)),
{
    lemma_nat_first(bits.skip(i));
    assert(bits.skip(i).skip(1) =~= bits.skip(i + 1));
}

/// The complement of a word.
pub open spec fn inverse_bits(bits: Seq<bool>) -> Seq<bool> {
    Seq::new(bits.len(), |i: int| !bits[i])
}

pub proof fn lemma_nat_inverse(bits: Seq<bool>)
    ensures
        nat_of(inverse_bits(bits)) == pow2(bits.len()) - 1 - nat_of(bits),
    decreases bits.len(),
{
    lemma2();
    if bits.len() > 0 {
        lemma_nat_inverse(bits.drop_last());
        assert(inverse_bits(bits).drop_last() =~= inverse_bits(bits.drop_last()));
        lemma_pow2_unfold(bits.len());
    } else {
        assert(inverse_bits(bits).len() == 0);
    }
}

/// A number below `modulus` plus a multiple of it.
pub proof fn lemma_mod_is(value: int, modulus: int, quotient: int, residue: int)
    requires
        0 <= residue < modulus,
        value == quotient * modulus + residue,
    ensures
        value % modulus == residue,
        value / modulus == quotient,
{
    lemma_fundamental_div_mod_converse(value, modulus, quotient, residue);
}

} // verus!
