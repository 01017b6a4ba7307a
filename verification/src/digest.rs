//! Digests of byte strings.

use vstd::prelude::*;

verus! {

/// The BLAKE3 digest of a byte string.
pub uninterp spec fn blake3_digest(data: Seq<u8>) -> Seq<u8>;

/// Calls `blake3::hash`, which computes the digest of its input alone; the digest
/// has 32 bytes. Which bytes they are is not stated.
#[verifier::external_body]
pub(crate) fn blake3_hash(data: &Vec<u8>) -> (digest: [u8; 32])
    ensures
        digest@ == blake3_digest(data@),
{
    blake3::hash(data.as_slice()).into()
}

/// The bytes of a number, the least significant one first.
pub open spec fn little_endian(number: nat, count: nat) -> Seq<u8>
    decreases count,
{
    if count == 0 {
        seq![]
    } else {
        seq![(number % 256) as u8] + little_endian(number / 256, (count - 1) as nat)
    }
}

/// Numbers that fit are told apart by their bytes.
pub proof fn bytes_determine_numbers(left: nat, right: nat, count: nat)
    requires
        left < vstd::arithmetic::power::pow(256, count),
        right < vstd::arithmetic::power::pow(256, count),
        little_endian(left, count) == little_endian(right, count),
    ensures
        left == right,
    decreases count,
{
    reveal(vstd::arithmetic::power::pow);
    if count > 0 {
        let a = little_endian(left, count);
        let b = little_endian(right, count);
        assert(a[0] == (left % 256) as u8);
        assert(b[0] == (right % 256) as u8);
        assert(a.skip(1) =~= little_endian(left / 256, (count - 1) as nat));
        assert(b.skip(1) =~= little_endian(right / 256, (count - 1) as nat));
        let rest = vstd::arithmetic::power::pow(256, (count - 1) as nat);
        assert(left / 256 < rest) by (nonlinear_arith)
            requires
                left < 256 * rest,
        ;
        assert(right / 256 < rest) by (nonlinear_arith)
            requires
                right < 256 * rest,
        ;
        bytes_determine_numbers(left / 256, right / 256, (count - 1) as nat);
    }
}

pub proof fn lemma_little_endian_length(number: nat, count: nat)
    ensures
        little_endian(number, count).len() == count,
    decreases count,
{
    if count > 0 {
        lemma_little_endian_length(number / 256, (count - 1) as nat);
    }
}

/// Appends the bytes of a number.
pub fn push_little_endian(bytes: &mut Vec<u8>, number: u64, count: usize)
    ensures
        final(bytes)@ == old(bytes)@ + little_endian(number as nat, count as nat),
{
    let ghost start = bytes@;
    let mut rest: u64 = number;
    let mut i: usize = 0;
    assert(start + little_endian(number as nat, count as nat) =~= bytes@ + little_endian(
        rest as nat,
        (count - i) as nat,
    ));
    while i < count
        invariant
            i <= count,
            start + little_endian(number as nat, count as nat) == bytes@ + little_endian(
                rest as nat,
                (count - i) as nat,
            ),
        decreases count - i,
    {
        let low: u8 = (rest % 256) as u8;
        let ghost before = bytes@;
        bytes.push(low);
        proof {
            assert(before + little_endian(rest as nat, (count - i) as nat) =~= bytes@
                + little_endian((rest / 256) as nat, (count - i - 1) as nat));
        }
        rest = rest / 256;
        i += 1;
    }
    assert(bytes@ + little_endian(rest as nat, 0) =~= bytes@);
}

/// Words of eight bytes each, one after the other.
pub open spec fn words_to_bytes(words: Seq<u64>) -> Seq<u8>
    decreases words.len(),
{
    if words.len() == 0 {
        seq![]
    } else {
        words_to_bytes(words.drop_last()) + little_endian(words.last() as nat, 8)
    }
}

pub proof fn lemma_words_length(words: Seq<u64>)
    ensures
        words_to_bytes(words).len() == 8 * words.len(),
    decreases words.len(),
{
    if words.len() > 0 {
        lemma_words_length(words.drop_last());
        lemma_little_endian_length(words.last() as nat, 8);
    }
}

pub proof fn lemma_split<A>(a: Seq<A>, b: Seq<A>, c: Seq<A>, d: Seq<A>)
    requires
        a + b == c + d,
        a.len() == c.len(),
    ensures
        a == c,
        b == d,
{
    assert(a =~= (a + b).take(a.len() as int));
    assert(c =~= (c + d).take(c.len() as int));
    assert(b =~= (a + b).skip(a.len() as int));
    assert(d =~= (c + d).skip(c.len() as int));
}

/// Rows of words are told apart by their bytes.
pub proof fn bytes_determine_words(left: Seq<u64>, right: Seq<u64>)
    requires
        words_to_bytes(left) == words_to_bytes(right),
    ensures
        left == right,
    decreases left.len(),
{
    lemma_words_length(left);
    lemma_words_length(right);
    if left.len() > 0 {
        lemma_words_length(left.drop_last());
        lemma_words_length(right.drop_last());
        lemma_split(
            words_to_bytes(left.drop_last()),
            little_endian(left.last() as nat, 8),
            words_to_bytes(right.drop_last()),
            little_endian(right.last() as nat, 8),
        );
        assert(vstd::arithmetic::power::pow(256, 8) == 0x1_0000_0000_0000_0000) by {
            reveal_with_fuel(vstd::arithmetic::power::pow, 9);
        }
        bytes_determine_numbers(left.last() as nat, right.last() as nat, 8);
        bytes_determine_words(left.drop_last(), right.drop_last());
        assert(left =~= left.drop_last().push(left.last()));
        assert(right =~= right.drop_last().push(right.last()));
    } else {
        assert(left =~= right);
    }
}

/// Appends the bytes of words.
pub fn push_words(bytes: &mut Vec<u8>, words: &Vec<u64>)
    ensures
        final(bytes)@ == old(bytes)@ + words_to_bytes(words@),
{
    let ghost start = bytes@;
    let mut i: usize = 0;
    assert(bytes@ =~= start + words_to_bytes(words@.take(0)));
    while i < words.len()
        invariant
            i <= words@.len(),
            bytes@ == start + words_to_bytes(words@.take(i as int)),
        decreases words.len() - i,
    {
        push_little_endian(bytes, words[i], 8);
        proof {
            let next = words@.take(i + 1);
            assert(next.drop_last() =~= words@.take(i as int));
            assert(next.last() == words@[i as int]);
            assert(bytes@ =~= start + words_to_bytes(next));
        }
        i += 1;
    }
    assert(words@.take(i as int) =~= words@);
}

} // verus!
