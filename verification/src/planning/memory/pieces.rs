//! The conditions and choices that a bank of registers is made of.

use crate::error::{Invariant, SynthError};
use crate::word::bits::{any_bit, bits_of, lemma_nat_injective, lemma_nat_of_bits, nat_of};
use crate::word::emit::{lemma_stable, lemma_stable_trans, ran_out, stable};
use crate::word::module::{
    binary_type, MemoryWriteMask, ModuleView, WordModule,
};
use crate::word::numbers::{all_known, known_word};
use crate::word::semantics::{
    binary_bits, cast_bits, compare_type, concat_bits, lemma_eval_width, resize_bits, word_of, Env,
};
use crate::planning::regional::transfer::lemma_concat_single_bits;
use crate::word::types::{
    BinaryOp, BitVal, CastKind, ConstBits, Enable, SourceSpan, UnaryOp, ValueId, WordType,
};
use vstd::arithmetic::power2::{lemma2_to64, lemma_pow2_pos, lemma_pow2_unfold, pow2};
use vstd::prelude::*;

verus! {

/// Whether a value holds: some bit of it is set.
pub open spec fn truth(module: ModuleView, env: Env, value: ValueId) -> bool {
    any_bit(word_of(module, env, value))
}

pub open spec fn enabled(module: ModuleView, env: Env, enable: Enable) -> bool {
    truth(module, env, enable.value) == enable.active_high
}

pub open spec fn enabled_or_free(module: ModuleView, env: Env, enable: Option<Enable>) -> bool {
    match enable {
        Some(enable) => enabled(module, env, enable),
        None => true,
    }
}

pub proof fn lemma_one_bit(word: Seq<bool>)
    requires
        word.len() == 1,
    ensures
        any_bit(word) == word[0],
        word == seq![word[0]],
{
    assert(word =~= seq![word[0]]);
    if any_bit(word) {
        let i = choose|i: int| 0 <= i < word.len() && word[i];
        assert(i == 0);
    }
}

/// The binary digits of a number, the highest first.
fn digits(number: u32, width: u32) -> (bits: ConstBits)
    ensures
        bits@.len() == width,
        all_known(bits@),
        known_word(bits@) == bits_of(number as int, width as nat),
{
    let mut row: Vec<BitVal> = Vec::new();
    let mut i: u32 = width;
    while i > 0
        invariant
            i <= width,
            row@.len() == width - i,
            forall|k: int|
                0 <= k < row@.len() ==> #[trigger] row@[k] == (if bits_of(
                    number as int,
                    width as nat,
                )[width - 1 - k] {
                    BitVal::One
                } else {
                    BitVal::Zero
                }),
        decreases i,
    {
        i -= 1;
        let set = digit(number, i);
        row.push(
            if set {
                BitVal::One
            } else {
                BitVal::Zero
            },
        );
    }
    let bits = ConstBits { bits: row };
    proof {
        assert forall|k: int| 0 <= k < bits@.len() implies (#[trigger] bits@[k]).known() by {
            assert(bits@[k] == row@[k]);
        }
        assert(known_word(bits@) =~= bits_of(number as int, width as nat)) by {
            assert forall|k: int| 0 <= k < width implies known_word(bits@)[k] == bits_of(
                number as int,
                width as nat,
            )[k] by {
                assert(bits@[width - 1 - k] == row@[width - 1 - k]);
            }
        }
    }
    bits
}

/// One binary digit of a number.
fn digit(number: u32, place: u32) -> (set: bool)
    ensures
        set == ((number as int / (pow2(place as nat) as int)) % 2 == 1),
{
    let mut rest: u32 = number;
    let mut i: u32 = 0;
    proof {
        lemma2_to64();
    }
    while i < place && rest > 0
        invariant
            i <= place,
            rest as int == number as int / (pow2(i as nat) as int),
        decreases place - i,
    {
        proof {
            lemma_pow2_pos(i as nat);
            lemma_pow2_unfold((i + 1) as nat);
            vstd::arithmetic::div_mod::lemma_div_denominator(
                number as int,
                pow2(i as nat) as int,
                2,
            );
            assert(pow2(i as nat) * 2 == pow2((i + 1) as nat));
        }
        rest = rest / 2;
        i += 1;
    }
    proof {
        if i < place {
            lemma_pow2_pos(i as nat);
            lemma_pow2_pos(place as nat);
            vstd::arithmetic::power2::lemma_pow2_strictly_increases(i as nat, place as nat);
            vstd::arithmetic::div_mod::lemma_div_is_ordered_by_denominator(
                number as int,
                pow2(i as nat) as int,
                pow2(place as nat) as int,
            );
            assert(number as int / (pow2(place as nat) as int) >= 0) by (nonlinear_arith)
                requires
                    number >= 0,
                    pow2(place as nat) > 0,
            ;
        }
    }
    rest % 2 == 1
}

/// Two words of one type are compared as they are.
proof fn lemma_equal_words(left: Seq<bool>, right: Seq<bool>, ty: WordType, result: WordType)
    requires
        left.len() == ty.width,
        right.len() == ty.width,
    ensures
        binary_bits(BinaryOp::Eq, left, ty, right, ty, result) == seq![left == right],
        binary_bits(BinaryOp::Ne, left, ty, right, ty, result) == seq![left != right],
{
    let compared = compare_type(ty, ty, result);
    assert(resize_bits(left, ty, compared) =~= left);
    assert(resize_bits(right, ty, compared) =~= right);
}

/// Whether an address selects a word: a word is selected by the low bits of its
/// number.
pub open spec fn selects(module: ModuleView, env: Env, address: ValueId, index: nat) -> bool {
    nat_of(word_of(module, env, address)) == index % pow2(module.ty(address).width as nat)
}

/// A condition that an address selects a word.
pub fn address_match(module: &mut WordModule, address: ValueId, index: u32, source: SourceSpan)
    -> (result: Result<ValueId, SynthError>)
    requires
        old(module)@.wf(),
        old(module)@.has(address),
    ensures
        stable(old(module)@, final(module)@),
        result matches Err(error) ==> ran_out(final(module)@, error),
        result matches Ok(value) ==> {
            &&& final(module)@.has(value)
            &&& final(module)@.ty(value).width == 1
            &&& forall|env: Env| #[trigger]
                word_of(final(module)@, env, value) == seq![
                    selects(old(module)@, env, address, index as nat),
                ]
        },
{
    let ghost start = module@;
    assert(start.value_ok(address.raw as int));
    let ty = module.values[address.raw as usize].ty;
    let bits = digits(index, ty.width);
    let ghost held = bits@;
    let constant = module.emit_constant(bits, ty, source);
    let ghost middle = module@;
    proof {
        lemma_stable(start, middle);
    }
    let constant = match constant {
        Ok(constant) => constant,
        Err(error) => return Err(error),
    };
    let value = module.emit_binary(BinaryOp::Eq, address, constant, source);
    proof {
        lemma_stable(middle, module@);
        lemma_stable_trans(start, middle, module@);
        if value is Ok {
            assert forall|env: Env| #[trigger] word_of(module@, env, value->Ok_0) == seq![
                selects(start, env, address, index as nat),
            ] by {
                let word = word_of(start, env, address);
                let number = known_word(held);
                lemma_eval_width(start, env, address.raw as int);
                lemma_equal_words(word, number, ty, binary_type(BinaryOp::Eq, ty, ty));
                lemma_nat_of_bits(index as int, ty.width as nat);
                assert(word_of(middle, env, address) == word);
                if nat_of(word) == nat_of(number) {
                    lemma_nat_injective(word, number);
                }
            }
        }
    }
    value
}

/// A condition that an enable is active.
pub fn normalize_enable(module: &mut WordModule, enable: Enable, source: SourceSpan)
    -> (result: Result<ValueId, SynthError>)
    requires
        old(module)@.wf(),
        old(module)@.has(enable.value),
    ensures
        stable(old(module)@, final(module)@),
        result matches Err(error) ==> ran_out(final(module)@, error),
        result matches Ok(value) ==> {
            &&& final(module)@.has(value)
            &&& old(module)@.ty(enable.value).width == 1 ==> final(module)@.ty(value).width == 1
            &&& forall|env: Env| #[trigger]
                truth(final(module)@, env, value) == enabled(old(module)@, env, enable)
        },
{
    let ghost start = module@;
    proof {
        lemma_stable(start, start);
    }
    if enable.active_high {
        return Ok(enable.value);
    }
    let value = module.emit_unary(UnaryOp::LogicalNot, enable.value, source);
    proof {
        lemma_stable(start, module@);
        if value is Ok {
            assert forall|env: Env| #[trigger] truth(module@, env, value->Ok_0) == enabled(
                start,
                env,
                enable,
            ) by {
                let word = word_of(module@, env, value->Ok_0);
                assert(word == seq![!truth(start, env, enable.value)]);
                lemma_one_bit(word);
            }
        }
    }
    value
}

pub open spec fn truth_or_free(module: ModuleView, env: Env, value: Option<ValueId>) -> bool {
    match value {
        Some(value) => truth(module, env, value),
        None => true,
    }
}

/// Two conditions at once.
pub fn and(module: &mut WordModule, left: ValueId, right: Option<ValueId>, source: SourceSpan)
    -> (result: Result<ValueId, SynthError>)
    requires
        old(module)@.wf(),
        old(module)@.has(left),
        right matches Some(value) ==> old(module)@.has(value),
    ensures
        stable(old(module)@, final(module)@),
        result matches Err(error) ==> ran_out(final(module)@, error),
        result matches Ok(value) ==> {
            &&& final(module)@.has(value)
            &&& old(module)@.ty(left).width == 1 ==> final(module)@.ty(value).width == 1
            &&& forall|env: Env| #[trigger]
                truth(final(module)@, env, value) == (truth(old(module)@, env, left)
                    && truth_or_free(old(module)@, env, right))
        },
{
    let ghost start = module@;
    proof {
        lemma_stable(start, start);
    }
    match right {
        None => Ok(left),
        Some(other) => {
            let value = module.emit_binary(BinaryOp::LogicalAnd, left, other, source);
            proof {
                lemma_stable(start, module@);
                if value is Ok {
                    assert forall|env: Env| #[trigger] truth(module@, env, value->Ok_0) == (truth(
                        start,
                        env,
                        left,
                    ) && truth(start, env, other)) by {
                        let word = word_of(module@, env, value->Ok_0);
                        lemma_one_bit(word);
                    }
                }
            }
            value
        },
    }
}

/// One condition or another.
pub fn or(module: &mut WordModule, left: Option<ValueId>, right: ValueId, source: SourceSpan)
    -> (result: Result<ValueId, SynthError>)
    requires
        old(module)@.wf(),
        old(module)@.has(right),
        left matches Some(value) ==> old(module)@.has(value),
    ensures
        stable(old(module)@, final(module)@),
        result matches Err(error) ==> ran_out(final(module)@, error),
        result matches Ok(value) ==> {
            &&& final(module)@.has(value)
            &&& old(module)@.ty(right).width == 1 ==> final(module)@.ty(value).width == 1
            &&& forall|env: Env| #[trigger]
                truth(final(module)@, env, value) == (truth(old(module)@, env, right) || (
                left is Some && truth(old(module)@, env, left->0)))
        },
{
    let ghost start = module@;
    proof {
        lemma_stable(start, start);
    }
    match left {
        None => Ok(right),
        Some(other) => {
            let value = module.emit_binary(BinaryOp::LogicalOr, other, right, source);
            proof {
                lemma_stable(start, module@);
                if value is Ok {
                    assert forall|env: Env| #[trigger] truth(module@, env, value->Ok_0) == (truth(
                        start,
                        env,
                        right,
                    ) || truth(start, env, other)) by {
                        let word = word_of(module@, env, value->Ok_0);
                        lemma_one_bit(word);
                    }
                }
            }
            value
        },
    }
}

/// A word of which nothing is known.
pub fn unknown_value(module: &mut WordModule, ty: WordType, source: SourceSpan) -> (result: Result<
    ValueId,
    SynthError,
>)
    requires
        old(module)@.wf(),
        ty.width >= 1,
    ensures
        stable(old(module)@, final(module)@),
        result matches Err(error) ==> ran_out(final(module)@, error),
        result matches Ok(value) ==> final(module)@.has(value) && final(module)@.ty(value) == ty,
{
    let ghost start = module@;
    let mut row: Vec<BitVal> = Vec::new();
    row.resize(ty.width as usize, BitVal::X);
    let value = module.emit_constant(ConstBits { bits: row }, ty, source);
    proof {
        lemma_stable(start, module@);
    }
    value
}

/// A condition that a mask lets something through.
pub fn mask_active(module: &mut WordModule, mask: MemoryWriteMask, source: SourceSpan)
    -> (result: Result<ValueId, SynthError>)
    requires
        old(module)@.wf(),
        old(module)@.has(mask.value),
    ensures
        stable(old(module)@, final(module)@),
        result matches Err(error) ==> ran_out(final(module)@, error),
        result matches Ok(value) ==> {
            &&& final(module)@.has(value)
            &&& final(module)@.ty(value).width == 1
            &&& forall|env: Env| #[trigger]
                truth(final(module)@, env, value) == lets_through(old(module)@, env, mask)
        },
{
    let ghost start = module@;
    assert(start.value_ok(mask.value.raw as int));
    let ty = module.values[mask.value.raw as usize].ty;
    let closed: BitVal = if mask.active_high {
        BitVal::Zero
    } else {
        BitVal::One
    };
    let mut row: Vec<BitVal> = Vec::new();
    row.resize(ty.width as usize, closed);
    let bits = ConstBits { bits: row };
    let ghost held = bits@;
    assert forall|k: int| 0 <= k < held.len() implies (#[trigger] held[k]).known() by {
        assert(held[k] == row@[k]);
    }
    let constant = module.emit_constant(bits, ty, source);
    let ghost middle = module@;
    proof {
        lemma_stable(start, middle);
    }
    let constant = match constant {
        Ok(constant) => constant,
        Err(error) => return Err(error),
    };
    let value = module.emit_binary(BinaryOp::Ne, mask.value, constant, source);
    proof {
        lemma_stable(middle, module@);
        lemma_stable_trans(start, middle, module@);
        if value is Ok {
            assert forall|env: Env| #[trigger] truth(module@, env, value->Ok_0) == lets_through(
                start,
                env,
                mask,
            ) by {
                let word = word_of(start, env, mask.value);
                let shut = known_word(held);
                lemma_eval_width(start, env, mask.value.raw as int);
                lemma_equal_words(word, shut, ty, binary_type(BinaryOp::Ne, ty, ty));
                assert(word_of(middle, env, mask.value) == word);
                let result = word_of(module@, env, value->Ok_0);
                lemma_one_bit(result);
                assert forall|i: int| 0 <= i < shut.len() implies shut[i] == !mask.active_high by {
                    assert(held[shut.len() - 1 - i] == row@[shut.len() - 1 - i]);
                }
                if word != shut {
                    if forall|i: int| 0 <= i < word.len() ==> word[i] == shut[i] {
                        assert(word =~= shut);
                    }
                    let i = choose|i: int| 0 <= i < word.len() && word[i] != shut[i];
                    assert(word[i] == mask.active_high);
                }
            }
        }
    }
    value
}

/// Some bit of a mask is active.
pub open spec fn lets_through(module: ModuleView, env: Env, mask: MemoryWriteMask) -> bool {
    exists|i: int|
        0 <= i < word_of(module, env, mask.value).len() && (#[trigger] word_of(
            module,
            env,
            mask.value,
        )[i]) == mask.active_high
}

/// A word of which the masked groups of bits are replaced.
pub open spec fn masked(
    old_word: Seq<bool>,
    data: Seq<bool>,
    mask: Seq<bool>,
    granularity: int,
    active_high: bool,
) -> Seq<bool> {
    Seq::new(
        data.len(),
        |i: int|
            if mask[i / granularity] == active_high {
                data[i]
            } else {
                old_word[i]
            },
    )
}

/// What a write makes of a word, as far as its mask goes.
pub open spec fn written(
    module: ModuleView,
    env: Env,
    old_word: Seq<bool>,
    data: ValueId,
    mask: Option<MemoryWriteMask>,
) -> Seq<bool> {
    match mask {
        None => word_of(module, env, data),
        Some(mask) => masked(
            old_word,
            word_of(module, env, data),
            word_of(module, env, mask.value),
            mask.granularity as int,
            mask.active_high,
        ),
    }
}

/// A mask has a bit for every group of bits of a word.
pub open spec fn mask_fits(
    module: ModuleView,
    old_value: ValueId,
    data: ValueId,
    mask: Option<MemoryWriteMask>,
) -> bool {
    match mask {
        None => true,
        Some(mask) => {
            &&& mask.granularity > 0
            &&& (module.ty(data).width - 1) / (mask.granularity as int) < module.ty(
                mask.value,
            ).width
            &&& module.ty(old_value).width == module.ty(data).width
        },
    }
}

/// Takes the masked groups of bits from the data and the others from the old
/// word.
#[verifier::rlimit(60)]
pub fn apply_mask(
    module: &mut WordModule,
    old_value: ValueId,
    data: ValueId,
    mask: Option<MemoryWriteMask>,
    source: SourceSpan,
) -> (result: Result<ValueId, SynthError>)
    requires
        old(module)@.wf(),
        old(module)@.has(old_value),
        old(module)@.has(data),
        mask matches Some(mask) ==> old(module)@.has(mask.value),
    ensures
        stable(old(module)@, final(module)@),
        result matches Err(error) ==> if mask_fits(old(module)@, old_value, data, mask) {
            ran_out(final(module)@, error)
        } else {
            error == SynthError::Invariant(Invariant::WidthMismatch)
        },
        result is Ok ==> mask_fits(old(module)@, old_value, data, mask),
        result matches Ok(value) ==> {
            &&& final(module)@.has(value)
            &&& final(module)@.ty(value) == old(module)@.ty(data)
            &&& forall|env: Env| #[trigger]
                word_of(final(module)@, env, value) == written(
                    old(module)@,
                    env,
                    word_of(old(module)@, env, old_value),
                    data,
                    mask,
                )
        },
{
    let ghost start = module@;
    proof {
        lemma_stable(start, start);
    }
    let chosen_mask = match mask {
        Some(chosen_mask) => chosen_mask,
        None => return Ok(data),
    };
    assert(start.value_ok(data.raw as int));
    let ty = module.values[data.raw as usize].ty;
    let width: u32 = ty.width;
    let mask_width: u32 = module.values[chosen_mask.value.raw as usize].ty.width;
    if chosen_mask.granularity == 0 || (width - 1) / chosen_mask.granularity >= mask_width
        || module.values[old_value.raw as usize].ty.width != width {
        return Err(SynthError::Invariant(Invariant::WidthMismatch));
    }
    let mut parts: Vec<ValueId> = Vec::new();
    let mut i: u32 = width;
    while i > 0
        invariant
            start == old(module)@,
            mask == Some(chosen_mask),
            stable(start, module@),
            start.has(old_value),
            start.has(data),
            start.has(chosen_mask.value),
            start.ty(data) == ty,
            ty.width == width,
            start.ty(old_value).width == width,
            chosen_mask.granularity > 0,
            (width - 1) / (chosen_mask.granularity as int) < start.ty(chosen_mask.value).width,
            i <= width,
            parts@.len() == width - i,
            forall|k: int|
                0 <= k < parts@.len() ==> module@.has(#[trigger] parts@[k]) && module@.ty(
                    parts@[k],
                ).width == 1,
            forall|k: int, env: Env|
                0 <= k < parts@.len() ==> #[trigger] word_of(module@, env, parts@[k]) == seq![
                    written(start, env, word_of(start, env, old_value), data, Some(chosen_mask))[width - 1
                        - k],
                ],
        decreases i,
    {
        i -= 1;
        let ghost before = module@;
        let group: u32 = i / chosen_mask.granularity;
        proof {
            assert(i / chosen_mask.granularity <= (width - 1) / (chosen_mask.granularity as int))
                by (nonlinear_arith)
                requires
                    i <= width - 1,
                    chosen_mask.granularity > 0,
            ;
            lemma_types_kept(start, before, chosen_mask.value);
            lemma_types_kept(start, before, data);
            lemma_types_kept(start, before, old_value);
        }
        let chosen = match masked_bit(module, old_value, data, chosen_mask, group, i, source) {
            Ok(chosen) => chosen,
            Err(error) => {
                proof {
                    lemma_stable_trans(start, before, module@);
                }
                return Err(error);
            },
        };
        let ghost row = parts@;
        parts.push(chosen);
        proof {
            lemma_stable_trans(start, before, module@);
            assert forall|k: int| 0 <= k < parts@.len() implies module@.has(#[trigger] parts@[k])
                && module@.ty(parts@[k]).width == 1 by {
                if k < row.len() {
                    assert(before.has(row[k]));
                    lemma_types_kept(before, module@, row[k]);
                }
            }
            assert forall|k: int, env: Env| 0 <= k < parts@.len() implies #[trigger] word_of(
                module@,
                env,
                parts@[k],
            ) == seq![
                written(start, env, word_of(start, env, old_value), data, Some(chosen_mask))[width - 1
                    - k],
            ] by {
                if k < row.len() {
                    assert(before.has(row[k]));
                    assert(word_of(module@, env, row[k]) == word_of(before, env, row[k]));
                } else {
                    lemma_eval_width(start, env, data.raw as int);
                    assert(word_of(before, env, data) == word_of(start, env, data));
                    assert(word_of(before, env, old_value) == word_of(start, env, old_value));
                    assert(word_of(before, env, chosen_mask.value) == word_of(start, env, chosen_mask.value));
                }
            }
        }
    }
    let ghost row = parts@;
    let ghost middle = module@;
    proof {
        lemma_single_parts(middle, row);
    }
    let joined = module.emit_concat(parts, source);
    let ghost after = module@;
    proof {
        lemma_stable(middle, after);
        lemma_stable_trans(start, middle, after);
    }
    let joined = match joined {
        Ok(joined) => joined,
        Err(error) => return Err(error),
    };
    proof {
        assert forall|env: Env| #[trigger] word_of(after, env, joined) == written(
            start,
            env,
            word_of(start, env, old_value),
            data,
            Some(chosen_mask),
        ) by {
            let words = Seq::new(row.len(), |i: int| word_of(middle, env, row[i]));
            let goal = written(start, env, word_of(start, env, old_value), data, Some(chosen_mask));
            lemma_eval_width(start, env, data.raw as int);
            assert forall|k: int| 0 <= k < words.len() implies (#[trigger] words[k]).len() == 1 by {
                assert(words[k] == word_of(middle, env, row[k]));
            }
            lemma_concat_single_bits(words);
            assert forall|k: int| 0 <= k < goal.len() implies concat_bits(words)[k] == goal[k] by {
                assert(words[width - 1 - k] == word_of(middle, env, row[width - 1 - k]));
            }
            assert(concat_bits(words) =~= goal);
        }
    }
    let made_type = module.values[joined.raw as usize].ty;
    if made_type == ty {
        return Ok(joined);
    }
    let changed = module.emit_cast(CastKind::ZeroExtend, joined, ty, source);
    proof {
        lemma_stable(after, module@);
        lemma_stable_trans(start, after, module@);
        if changed is Ok {
            assert forall|env: Env| #[trigger] word_of(module@, env, changed->Ok_0) == written(
                start,
                env,
                word_of(start, env, old_value),
                data,
                Some(chosen_mask),
            ) by {
                let word = word_of(after, env, joined);
                lemma_eval_width(after, env, joined.raw as int);
                assert(cast_bits(CastKind::ZeroExtend, word, ty) =~= word);
            }
        }
    }
    changed
}

pub proof fn lemma_types_kept(before: ModuleView, after: ModuleView, value: ValueId)
    requires
        stable(before, after),
        before.has(value),
    ensures
        after.has(value),
        after.ty(value) == before.ty(value),
{
    assert(after.values[value.raw as int] == before.values[value.raw as int]);
}

proof fn lemma_single_parts(module: ModuleView, parts: Seq<ValueId>)
    requires
        forall|i: int| 0 <= i < parts.len() ==> module.ty(#[trigger] parts[i]).width == 1,
    ensures
        crate::word::module::parts_width(module, parts) == parts.len(),
    decreases parts.len(),
{
    if parts.len() > 0 {
        assert forall|i: int| 0 <= i < parts.drop_last().len() implies module.ty(
            #[trigger] parts.drop_last()[i],
        ).width == 1 by {
            assert(parts.drop_last()[i] == parts[i]);
        }
        lemma_single_parts(module, parts.drop_last());
        assert(module.ty(parts[parts.len() - 1]).width == 1);
    }
}

/// One bit of a masked word.
fn masked_bit(
    module: &mut WordModule,
    old_value: ValueId,
    data: ValueId,
    mask: MemoryWriteMask,
    group: u32,
    bit: u32,
    source: SourceSpan,
) -> (result: Result<ValueId, SynthError>)
    requires
        old(module)@.wf(),
        old(module)@.has(old_value),
        old(module)@.has(data),
        old(module)@.has(mask.value),
        group < old(module)@.ty(mask.value).width,
        bit < old(module)@.ty(data).width,
        bit < old(module)@.ty(old_value).width,
    ensures
        stable(old(module)@, final(module)@),
        result matches Err(error) ==> ran_out(final(module)@, error),
        result matches Ok(value) ==> {
            &&& final(module)@.has(value)
            &&& final(module)@.ty(value).width == 1
            &&& forall|env: Env| #[trigger]
                word_of(final(module)@, env, value) == seq![
                    if word_of(old(module)@, env, mask.value)[group as int] == mask.active_high {
                        word_of(old(module)@, env, data)[bit as int]
                    } else {
                        word_of(old(module)@, env, old_value)[bit as int]
                    },
                ]
        },
{
    let ghost start = module@;
    let select = module.emit_extract(mask.value, group, 1, source);
    let ghost one = module@;
    proof {
        lemma_stable(start, one);
    }
    let select = match select {
        Ok(select) => select,
        Err(error) => return Err(error),
    };
    let open: Result<ValueId, SynthError> = if mask.active_high {
        Ok(select)
    } else {
        module.emit_unary(UnaryOp::LogicalNot, select, source)
    };
    let ghost two = module@;
    proof {
        lemma_stable(one, two);
        lemma_stable_trans(start, one, two);
    }
    let open = match open {
        Ok(open) => open,
        Err(error) => return Err(error),
    };
    proof {
        assert forall|env: Env| #[trigger] word_of(two, env, open) == seq![
            word_of(start, env, mask.value)[group as int] == mask.active_high,
        ] by {
            let bit_word = word_of(one, env, select);
            assert(bit_word =~= seq![word_of(start, env, mask.value)[group as int]]);
            lemma_one_bit(bit_word);
        }
        lemma_types_kept(start, two, data);
        lemma_types_kept(start, two, old_value);
    }
    let new_bit = module.emit_extract(data, bit, 1, source);
    let ghost three = module@;
    proof {
        lemma_stable(two, three);
        lemma_stable_trans(start, two, three);
    }
    let new_bit = match new_bit {
        Ok(new_bit) => new_bit,
        Err(error) => return Err(error),
    };
    proof {
        lemma_types_kept(start, three, old_value);
    }
    let old_bit = module.emit_extract(old_value, bit, 1, source);
    let ghost four = module@;
    proof {
        lemma_stable(three, four);
        lemma_stable_trans(start, three, four);
        lemma_stable_trans(two, three, four);
    }
    let old_bit = match old_bit {
        Ok(old_bit) => old_bit,
        Err(error) => return Err(error),
    };
    proof {
        lemma_types_kept(two, four, open);
        lemma_types_kept(three, four, new_bit);
    }
    let value = module.emit_mux(open, new_bit, old_bit, source);
    proof {
        lemma_stable(four, module@);
        lemma_stable_trans(start, four, module@);
        if value is Ok {
            assert forall|env: Env| #[trigger] word_of(module@, env, value->Ok_0) == seq![
                if word_of(start, env, mask.value)[group as int] == mask.active_high {
                    word_of(start, env, data)[bit as int]
                } else {
                    word_of(start, env, old_value)[bit as int]
                },
            ] by {
                assert(word_of(four, env, open) == word_of(two, env, open));
                assert(word_of(four, env, new_bit) == word_of(three, env, new_bit));
                assert(word_of(three, env, new_bit) =~= seq![
                    word_of(start, env, data)[bit as int],
                ]);
                assert(word_of(four, env, old_bit) =~= seq![
                    word_of(start, env, old_value)[bit as int],
                ]);
            }
        }
    }
    value
}

} // verus!
