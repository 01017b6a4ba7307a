//! What the class, the width and the constant of a recognized operator say.

use super::recognition::{active_width, classified, is_one};
use super::regions::{constant_place, is_defined};
use crate::word::bits::nat_of;
use crate::word::module::{KindView, ModuleView};
use crate::word::semantics::{lemma_eval_operation, resize_bits, word_of, Env};
use crate::word::types::{bit_lsb, op_inputs, BinaryOp, BitVal, OpView, ValueId, WordType};
use vstd::arithmetic::power2::lemma2_to64;
use vstd::prelude::*;

verus! {

/// What is constant is the same in all environments.
pub proof fn constants_never_change(module: ModuleView, env: Env, other: Env, value: ValueId)
    requires
        module.wf(),
        module.has(value),
        is_defined(module, value),
    ensures
        word_of(module, env, value) == word_of(module, other, value),
    decreases value.raw,
{
    assert(module.value_ok(value.raw as int));
    match module.kind(value) {
        KindView::Constant(bits) => {
            let a = word_of(module, env, value);
            let b = word_of(module, other, value);
            assert forall|i: int| 0 <= i < bits.len() implies #[trigger] a[i] == b[i] by {
                assert(bits[bits.len() - 1 - i].known());
            }
            assert(a =~= b);
        },
        KindView::Operation(operation) => {
            let o = operation.raw as int;
            assert(module.operation_ok(o));
            if let OpView::Cast { kind, value: inner, target } = module.operations[o].kind {
                assert(op_inputs(module.operations[o].kind)[0] == inner);
                constants_never_change(module, env, other, inner);
                lemma_eval_operation(module, env, value.raw as int);
                lemma_eval_operation(module, other, value.raw as int);
            }
        },
        KindView::Signal(_) => {},
    }
}

/// The operand that an operator takes for a constant is one, and where it takes none, none is.
pub proof fn constant_places_are_right(
    module: ModuleView,
    env: Env,
    other: Env,
    left: ValueId,
    right: ValueId,
)
    requires
        module.wf(),
        module.has(left),
        module.has(right),
    ensures
        match constant_place(module, left, right) {
            Some(place) => {
                let value = if place == 0 {
                    left
                } else {
                    right
                };
                place <= 1 && word_of(module, env, value) == word_of(module, other, value)
            },
            None => !(module.kind(left) matches KindView::Constant(bits) && (forall|i: int|
                0 <= i < bits.len() ==> (#[trigger] bits[i]).known())) && !(module.kind(
                right,
            ) matches KindView::Constant(bits) && (forall|i: int|
                0 <= i < bits.len() ==> (#[trigger] bits[i]).known())),
        },
{
    if is_defined(module, left) {
        constants_never_change(module, env, other, left);
    } else if is_defined(module, right) {
        constants_never_change(module, env, other, right);
    }
}

/// The width that has to be computed leaves out known bits only, and all of those at the top.
pub proof fn widths_leave_out_known_bits(known: Option<Seq<BitVal>>, demand: u32)
    ensures
        active_width(known, demand) <= demand,
        forall|i: int|
            active_width(known, demand) <= i < demand ==> known is Some && i < known->0.len() && (
            #[trigger] bit_lsb(known->0, i)).known(),
        known matches Some(bits) ==> 0 < active_width(known, demand) <= bits.len() ==> !bit_lsb(
            bits,
            active_width(known, demand) - 1,
        ).known(),
        known is None ==> active_width(known, demand) == demand,
    decreases demand,
{
    if demand > 0 && known is Some && demand <= known->0.len() && bit_lsb(
        known->0,
        demand - 1,
    ).known() {
        widths_leave_out_known_bits(known, (demand - 1) as u32);
    }
}

proof fn lemma_one(bits: Seq<bool>)
    requires
        bits.len() > 0,
        bits[0],
        forall|i: int| 1 <= i < bits.len() ==> !(#[trigger] bits[i]),
    ensures
        nat_of(bits) == 1,
    decreases bits.len(),
{
    let short = bits.drop_last();
    if bits.len() == 1 {
        assert(nat_of(short) == 0);
        lemma2_to64();
    } else {
        assert forall|i: int| 1 <= i < short.len() implies !(#[trigger] short[i]) by {
            assert(short[i] == bits[i]);
        }
        lemma_one(short);
    }
}

/// An increment adds one and a decrement takes one away, where the one is not widened by its
/// sign; and the operands of any other class are those of the operation, in their order.
pub proof fn increments_add_one(
    module: ModuleView,
    env: Env,
    op: BinaryOp,
    left: ValueId,
    right: ValueId,
    ty: WordType,
)
    requires
        module.wf(),
        module.has(left),
        module.has(right),
        ty.width > 0,
        classified(module, op, left, right) is Some,
    ensures
        match classified(module, op, left, right) {
            Some((class, first, second)) => {
                let widens = ty.signed && module.ty(second).signed && module.ty(second).width == 1;
                let l = resize_bits(word_of(module, env, left), module.ty(left), ty);
                let r = resize_bits(word_of(module, env, right), module.ty(right), ty);
                let f = resize_bits(word_of(module, env, first), module.ty(first), ty);
                &&& class is Increment && !widens ==> op is Add && nat_of(l) + nat_of(r) == nat_of(f)
                    + 1
                &&& class is Decrement && !widens ==> op is Sub && nat_of(l) - nat_of(r) == nat_of(f)
                    - 1
                &&& !(class is Increment) ==> first == left && second == right
            },
            None => true,
        },
{
    let (class, first, second) = classified(module, op, left, right)->0;
    if class is Increment || class is Decrement {
        assert(is_one(module, second));
        assert(module.value_ok(second.raw as int));
        let word = word_of(module, env, second);
        let bits = module.kind(second)->Constant_0;
        let wide = resize_bits(word, module.ty(second), ty);
        assert(word.len() == bits.len());
        assert(bit_lsb(bits, 0) is One);
        assert(word[0]);
        assert forall|i: int| 1 <= i < word.len() implies !(#[trigger] word[i]) by {
            assert(bit_lsb(bits, i) is Zero);
        }
        if !(ty.signed && module.ty(second).signed && module.ty(second).width == 1) {
            assert(wide[0]);
            assert forall|i: int| 1 <= i < wide.len() implies !(#[trigger] wide[i]) by {
                if i < word.len() {
                    assert(!word[i]);
                } else if word.len() > 1 {
                    assert(!word[word.len() - 1]);
                }
            }
            lemma_one(wide);
        }
    }
}

} // verus!
