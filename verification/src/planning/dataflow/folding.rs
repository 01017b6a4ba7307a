//! Replacing operations by the constants that they compute.

use crate::error::{Invariant, SynthError};
use crate::word::bits::{all_bits, any_bit, parity};
use crate::word::module::{KindView, ModuleView, Value, ValueKind, ValueView, WordModule};
use crate::word::numbers::{all_known, known_word};
use crate::word::semantics::{
    cast_bits, concat_bits, constant_value, eval, extract_bits, lemma_eval_operation,
    lemma_eval_width, op_bits, unary_bits, word_of, words_below, Env,
};
use crate::word::types::{
    bit_lsb, op_inputs, BitVal, CastKind, ConstBits, OpKind, OpView, UnaryOp, ValueId, WordType,
};
use vstd::prelude::*;

verus! {

/// A word that a constant allows: its known bits are right.
pub open spec fn agrees(bits: Seq<BitVal>, word: Seq<bool>) -> bool {
    &&& word.len() == bits.len()
    &&& forall|i: int|
        0 <= i < bits.len() && (#[trigger] bit_lsb(bits, i)).known() ==> word[i] == (bit_lsb(
            bits,
            i,
        ) is One)
}

/// A constant that agrees with a value in every environment.
pub open spec fn stands_for(module: ModuleView, value: int, bits: Seq<BitVal>) -> bool {
    forall|env: Env| agrees(bits, #[trigger] eval(module, env, value))
}

pub open spec fn not_bit(bit: BitVal) -> BitVal {
    match bit {
        BitVal::Zero => BitVal::One,
        BitVal::One => BitVal::Zero,
        _ => BitVal::X,
    }
}

/// Whether a constant is different from zero, as far as that is known.
pub open spec fn logical_bit(bits: Seq<BitVal>) -> BitVal {
    if bits.contains(BitVal::One) {
        BitVal::One
    } else if forall|i: int| 0 <= i < bits.len() ==> (#[trigger] bits[i]) is Zero {
        BitVal::Zero
    } else {
        BitVal::X
    }
}

pub open spec fn folded_unary(op: UnaryOp, bits: Seq<BitVal>) -> Seq<BitVal> {
    match op {
        UnaryOp::BitNot => bits.map_values(|bit: BitVal| not_bit(bit)),
        UnaryOp::LogicalNot => seq![not_bit(logical_bit(bits))],
        UnaryOp::ReductionAnd => seq![
            if bits.contains(BitVal::Zero) {
                BitVal::Zero
            } else if forall|i: int| 0 <= i < bits.len() ==> (#[trigger] bits[i]) is One {
                BitVal::One
            } else {
                BitVal::X
            },
        ],
        UnaryOp::ReductionOr => seq![logical_bit(bits)],
        UnaryOp::ReductionXor => seq![
            if !all_known(bits) {
                BitVal::X
            } else if parity(known_word(bits)) {
                BitVal::One
            } else {
                BitVal::Zero
            },
        ],
    }
}

pub open spec fn folded_cast(kind: CastKind, bits: Seq<BitVal>, width: nat) -> Seq<BitVal> {
    match kind {
        CastKind::Truncate => bits.skip(bits.len() - width),
        CastKind::ZeroExtend => Seq::new((width - bits.len()) as nat, |i: int| BitVal::Zero) + bits,
        CastKind::SignExtend => Seq::new((width - bits.len()) as nat, |i: int| bits[0]) + bits,
    }
}

pub open spec fn constant_of(module: ModuleView, value: ValueId) -> Option<Seq<BitVal>> {
    match module.kind(value) {
        KindView::Constant(bits) => Some(bits),
        _ => None,
    }
}

/// The bit of a constant of one known bit.
pub open spec fn known_bit(module: ModuleView, value: ValueId) -> Option<bool> {
    match module.kind(value) {
        KindView::Constant(bits) => if bits.len() == 1 && bits[0].known() {
            Some(bits[0] is One)
        } else {
            None
        },
        _ => None,
    }
}

/// The constant parts of a concatenation, one after the other.
pub open spec fn joined_parts(module: ModuleView, parts: Seq<ValueId>) -> Option<Seq<BitVal>>
    decreases parts.len(),
{
    if parts.len() == 0 {
        Some(seq![])
    } else {
        match (joined_parts(module, parts.drop_last()), constant_of(module, parts.last())) {
            (Some(head), Some(tail)) => Some(head + tail),
            _ => None,
        }
    }
}

/// The constant that an operation on constants computes.
pub open spec fn folded_operation(module: ModuleView, kind: OpView) -> Option<Seq<BitVal>> {
    match kind {
        OpView::Extract { value, lsb, width } => match constant_of(module, value) {
            Some(bits) => Some(bits.subrange(bits.len() - lsb - width, bits.len() - lsb)),
            None => None,
        },
        OpView::Cast { kind: cast, value, target } => match constant_of(module, value) {
            Some(bits) => Some(folded_cast(cast, bits, target.width as nat)),
            None => None,
        },
        OpView::Concat { parts } => joined_parts(module, parts),
        OpView::Unary { op, arg } => match constant_of(module, arg) {
            Some(bits) => Some(folded_unary(op, bits)),
            None => None,
        },
        OpView::Mux { cond, then_value, else_value } => match known_bit(module, cond) {
            Some(true) => constant_of(module, then_value),
            Some(false) => constant_of(module, else_value),
            None => None,
        },
        _ => None,
    }
}

/// Operations of a module were replaced by constants that agree with them.
pub open spec fn folds(before: ModuleView, after: ModuleView) -> bool {
    &&& after == (ModuleView { values: after.values, ..before })
    &&& after.values.len() == before.values.len()
    &&& forall|v: int|
        0 <= v < before.values.len() ==> {
            &&& (#[trigger] after.values[v]).ty == before.values[v].ty
            &&& after.values[v].source == before.values[v].source
            &&& after.values[v].kind == before.values[v].kind || (before.values[v].kind is Operation
                && after.values[v].kind is Constant && after.values[v].kind->Constant_0.len()
                == before.values[v].ty.width && stands_for(
                before,
                v,
                after.values[v].kind->Constant_0,
            ))
        }
}

/// Folding keeps a module well formed.
pub proof fn lemma_folds_wf(before: ModuleView, after: ModuleView)
    requires
        before.wf(),
        folds(before, after),
    ensures
        after.wf(),
{
    assert forall|v: int| 0 <= v < after.values.len() implies #[trigger] after.value_ok(v) by {
        assert(before.value_ok(v));
        assert(after.values[v].ty == before.values[v].ty);
    }
    assert forall|i: int| 0 <= i < after.operations.len() implies #[trigger] after.operation_ok(
        i,
    ) by {
        assert(before.operation_ok(i));
        let operation = before.operations[i];
        lemma_same_types(before, after, operation.kind);
        lemma_typed_same(
            before,
            after,
            operation.kind,
            before.values[operation.result.raw as int].ty,
        );
    }
    assert forall|i: int| 0 <= i < after.connects.len() implies after.connect_ok(
        #[trigger] after.connects[i],
    ) by {
        assert(before.connect_ok(before.connects[i]));
    }
    assert forall|i: int, j: int|
        0 <= i < after.instances.len() && 0 <= j < after.instances[i].connections.len() implies (
    #[trigger] after.instances[i].connections[j]).value.raw < after.values.len() by {
        assert(before.instances[i].connections[j].value.raw < before.values.len());
    }
    assert forall|i: int| 0 <= i < after.memory_reads.len() implies after.read_port_ok(
        #[trigger] after.memory_reads[i],
    ) by {
        assert(before.read_port_ok(before.memory_reads[i]));
    }
    assert forall|i: int| 0 <= i < after.memory_writes.len() implies after.write_port_ok(
        #[trigger] after.memory_writes[i],
    ) by {
        assert(before.write_port_ok(before.memory_writes[i]));
    }
}

proof fn lemma_same_types(before: ModuleView, after: ModuleView, kind: OpView)
    requires
        folds(before, after),
        before.inputs_below(kind, before.values.len() as int),
    ensures
        forall|i: int|
            0 <= i < op_inputs(kind).len() ==> after.ty(#[trigger] op_inputs(kind)[i])
                == before.ty(op_inputs(kind)[i]),
{
    assert forall|i: int| 0 <= i < op_inputs(kind).len() implies after.ty(
        #[trigger] op_inputs(kind)[i],
    ) == before.ty(op_inputs(kind)[i]) by {
        assert(op_inputs(kind)[i].raw < before.values.len());
        assert(after.values[op_inputs(kind)[i].raw as int].ty
            == before.values[op_inputs(kind)[i].raw as int].ty);
    }
}

proof fn lemma_typed_same(before: ModuleView, after: ModuleView, kind: OpView, ty: WordType)
    requires
        forall|i: int|
            0 <= i < op_inputs(kind).len() ==> after.ty(#[trigger] op_inputs(kind)[i])
                == before.ty(op_inputs(kind)[i]),
    ensures
        after.op_typed(kind, ty) == before.op_typed(kind, ty),
{
    crate::word::module::lemma_op_typed_agree(before, after, kind, ty);
}


/// A constant stands for itself.
proof fn lemma_constant_stands(module: ModuleView, value: int)
    requires
        0 <= value < module.values.len(),
        module.values[value].kind is Constant,
    ensures
        stands_for(module, value, module.values[value].kind->Constant_0),
{
    let bits = module.values[value].kind->Constant_0;
    assert forall|env: Env| agrees(bits, #[trigger] eval(module, env, value)) by {
        assert(eval(module, env, value) == constant_value(bits, env, value));
    }
}

/// A constant of a folded module stands for the value in the original.
proof fn lemma_folded_constant(before: ModuleView, after: ModuleView, value: ValueId)
    requires
        folds(before, after),
        before.wf(),
        before.has(value),
        constant_of(after, value) is Some,
    ensures
        stands_for(before, value.raw as int, constant_of(after, value)->0),
        constant_of(after, value)->0.len() == before.ty(value).width,
{
    let v = value.raw as int;
    assert(after.values[v].ty == before.values[v].ty);
    assert(before.value_ok(v));
    if after.values[v].kind == before.values[v].kind {
        lemma_constant_stands(before, v);
    }
}

proof fn lemma_unary_agrees(op: UnaryOp, bits: Seq<BitVal>, word: Seq<bool>)
    requires
        agrees(bits, word),
        bits.len() >= 1,
    ensures
        agrees(folded_unary(op, bits), unary_bits(op, word)),
{
    let n = bits.len();
    let folded = folded_unary(op, bits);
    let result = unary_bits(op, word);
    assert forall|i: int| 0 <= i < n implies (#[trigger] bits[i]).known() ==> word[n - 1 - i] == (
    bits[i] is One) by {
        assert(bit_lsb(bits, n - 1 - i) == bits[i]);
    }
    match op {
        UnaryOp::BitNot => {
            assert forall|i: int|
                0 <= i < folded.len() && (#[trigger] bit_lsb(folded, i)).known() implies result[i]
                == (bit_lsb(folded, i) is One) by {
                assert(bit_lsb(bits, i) == bits[n - 1 - i]);
                assert(bit_lsb(folded, i) == not_bit(bits[n - 1 - i]));
            }
        },
        UnaryOp::LogicalNot | UnaryOp::ReductionOr => {
            lemma_logical_agrees(bits, word);
            assert forall|i: int|
                0 <= i < folded.len() && (#[trigger] bit_lsb(folded, i)).known() implies result[i]
                == (bit_lsb(folded, i) is One) by {
                assert(bit_lsb(folded, i) == folded[0]);
            }
        },
        UnaryOp::ReductionAnd => {
            if bits.contains(BitVal::Zero) {
                let k = choose|k: int| 0 <= k < n && bits[k] == BitVal::Zero;
                assert(bits[k].known());
                assert(!word[n - 1 - k]);
                assert(!all_bits(word));
            } else if forall|i: int| 0 <= i < bits.len() ==> (#[trigger] bits[i]) is One {
                assert forall|i: int| 0 <= i < word.len() implies word[i] by {
                    assert(bits[n - 1 - i] is One);
                }
            }
            assert forall|i: int|
                0 <= i < folded.len() && (#[trigger] bit_lsb(folded, i)).known() implies result[i]
                == (bit_lsb(folded, i) is One) by {
                assert(bit_lsb(folded, i) == folded[0]);
            }
        },
        UnaryOp::ReductionXor => {
            if all_known(bits) {
                assert(known_word(bits) =~= word) by {
                    assert forall|i: int| 0 <= i < n implies known_word(bits)[i] == word[i] by {
                        assert(bits[n - 1 - i].known());
                        assert(bit_lsb(bits, i) == bits[n - 1 - i]);
                    }
                }
            }
            assert forall|i: int|
                0 <= i < folded.len() && (#[trigger] bit_lsb(folded, i)).known() implies result[i]
                == (bit_lsb(folded, i) is One) by {
                assert(bit_lsb(folded, i) == folded[0]);
            }
        },
    }
}

proof fn lemma_logical_agrees(bits: Seq<BitVal>, word: Seq<bool>)
    requires
        agrees(bits, word),
    ensures
        logical_bit(bits).known() ==> any_bit(word) == (logical_bit(bits) is One),
{
    let n = bits.len();
    if bits.contains(BitVal::One) {
        let k = choose|k: int| 0 <= k < n && bits[k] == BitVal::One;
        assert(bit_lsb(bits, n - 1 - k) == bits[k]);
        assert(word[n - 1 - k]);
    } else if forall|i: int| 0 <= i < bits.len() ==> (#[trigger] bits[i]) is Zero {
        assert forall|i: int| 0 <= i < word.len() implies !word[i] by {
            assert(bits[n - 1 - i] is Zero);
            assert(bit_lsb(bits, i) == bits[n - 1 - i]);
        }
    }
}

proof fn lemma_cast_agrees(kind: CastKind, bits: Seq<BitVal>, word: Seq<bool>, target: WordType)
    requires
        agrees(bits, word),
        bits.len() >= 1,
        if kind is Truncate {
            target.width <= bits.len()
        } else {
            target.width >= bits.len()
        },
    ensures
        agrees(folded_cast(kind, bits, target.width as nat), cast_bits(kind, word, target)),
{
    let n = bits.len();
    let folded = folded_cast(kind, bits, target.width as nat);
    let result = cast_bits(kind, word, target);
    assert(folded.len() == target.width);
    assert forall|i: int|
        0 <= i < folded.len() && (#[trigger] bit_lsb(folded, i)).known() implies result[i] == (
    bit_lsb(folded, i) is One) by {
        if i < n {
            assert(bit_lsb(folded, i) == bit_lsb(bits, i));
        } else {
            assert(bit_lsb(bits, n - 1) == bits[0]);
        }
    }
}

proof fn lemma_extract_agrees(bits: Seq<BitVal>, word: Seq<bool>, lsb: u32, width: u32)
    requires
        agrees(bits, word),
        lsb + width <= bits.len(),
    ensures
        agrees(
            bits.subrange(bits.len() - lsb - width, bits.len() - lsb),
            extract_bits(word, lsb as int, width as nat),
        ),
{
    let folded = bits.subrange(bits.len() - lsb - width, bits.len() - lsb);
    assert forall|i: int|
        0 <= i < folded.len() && (#[trigger] bit_lsb(folded, i)).known() implies extract_bits(
        word,
        lsb as int,
        width as nat,
    )[i] == (bit_lsb(folded, i) is One) by {
        assert(bit_lsb(folded, i) == bit_lsb(bits, lsb + i));
    }
}

/// Concatenation from the front: the first part is the most significant.
proof fn lemma_concat_last(words: Seq<Seq<bool>>)
    requires
        words.len() > 0,
    ensures
        concat_bits(words) == words.last() + concat_bits(words.drop_last()),
    decreases words.len(),
{
    if words.len() == 1 {
        assert(words.skip(1) =~= seq![]);
        assert(words.drop_last() =~= seq![]);
        assert(concat_bits(words.skip(1)) =~= seq![]);
        assert(concat_bits(words.drop_last()) =~= seq![]);
        assert(concat_bits(words) =~= words.last() + concat_bits(words.drop_last()));
    } else {
        lemma_concat_last(words.skip(1));
        assert(words.skip(1).drop_last() =~= words.drop_last().skip(1));
        assert(words.skip(1).last() == words.last());
        assert(concat_bits(words.drop_last()) == concat_bits(words.drop_last().skip(1))
            + words.drop_last()[0]);
        assert(concat_bits(words) =~= words.last() + concat_bits(words.drop_last()));
    }
}

proof fn lemma_joined_agrees(
    before: ModuleView,
    after: ModuleView,
    env: Env,
    parts: Seq<ValueId>,
    operand: spec_fn(ValueId) -> Seq<bool>,
)
    requires
        folds(before, after),
        before.wf(),
        forall|i: int| 0 <= i < parts.len() ==> before.has(#[trigger] parts[i]),
        forall|i: int|
            0 <= i < parts.len() ==> operand(#[trigger] parts[i]) == word_of(
                before,
                env,
                parts[i],
            ),
        joined_parts(after, parts) is Some,
    ensures
        agrees(
            joined_parts(after, parts)->0,
            concat_bits(Seq::new(parts.len(), |i: int| operand(parts[i]))),
        ),
        joined_parts(after, parts)->0.len() == crate::word::module::parts_width(before, parts),
    decreases parts.len(),
{
    let words = Seq::new(parts.len(), |i: int| operand(parts[i]));
    if parts.len() == 0 {
        assert(concat_bits(words) =~= seq![]);
    } else {
        let below = parts.drop_last();
        assert forall|i: int| 0 <= i < below.len() implies before.has(#[trigger] below[i])
            && operand(below[i]) == word_of(before, env, below[i]) by {
            assert(below[i] == parts[i]);
        }
        lemma_joined_agrees(before, after, env, below, operand);
        let last = parts[parts.len() - 1];
        lemma_folded_constant(before, after, last);
        lemma_concat_last(words);
        assert(words.drop_last() =~= Seq::new(below.len(), |i: int| operand(below[i])));
        let head = joined_parts(after, below)->0;
        let tail = constant_of(after, last)->0;
        let low = operand(last);
        let high = concat_bits(words.drop_last());
        assert(agrees(tail, eval(before, env, last.raw as int)));
        let folded = head + tail;
        assert forall|i: int|
            0 <= i < folded.len() && (#[trigger] bit_lsb(folded, i)).known() implies (low + high)[i]
            == (bit_lsb(folded, i) is One) by {
            if i < tail.len() {
                assert(bit_lsb(folded, i) == bit_lsb(tail, i));
            } else {
                assert(bit_lsb(folded, i) == bit_lsb(head, i - tail.len()));
            }
        }
    }
}

/// What an operation on constants computes agrees with the operation.
pub proof fn lemma_folded_operation(before: ModuleView, after: ModuleView, value: int)
    requires
        folds(before, after),
        before.wf(),
        0 <= value < before.values.len(),
        before.values[value].kind is Operation,
        folded_operation(
            after,
            before.operations[before.values[value].kind->Operation_0.raw as int].kind,
        ) is Some,
    ensures
        ({
            let bits = folded_operation(
                after,
                before.operations[before.values[value].kind->Operation_0.raw as int].kind,
            )->0;
            stands_for(before, value, bits) && bits.len() == before.values[value].ty.width
        }),
{
    assert(before.value_ok(value));
    let place = before.values[value].kind->Operation_0.raw as int;
    assert(before.operation_ok(place));
    let kind = before.operations[place].kind;
    let ty = before.values[value].ty;
    let inputs = op_inputs(kind);
    let bits = folded_operation(after, kind)->0;
    assert forall|i: int| 0 <= i < inputs.len() implies before.has(#[trigger] inputs[i]) by {}
    assert forall|env: Env| agrees(bits, #[trigger] eval(before, env, value)) && bits.len()
        == ty.width by {
        lemma_eval_operation(before, env, value);
        match kind {
            OpView::Extract { value: word, lsb, width } => {
                assert(inputs[0] == word);
                lemma_folded_constant(before, after, word);
                assert(agrees(
                    constant_of(after, word)->0,
                    eval(before, env, word.raw as int),
                ));
                lemma_extract_agrees(
                    constant_of(after, word)->0,
                    word_of(before, env, word),
                    lsb,
                    width,
                );
            },
            OpView::Cast { kind: cast, value: word, target } => {
                assert(inputs[0] == word);
                lemma_folded_constant(before, after, word);
                assert(before.value_ok(word.raw as int));
                assert(agrees(
                    constant_of(after, word)->0,
                    eval(before, env, word.raw as int),
                ));
                lemma_cast_agrees(
                    cast,
                    constant_of(after, word)->0,
                    word_of(before, env, word),
                    target,
                );
            },
            OpView::Concat { parts } => {
                let operand = |operand: ValueId| word_of(before, env, operand);
                assert forall|i: int| 0 <= i < parts.len() implies before.has(
                    #[trigger] parts[i],
                ) by {
                    assert(inputs[i] == parts[i]);
                }
                lemma_joined_agrees(before, after, env, parts, operand);
            },
            OpView::Unary { op, arg } => {
                assert(inputs[0] == arg);
                lemma_folded_constant(before, after, arg);
                assert(before.value_ok(arg.raw as int));
                assert(agrees(constant_of(after, arg)->0, eval(before, env, arg.raw as int)));
                lemma_unary_agrees(op, constant_of(after, arg)->0, word_of(before, env, arg));
            },
            OpView::Mux { cond, then_value, else_value } => {
                assert(inputs[0] == cond && inputs[1] == then_value && inputs[2] == else_value);
                lemma_folded_constant(before, after, cond);
                assert(agrees(constant_of(after, cond)->0, eval(before, env, cond.raw as int)));
                let bit = constant_of(after, cond)->0;
                assert(bit_lsb(bit, 0) == bit[0]);
                let chosen = if known_bit(after, cond)->0 {
                    then_value
                } else {
                    else_value
                };
                lemma_folded_constant(before, after, chosen);
                assert(agrees(
                    constant_of(after, chosen)->0,
                    eval(before, env, chosen.raw as int),
                ));
            },
            _ => {},
        }
    }
    let env: Env = arbitrary();
    assert(agrees(bits, eval(before, env, value)));
}

/// Bits for the unknown bits of folded constants, so that the constants are the
/// words of the operations that they replace.
pub open spec fn resolving(before: ModuleView, after: ModuleView, env: Env) -> Env {
    Env {
        signal: env.signal,
        state: env.state,
        unknown: |value: int, bit: int|
            if 0 <= value < before.values.len() && before.values[value].kind is Operation {
                eval(before, env, value)[bit]
            } else {
                (env.unknown)(value, bit)
            },
    }
}

/// Folding loses no behaviour: every word of the original module is a word of
/// the folded one, for some choice of the bits that are left unknown.
pub proof fn folding_keeps_words(before: ModuleView, after: ModuleView, env: Env, value: int)
    requires
        before.wf(),
        folds(before, after),
        0 <= value < before.values.len(),
    ensures
        eval(after, resolving(before, after, env), value) == eval(before, env, value),
    decreases value,
{
    let other = resolving(before, after, env);
    assert(before.value_ok(value));
    assert(after.values[value].ty == before.values[value].ty);
    if after.values[value].kind == before.values[value].kind {
        match before.values[value].kind {
            KindView::Signal(reference) => {
                assert(eval(after, other, value) =~= eval(before, env, value));
            },
            KindView::Constant(bits) => {
                assert(constant_value(bits, other, value) =~= constant_value(bits, env, value));
            },
            KindView::Operation(operation) => {
                assert(before.operation_ok(operation.raw as int));
                let kind = before.operations[operation.raw as int].kind;
                let f = words_below(before, env, value);
                let g = words_below(after, other, value);
                assert forall|i: int| 0 <= i < op_inputs(kind).len() implies f(
                    #[trigger] op_inputs(kind)[i],
                ) == g(op_inputs(kind)[i]) by {
                    let operand = op_inputs(kind)[i];
                    folding_keeps_words(before, after, env, operand.raw as int);
                }
                lemma_same_types(before, after, kind);
                let ty = before.values[value].ty;
                crate::word::semantics::lemma_op_bits_agree(
                    before,
                    after,
                    env,
                    value,
                    kind,
                    ty,
                    f,
                    g,
                );
                assert(op_bits(after, other, value, kind, ty, g) =~= op_bits(
                    after,
                    env,
                    value,
                    kind,
                    ty,
                    g,
                ));
            },
        }
    } else {
        let bits = after.values[value].kind->Constant_0;
        lemma_eval_width(before, env, value);
        assert(agrees(bits, eval(before, env, value)));
        assert(constant_value(bits, other, value) =~= eval(before, env, value)) by {
            assert forall|i: int| 0 <= i < bits.len() implies constant_value(bits, other, value)[i]
                == eval(before, env, value)[i] by {
                if bit_lsb(bits, i).known() {
                    assert(eval(before, env, value)[i] == (bit_lsb(bits, i) is One));
                }
            }
        }
    }
}


fn copy_constant(bits: &ConstBits) -> (copy: Vec<BitVal>)
    ensures
        copy@ == bits@,
{
    let duplicate = bits.duplicate();
    duplicate.bits
}

fn negated(bit: BitVal) -> (inverse: BitVal)
    ensures
        inverse == not_bit(bit),
{
    match bit {
        BitVal::Zero => BitVal::One,
        BitVal::One => BitVal::Zero,
        BitVal::X | BitVal::Z => BitVal::X,
    }
}

/// Whether a constant is different from zero, as far as that is known.
fn logical_value(input: &ConstBits) -> (bit: BitVal)
    ensures
        bit == logical_bit(input@),
{
    let mut i: usize = 0;
    let mut zeros: bool = true;
    while i < input.bits.len()
        invariant
            i <= input@.len(),
            forall|j: int| 0 <= j < i ==> (#[trigger] input@[j]) != BitVal::One,
            zeros == forall|j: int| 0 <= j < i ==> (#[trigger] input@[j]) is Zero,
        decreases input.bits.len() - i,
    {
        match input.bits[i] {
            BitVal::One => {
                assert(input@[i as int] == BitVal::One);
                return BitVal::One;
            },
            BitVal::Zero => {},
            BitVal::X | BitVal::Z => {
                zeros = false;
                assert(!(input@[i as int] is Zero));
            },
        }
        i += 1;
    }
    if zeros {
        BitVal::Zero
    } else {
        BitVal::X
    }
}

/// A unary operator on a constant.
pub fn fold_unary(op: UnaryOp, input: &ConstBits) -> (bits: Vec<BitVal>)
    ensures
        bits@ == folded_unary(op, input@),
{
    let mut bits: Vec<BitVal> = Vec::new();
    match op {
        UnaryOp::BitNot => {
            let mut i: usize = 0;
            while i < input.bits.len()
                invariant
                    i <= input@.len(),
                    bits@.len() == i,
                    forall|j: int| 0 <= j < i ==> #[trigger] bits@[j] == not_bit(input@[j]),
                decreases input.bits.len() - i,
            {
                bits.push(negated(input.bits[i]));
                i += 1;
            }
            assert(bits@ =~= folded_unary(op, input@));
        },
        UnaryOp::LogicalNot => {
            bits.push(negated(logical_value(input)));
            assert(bits@ =~= folded_unary(op, input@));
        },
        UnaryOp::ReductionAnd => {
            let mut zero: bool = false;
            let mut ones: bool = true;
            let mut i: usize = 0;
            while i < input.bits.len()
                invariant
                    i <= input@.len(),
                    zero == exists|j: int| 0 <= j < i && (#[trigger] input@[j]) == BitVal::Zero,
                    ones == forall|j: int| 0 <= j < i ==> (#[trigger] input@[j]) is One,
                decreases input.bits.len() - i,
            {
                match input.bits[i] {
                    BitVal::Zero => {
                        zero = true;
                        ones = false;
                        assert(input@[i as int] == BitVal::Zero);
                    },
                    BitVal::One => {},
                    BitVal::X | BitVal::Z => {
                        ones = false;
                        assert(!(input@[i as int] is One));
                    },
                }
                i += 1;
            }
            assert(zero == input@.contains(BitVal::Zero));
            bits.push(
                if zero {
                    BitVal::Zero
                } else if ones {
                    BitVal::One
                } else {
                    BitVal::X
                },
            );
            assert(bits@ =~= folded_unary(op, input@));
        },
        UnaryOp::ReductionOr => {
            bits.push(logical_value(input));
            assert(bits@ =~= folded_unary(op, input@));
        },
        UnaryOp::ReductionXor => {
            let mut known: bool = true;
            let mut odd: bool = false;
            let mut left: usize = input.bits.len();
            let ghost word = known_word(input@);
            assert(word.take(0) =~= seq![]);
            while left > 0
                invariant
                    left <= input@.len(),
                    word == known_word(input@),
                    known == forall|j: int| left <= j < input@.len() ==> (
                    #[trigger] input@[j]).known(),
                    odd == parity(word.take(input@.len() - left)),
                decreases left,
            {
                left -= 1;
                let ghost done = input@.len() - left;
                proof {
                    assert(word.take(done).drop_last() =~= word.take(done - 1));
                    assert(word.take(done).last() == word[done - 1]);
                    assert(bit_lsb(input@, done - 1) == input@[left as int]);
                }
                match input.bits[left] {
                    BitVal::One => {
                        odd = !odd;
                    },
                    BitVal::Zero => {},
                    BitVal::X | BitVal::Z => {
                        known = false;
                        assert(!input@[left as int].known());
                    },
                }
            }
            assert(word.take(input@.len() as int) =~= word);
            assert(known == all_known(input@));
            bits.push(
                if !known {
                    BitVal::X
                } else if odd {
                    BitVal::One
                } else {
                    BitVal::Zero
                },
            );
            assert(bits@ =~= folded_unary(op, input@));
        },
    }
    bits
}

/// A change of type on a constant.
pub fn fold_cast(input: &ConstBits, kind: CastKind, target: WordType) -> (result: Result<
    Vec<BitVal>,
    SynthError,
>)
    requires
        input@.len() >= 1,
    ensures
        result is Ok <==> (if kind is Truncate {
            target.width <= input@.len()
        } else {
            target.width >= input@.len()
        }),
        result matches Ok(bits) ==> bits@ == folded_cast(kind, input@, target.width as nat),
        result matches Err(error) ==> error == SynthError::Invariant(Invariant::WidthMismatch),
{
    let width: usize = target.width as usize;
    let length: usize = input.bits.len();
    let mut bits: Vec<BitVal> = Vec::new();
    match kind {
        CastKind::Truncate => {
            if width > length {
                return Err(SynthError::Invariant(Invariant::WidthMismatch));
            }
            let mut i: usize = length - width;
            while i < length
                invariant
                    length == input@.len(),
                    width <= length,
                    length - width <= i <= length,
                    bits@.len() == i - (length - width),
                    forall|j: int|
                        0 <= j < bits@.len() ==> #[trigger] bits@[j] == input@[length - width + j],
                decreases length - i,
            {
                bits.push(input.bits[i]);
                i += 1;
            }
            assert(bits@ =~= folded_cast(kind, input@, target.width as nat));
        },
        CastKind::ZeroExtend | CastKind::SignExtend => {
            if width < length {
                return Err(SynthError::Invariant(Invariant::WidthMismatch));
            }
            let fill: BitVal = match kind {
                CastKind::SignExtend => input.bits[0],
                _ => BitVal::Zero,
            };
            while bits.len() < width - length
                invariant
                    length <= width,
                    bits@.len() <= width - length,
                    forall|j: int| 0 <= j < bits@.len() ==> #[trigger] bits@[j] == fill,
                decreases width - length - bits.len(),
            {
                bits.push(fill);
            }
            let mut i: usize = 0;
            while i < length
                invariant
                    length == input@.len(),
                    length <= width,
                    i <= length,
                    bits@.len() == width - length + i,
                    forall|j: int| 0 <= j < width - length ==> #[trigger] bits@[j] == fill,
                    forall|j: int|
                        width - length <= j < bits@.len() ==> #[trigger] bits@[j] == input@[j - (
                        width - length)],
                decreases length - i,
            {
                bits.push(input.bits[i]);
                i += 1;
            }
            assert(bits@ =~= folded_cast(kind, input@, target.width as nat));
        },
    }
    Ok(bits)
}

/// The constant of a value, if it is one.
fn find_constant(module: &WordModule, value: ValueId) -> (found: Option<&ConstBits>)
    requires
        module@.has(value),
    ensures
        match found {
            Some(bits) => constant_of(module@, value) == Some(bits@),
            None => constant_of(module@, value) is None,
        },
{
    let stored = &module.values[value.raw as usize];
    assert(stored@ == module@.values[value.raw as int]);
    match &stored.kind {
        ValueKind::Constant(bits) => Some(bits),
        _ => None,
    }
}

/// The bit of a constant of one known bit.
pub fn constant_bit(module: &WordModule, value: ValueId) -> (bit: Option<bool>)
    requires
        module@.has(value),
    ensures
        bit == known_bit(module@, value),
{
    match find_constant(module, value) {
        Some(bits) => {
            if bits.bits.len() != 1 {
                return None;
            }
            match bits.bits[0] {
                BitVal::Zero => Some(false),
                BitVal::One => Some(true),
                BitVal::X | BitVal::Z => None,
            }
        },
        None => None,
    }
}

/// The constant that an operation on constants computes.
#[verifier::rlimit(40)]
pub fn fold_operation(module: &WordModule, operation: &OpKind, result_ty: WordType) -> (result:
    Result<Option<ConstBits>, SynthError>)
    requires
        module@.wf(),
        module@.inputs_below(operation@, module@.values.len() as int),
        module@.op_typed(operation@, result_ty),
        result_ty.width >= 1,
    ensures
        result is Ok,
        match result->Ok_0 {
            Some(bits) => folded_operation(module@, operation@) == Some(bits@) && bits@.len()
                == result_ty.width,
            None => folded_operation(module@, operation@) is None,
        },
{
    let ghost view = module@;
    let ghost inputs = op_inputs(operation@);
    let bits: Vec<BitVal> = match operation {
        OpKind::Extract { value, lsb, width } => {
            assert(inputs[0] == *value);
            let input = match find_constant(module, *value) {
                Some(input) => input,
                None => return Ok(None),
            };
            assert(view.value_ok(value.raw as int));
            let length: usize = input.bits.len();
            let first: usize = length - *lsb as usize - *width as usize;
            let end: usize = length - *lsb as usize;
            let mut bits: Vec<BitVal> = Vec::new();
            let mut i: usize = first;
            while i < end
                invariant
                    length == input@.len(),
                    first <= i <= end <= length,
                    bits@ == input@.subrange(first as int, i as int),
                decreases end - i,
            {
                bits.push(input.bits[i]);
                i += 1;
                assert(input@.subrange(first as int, i as int) =~= input@.subrange(
                    first as int,
                    i - 1,
                ).push(input@[i - 1]));
            }
            bits
        },
        OpKind::Cast { kind, value, target } => {
            assert(inputs[0] == *value);
            let input = match find_constant(module, *value) {
                Some(input) => input,
                None => return Ok(None),
            };
            assert(view.value_ok(value.raw as int));
            match fold_cast(input, *kind, *target) {
                Ok(bits) => bits,
                Err(error) => return Err(error),
            }
        },
        OpKind::Concat { parts } => {
            let mut bits: Vec<BitVal> = Vec::new();
            let mut i: usize = 0;
            assert(parts@.take(0) =~= seq![]);
            while i < parts.len()
                invariant
                    view == module@,
                    operation@ == (OpView::Concat { parts: parts@ }),
                    i <= parts@.len(),
                    inputs == parts@,
                    forall|k: int|
                        0 <= k < inputs.len() ==> (#[trigger] inputs[k]).raw < view.values.len(),
                    joined_parts(view, parts@.take(i as int)) == Some(bits@),
                decreases parts.len() - i,
            {
                assert(inputs[i as int].raw < view.values.len());
                assert(parts@.take(i + 1).drop_last() =~= parts@.take(i as int));
                match find_constant(module, parts[i]) {
                    Some(part) => {
                        let mut copy = copy_constant(part);
                        bits.append(&mut copy);
                    },
                    None => {
                        proof {
                            lemma_joined_none(view, parts@, i as int);
                        }
                        return Ok(None);
                    },
                }
                i += 1;
            }
            assert(parts@.take(i as int) =~= parts@);
            proof {
                lemma_joined_len(view, parts@);
            }
            bits
        },
        OpKind::Unary { op, arg } => {
            assert(inputs[0] == *arg);
            let input = match find_constant(module, *arg) {
                Some(input) => input,
                None => return Ok(None),
            };
            assert(view.value_ok(arg.raw as int));
            fold_unary(*op, input)
        },
        OpKind::Mux { cond, then_value, else_value } => {
            assert(inputs[0] == *cond && inputs[1] == *then_value && inputs[2] == *else_value);
            let select: bool = match constant_bit(module, *cond) {
                Some(select) => select,
                None => return Ok(None),
            };
            let chosen = if select {
                *then_value
            } else {
                *else_value
            };
            let selected = match find_constant(module, chosen) {
                Some(selected) => selected,
                None => return Ok(None),
            };
            assert(view.value_ok(chosen.raw as int));
            copy_constant(selected)
        },
        OpKind::Binary { .. }
        | OpKind::DynamicExtract { .. }
        | OpKind::DynamicInsert { .. }
        | OpKind::TriState { .. }
        | OpKind::Register(_)
        | OpKind::Latch(_) => return Ok(None),
    };
    Ok(Some(ConstBits { bits }))
}

proof fn lemma_joined_none(module: ModuleView, parts: Seq<ValueId>, i: int)
    requires
        0 <= i < parts.len(),
        constant_of(module, parts[i]) is None,
    ensures
        joined_parts(module, parts) is None,
    decreases parts.len(),
{
    if i < parts.len() - 1 {
        assert(parts.drop_last()[i] == parts[i]);
        lemma_joined_none(module, parts.drop_last(), i);
    }
}

proof fn lemma_joined_len(module: ModuleView, parts: Seq<ValueId>)
    requires
        module.wf(),
        forall|i: int| 0 <= i < parts.len() ==> (#[trigger] parts[i]).raw < module.values.len(),
        joined_parts(module, parts) is Some,
    ensures
        joined_parts(module, parts)->0.len() == crate::word::module::parts_width(module, parts),
    decreases parts.len(),
{
    if parts.len() > 0 {
        let below = parts.drop_last();
        assert forall|i: int| 0 <= i < below.len() implies (#[trigger] below[i]).raw
            < module.values.len() by {
            assert(below[i] == parts[i]);
        }
        lemma_joined_len(module, below);
        assert(parts[parts.len() - 1].raw < module.values.len());
        assert(module.value_ok(parts.last().raw as int));
    }
}


/// Puts a constant in the place of an operation's result.
fn replace_result(module: &mut WordModule, value: ValueId, bits: ConstBits)
    requires
        old(module)@.has(value),
    ensures
        final(module)@ == (ModuleView {
            values: old(module)@.values.update(
                value.raw as int,
                ValueView {
                    kind: KindView::Constant(bits@),
                    ..old(module)@.values[value.raw as int]
                },
            ),
            ..old(module)@
        }),
{
    let ghost before = module@;
    let place: usize = value.raw as usize;
    let ty = module.values[place].ty;
    let source = module.values[place].source;
    assert(before.values[place as int] == module.values@[place as int]@);
    let ghost held = bits@;
    let constant = Value { kind: ValueKind::Constant(bits), ty, source };
    module.values.set(place, constant);
    assert(module@.values =~= before.values.update(
        place as int,
        ValueView { kind: KindView::Constant(held), ty, source },
    ));
}

/// Which kind a value has once constants are folded up to it.
pub open spec fn folded_kind(
    before: ModuleView,
    after: ModuleView,
    permitted: Seq<bool>,
    value: int,
) -> KindView {
    match before.values[value].kind {
        KindView::Operation(operation) => if permitted[operation.raw as int] {
            match folded_operation(after, before.operations[operation.raw as int].kind) {
                Some(bits) => KindView::Constant(bits),
                None => before.values[value].kind,
            }
        } else {
            before.values[value].kind
        },
        _ => before.values[value].kind,
    }
}

/// The permitted operations on constants were replaced by what they compute.
pub open spec fn constants_folded(
    before: ModuleView,
    after: ModuleView,
    permitted: Seq<bool>,
) -> bool {
    &&& folds(before, after)
    &&& forall|v: int|
        0 <= v < before.values.len() ==> (#[trigger] after.values[v]).kind == folded_kind(
            before,
            after,
            permitted,
            v,
        )
}

/// What a value is once the permitted operations that are known to be constant
/// are replaced.
pub open spec fn known_kind(
    before: ModuleView,
    permitted: Seq<bool>,
    facts: Seq<Option<Seq<BitVal>>>,
    value: int,
) -> KindView {
    match before.values[value].kind {
        KindView::Operation(operation) => if permitted[operation.raw as int] && facts[value] is Some {
            KindView::Constant(facts[value]->0)
        } else {
            before.values[value].kind
        },
        _ => before.values[value].kind,
    }
}

/// The permitted operations that are known to be constant were replaced.
pub open spec fn knowns_folded(
    before: ModuleView,
    after: ModuleView,
    permitted: Seq<bool>,
    facts: Seq<Option<Seq<BitVal>>>,
) -> bool {
    forall|v: int|
        0 <= v < before.values.len() ==> (#[trigger] after.values[v]).kind == known_kind(
            before,
            permitted,
            facts,
            v,
        )
}

/// First the operations on constants were folded, and then those that are known to
/// be constant.
pub open spec fn folded_by(
    before: ModuleView,
    after: ModuleView,
    permitted: Seq<bool>,
    facts: Seq<Option<Seq<BitVal>>>,
) -> bool {
    &&& folds(before, after)
    &&& exists|middle: ModuleView| #[trigger]
        constants_folded(before, middle, permitted) && knowns_folded(
            middle,
            after,
            permitted,
            facts,
        )
}

proof fn lemma_folded_same(before: ModuleView, after: ModuleView, kind: OpView)
    requires
        forall|i: int|
            0 <= i < op_inputs(kind).len() ==> after.kind(#[trigger] op_inputs(kind)[i])
                == before.kind(op_inputs(kind)[i]),
    ensures
        folded_operation(after, kind) == folded_operation(before, kind),
{
    let inputs = op_inputs(kind);
    match kind {
        OpView::Extract { value, lsb, width } => {
            assert(inputs[0] == value);
        },
        OpView::Cast { kind: cast, value, target } => {
            assert(inputs[0] == value);
        },
        OpView::Concat { parts } => {
            assert(inputs == parts);
            lemma_joined_same(before, after, parts);
        },
        OpView::Unary { op, arg } => {
            assert(inputs[0] == arg);
        },
        OpView::Mux { cond, then_value, else_value } => {
            assert(inputs[0] == cond && inputs[1] == then_value && inputs[2] == else_value);
        },
        _ => {},
    }
}

proof fn lemma_joined_same(before: ModuleView, after: ModuleView, parts: Seq<ValueId>)
    requires
        forall|i: int|
            0 <= i < parts.len() ==> after.kind(#[trigger] parts[i]) == before.kind(parts[i]),
    ensures
        joined_parts(after, parts) == joined_parts(before, parts),
    decreases parts.len(),
{
    if parts.len() > 0 {
        assert(after.kind(parts[parts.len() - 1]) == before.kind(parts[parts.len() - 1]));
        assert forall|i: int| 0 <= i < parts.drop_last().len() implies after.kind(
            #[trigger] parts.drop_last()[i],
        ) == before.kind(parts.drop_last()[i]) by {
            assert(parts.drop_last()[i] == parts[i]);
        }
        lemma_joined_same(before, after, parts.drop_last());
    }
}

/// Replaces the permitted operations on constants by what they compute, in
/// order, so that one result feeds the next.
#[verifier::rlimit(60)]
pub fn fold_constants_by(module: &mut WordModule, permitted: &Vec<bool>) -> (result: Result<
    (),
    SynthError,
>)
    requires
        old(module)@.wf(),
        permitted@.len() == old(module)@.operations.len(),
    ensures
        result is Ok,
        folds(old(module)@, final(module)@),
        final(module)@.wf(),
        forall|v: int|
            0 <= v < old(module)@.values.len() ==> (#[trigger] final(module)@.values[v]).kind
                == folded_kind(old(module)@, final(module)@, permitted@, v),
{
    let ghost start = module@;
    let mut i: usize = 0;
    while i < module.values.len()
        invariant
            start == old(module)@,
            start.wf(),
            folds(start, module@),
            module@.wf(),
            permitted@.len() == start.operations.len(),
            i <= start.values.len(),
            forall|v: int|
                i <= v < start.values.len() ==> (#[trigger] module@.values[v]).kind
                    == start.values[v].kind,
            forall|v: int|
                0 <= v < i ==> (#[trigger] module@.values[v]).kind == folded_kind(
                    start,
                    module@,
                    permitted@,
                    v,
                ),
        decreases module.values.len() - i,
    {
        let ghost before = module@;
        let stored = &module.values[i];
        assert(stored@ == before.values[i as int]);
        assert(before.value_ok(i as int));
        let ty = stored.ty;
        let operation = match &stored.kind {
            ValueKind::Operation(operation) => *operation,
            _ => {
                i += 1;
                continue ;
            },
        };
        if !permitted[operation.raw as usize] {
            i += 1;
            continue ;
        }
        let kind = &module.operations[operation.raw as usize].kind;
        assert(kind@ == before.operations[operation.raw as int].kind);
        assert(before.operation_ok(operation.raw as int));
        assert(before.operations == start.operations);
        let ghost view = kind@;
        let folded = match fold_operation(module, kind, ty) {
            Ok(folded) => folded,
            Err(error) => return Err(error),
        };
        match folded {
            Some(bits) => {
                let ghost held = bits@;
                replace_result(module, ValueId { raw: i as u32 }, bits);
                proof {
                    lemma_folded_operation(start, before, i as int);
                    let after = module@;
                    assert forall|v: int| 0 <= v < start.values.len() implies {
                        &&& (#[trigger] after.values[v]).ty == start.values[v].ty
                        &&& after.values[v].source == start.values[v].source
                        &&& after.values[v].kind == start.values[v].kind || (
                        start.values[v].kind is Operation && after.values[v].kind is Constant
                            && after.values[v].kind->Constant_0.len() == start.values[v].ty.width
                            && stands_for(start, v, after.values[v].kind->Constant_0))
                    } by {
                        assert(before.values[v].ty == start.values[v].ty);
                    }
                    assert(folds(start, after));
                    lemma_folds_wf(start, after);
                    assert forall|v: int| 0 <= v < i + 1 implies (#[trigger] after.values[v]).kind
                        == folded_kind(start, after, permitted@, v) by {
                        lemma_kind_below(start, before, after, permitted@, v, i as int);
                        if v < i {
                            assert(before.values[v].kind == folded_kind(
                                start,
                                before,
                                permitted@,
                                v,
                            ));
                        }
                    }
                }
            },
            None => {},
        }
        i += 1;
    }
    Ok(())
}

/// The kind of a value depends on the values before it.
proof fn lemma_kind_below(
    start: ModuleView,
    before: ModuleView,
    after: ModuleView,
    permitted: Seq<bool>,
    value: int,
    bound: int,
)
    requires
        start.wf(),
        0 <= value <= bound < start.values.len(),
        forall|v: int|
            0 <= v < bound ==> (#[trigger] after.values[v]).kind == before.values[v].kind,
    ensures
        folded_kind(start, after, permitted, value) == folded_kind(
            start,
            before,
            permitted,
            value,
        ),
{
    assert(start.value_ok(value));
    if let KindView::Operation(operation) = start.values[value].kind {
        assert(start.operation_ok(operation.raw as int));
        let kind = start.operations[operation.raw as int].kind;
        assert forall|i: int| 0 <= i < op_inputs(kind).len() implies after.kind(
            #[trigger] op_inputs(kind)[i],
        ) == before.kind(op_inputs(kind)[i]) by {
            assert(op_inputs(kind)[i].raw < value);
            assert(after.values[op_inputs(kind)[i].raw as int].kind
                == before.values[op_inputs(kind)[i].raw as int].kind);
        }
        lemma_folded_same(before, after, kind);
    }
}

/// What an analysis found for each value.
pub open spec fn facts_agree(module: ModuleView, facts: Seq<Option<Seq<BitVal>>>) -> bool {
    &&& facts.len() == module.values.len()
    &&& forall|v: int|
        0 <= v < facts.len() && (#[trigger] facts[v]) is Some ==> facts[v]->0.len()
            == module.values[v].ty.width && stands_for(module, v, facts[v]->0)
}

/// Replaces the permitted operations that an analysis found constant.
#[verifier::rlimit(40)]
pub(crate) fn fold_known_values_by(
    module: &mut WordModule,
    permitted: &Vec<bool>,
    facts: &Vec<Option<ConstBits>>,
    Ghost(start): Ghost<ModuleView>,
)
    requires
        start.wf(),
        folds(start, old(module)@),
        permitted@.len() == start.operations.len(),
        facts_agree(start, crate::planning::fsm::transition::facts_view(facts@)),
    ensures
        folds(start, final(module)@),
        final(module)@.wf(),
        forall|v: int|
            0 <= v < start.values.len() ==> (#[trigger] final(module)@.values[v]).kind == (
            match old(module)@.values[v].kind {
                KindView::Operation(operation) => if permitted@[operation.raw as int]
                    && facts@[v] is Some {
                    KindView::Constant(facts@[v]->0@)
                } else {
                    old(module)@.values[v].kind
                },
                _ => old(module)@.values[v].kind,
            }),
{
    let ghost first = module@;
    let ghost known = crate::planning::fsm::transition::facts_view(facts@);
    proof {
        lemma_folds_wf(start, first);
    }
    let mut i: usize = 0;
    let count: usize = module.values.len();
    while i < count
        invariant
            count == start.values.len(),
            first == old(module)@,
            start.wf(),
            folds(start, first),
            folds(start, module@),
            known == crate::planning::fsm::transition::facts_view(facts@),
            facts_agree(start, known),
            permitted@.len() == start.operations.len(),
            i <= start.values.len(),
            forall|v: int|
                i <= v < start.values.len() ==> #[trigger] module@.values[v] == first.values[v],
            forall|v: int|
                0 <= v < i ==> (#[trigger] module@.values[v]).kind == (match first.values[v].kind {
                    KindView::Operation(operation) => if permitted@[operation.raw as int]
                        && facts@[v] is Some {
                        KindView::Constant(facts@[v]->0@)
                    } else {
                        first.values[v].kind
                    },
                    _ => first.values[v].kind,
                }),
        decreases count - i,
    {
        let ghost before = module@;
        let stored = &module.values[i];
        assert(stored@ == before.values[i as int]);
        assert(before.values[i as int] == first.values[i as int]);
        assert(start.value_ok(i as int));
        if let ValueKind::Operation(operation) = &stored.kind {
            assert(start.values[i as int].kind == before.values[i as int].kind);
            if permitted[operation.raw as usize] {
                if let Some(bits) = &facts[i] {
                    assert(known[i as int] == Some(bits@));
                    let copy = bits.duplicate();
                    let ghost held = copy@;
                    replace_result(module, ValueId { raw: i as u32 }, copy);
                    proof {
                        let after = module@;
                        assert forall|v: int| 0 <= v < start.values.len() implies {
                            &&& (#[trigger] after.values[v]).ty == start.values[v].ty
                            &&& after.values[v].source == start.values[v].source
                            &&& after.values[v].kind == start.values[v].kind || (
                            start.values[v].kind is Operation && after.values[v].kind is Constant
                                && after.values[v].kind->Constant_0.len()
                                == start.values[v].ty.width && stands_for(
                                start,
                                v,
                                after.values[v].kind->Constant_0,
                            ))
                        } by {
                            assert(before.values[v].ty == start.values[v].ty);
                        }
                    }
                }
            }
        }
        i += 1;
    }
    proof {
        lemma_folds_wf(start, module@);
    }
}

} // verus!
