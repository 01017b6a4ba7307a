//! Appending operations whose meaning is stated in words.

use super::module::{
    binary_type, concat_type, joined_type, parts_width, slice_of, unary_type, KindView, ModuleView, WordModule,
};
use super::numbers::{all_known, known_word};
use super::semantics::{
    binary_bits, cast_bits, concat_bits, constant_value, eval, extract_bits, lemma_eval_grows,
    lemma_eval_pushed, unary_bits, word_of, Env,
};
use super::types::{
    bit_lsb, op_inputs, BinaryOp, BitVal, CastKind, ConstBits, OpView, RegisterOp, SignalId,
    SourceSpan, UnaryOp, ValueId, WordType,
};
use crate::error::{Resource, SynthError};
use vstd::prelude::*;

verus! {

/// Values were appended, and what was there means the same.
pub open spec fn stable(before: ModuleView, after: ModuleView) -> bool {
    &&& before.wf()
    &&& after.wf()
    &&& before.grows_to(after)
    &&& forall|env: Env, v: ValueId|
        before.has(v) ==> #[trigger] word_of(after, env, v) == word_of(before, env, v)
}

pub proof fn lemma_stable(before: ModuleView, after: ModuleView)
    requires
        before.wf(),
        after.wf(),
        before.grows_to(after),
    ensures
        stable(before, after),
{
    assert forall|env: Env, v: ValueId| before.has(v) implies #[trigger] word_of(after, env, v)
        == word_of(before, env, v) by {
        lemma_eval_grows(before, after, env, v.raw as int);
    }
}

pub proof fn lemma_stable_trans(first: ModuleView, second: ModuleView, third: ModuleView)
    requires
        stable(first, second),
        stable(second, third),
    ensures
        stable(first, third),
{
    lemma_stable(first, third);
}

/// An appending step stopped because no identifier was left.
pub open spec fn ran_out(after: ModuleView, error: SynthError) -> bool {
    error == SynthError::Capacity(Resource::Values) && after.full()
}

/// A module has no identifier left for what was to be made.
pub open spec fn exhausted(module: ModuleView, error: SynthError) -> bool {
    &&& error is Capacity
    &&& module.full() || module.signals.len() >= u32::MAX || module.names.len() >= u32::MAX
        || module.ports.len() >= u32::MAX || module.memories.len() >= u32::MAX
}

/// A new value of a type.
pub open spec fn made(before: ModuleView, after: ModuleView, value: ValueId, ty: WordType) -> bool {
    &&& value == before.next_value()
    &&& before.values.len() < u32::MAX
    &&& after.values.len() == before.values.len() + 1
    &&& after.operations.len() <= before.operations.len() + 1
    &&& after.has(value)
    &&& after.ty(value) == ty
}

/// The word of a constant that was just appended.
proof fn lemma_constant_word(before: ModuleView, after: ModuleView, bits: Seq<BitVal>, ty: WordType, source: SourceSpan)
    requires
        before.wf(),
        before.values.len() < u32::MAX,
        after == before.push_leaf(KindView::Constant(bits), ty, source),
        all_known(bits),
    ensures
        forall|env: Env| #[trigger] word_of(after, env, before.next_value()) == known_word(bits),
{
    assert forall|env: Env| #[trigger] word_of(after, env, before.next_value()) == known_word(
        bits,
    ) by {
        let value = before.values.len() as int;
        assert(after.values[value].kind == KindView::Constant(bits));
        assert(eval(after, env, value) == constant_value(bits, env, value));
        assert(constant_value(bits, env, value) =~= known_word(bits)) by {
            assert forall|i: int| 0 <= i < bits.len() implies constant_value(bits, env, value)[i]
                == known_word(bits)[i] by {
                assert(bit_lsb(bits, i) == bits[bits.len() - 1 - i]);
            }
        }
    }
}

/// A concatenation of parts has bits.
proof fn lemma_parts_positive(module: ModuleView, parts: Seq<ValueId>)
    requires
        module.wf(),
        parts.len() > 0,
        forall|i: int| 0 <= i < parts.len() ==> module.has(#[trigger] parts[i]),
    ensures
        parts_width(module, parts) >= 1,
{
    assert(module.has(parts[parts.len() - 1]));
    assert(module.value_ok(parts.last().raw as int));
}

/// The word of a known constant.
pub proof fn lemma_constant_at(module: ModuleView, env: Env, value: ValueId)
    requires
        module.has(value),
        module.kind(value) is Constant,
        all_known(module.kind(value)->Constant_0),
    ensures
        word_of(module, env, value) == known_word(module.kind(value)->Constant_0),
{
    let bits = module.kind(value)->Constant_0;
    let at = value.raw as int;
    assert(eval(module, env, at) == constant_value(bits, env, at));
    assert forall|i: int| 0 <= i < bits.len() implies constant_value(bits, env, at)[i]
        == known_word(bits)[i] by {
        assert(bit_lsb(bits, i) == bits[bits.len() - 1 - i]);
        assert(bits[bits.len() - 1 - i].known());
    }
    assert(constant_value(bits, env, at) =~= known_word(bits));
}

impl WordModule {
    /// Appends a known constant.
    pub fn emit_constant(&mut self, bits: ConstBits, ty: WordType, source: SourceSpan) -> (result:
        Result<ValueId, SynthError>)
        requires
            old(self)@.wf(),
            bits@.len() == ty.width,
            ty.width >= 1,
        ensures
            stable(old(self)@, final(self)@),
            final(self)@.operations == old(self)@.operations,
            result matches Ok(value) ==> made(old(self)@, final(self)@, value, ty) && (all_known(
                bits@,
            ) ==> forall|env: Env| #[trigger]
                word_of(final(self)@, env, value) == known_word(bits@)),
            result is Err ==> final(self)@ == old(self)@,
            result matches Err(error) ==> ran_out(final(self)@, error),
    {
        let ghost before = self@;
        let ghost held = bits@;
        let result = self.constant(bits, ty, source);
        proof {
            lemma_stable(before, self@);
            if result is Ok && all_known(held) {
                lemma_constant_word(before, self@, held, ty, source);
            }
        }
        result
    }

    /// Appends a read of a whole signal.
    pub fn emit_read(&mut self, signal: SignalId, source: SourceSpan) -> (result: Result<
        ValueId,
        SynthError,
    >)
        requires
            old(self)@.wf(),
            signal.raw < old(self)@.signals.len(),
        ensures
            stable(old(self)@, final(self)@),
            result matches Ok(value) ==> made(
                old(self)@,
                final(self)@,
                value,
                old(self)@.signals[signal.raw as int].ty,
            ) && forall|env: Env| #[trigger]
                word_of(final(self)@, env, value) == Seq::new(
                    old(self)@.signals[signal.raw as int].ty.width as nat,
                    |i: int| (env.signal)(signal.raw as int, i),
                ),
            result matches Err(error) ==> ran_out(final(self)@, error),
    {
        let ghost before = self@;
        let result = self.read_signal(signal, source);
        proof {
            lemma_stable(before, self@);
            if result is Ok {
                let value = result->Ok_0;
                let width = before.signals[signal.raw as int].ty.width;
                assert forall|env: Env| #[trigger] word_of(self@, env, value) == Seq::new(
                    width as nat,
                    |i: int| (env.signal)(signal.raw as int, i),
                ) by {
                    assert(eval(self@, env, value.raw as int) =~= Seq::new(
                        width as nat,
                        |i: int| (env.signal)(signal.raw as int, i),
                    ));
                }
            }
        }
        result
    }

    /// Appends a unary operation.
    pub fn emit_unary(&mut self, op: UnaryOp, arg: ValueId, source: SourceSpan) -> (result: Result<
        ValueId,
        SynthError,
    >)
        requires
            old(self)@.wf(),
            old(self)@.has(arg),
        ensures
            stable(old(self)@, final(self)@),
            result matches Ok(value) ==> made(
                old(self)@,
                final(self)@,
                value,
                unary_type(op, old(self)@.ty(arg)),
            ) && final(self)@.op_of(value) == Some(
                OpView::Unary { op, arg },
            ) && forall|env: Env| #[trigger]
                word_of(final(self)@, env, value) == unary_bits(op, word_of(old(self)@, env, arg)),
            result is Err ==> final(self)@ == old(self)@,
            result matches Err(error) ==> ran_out(final(self)@, error),
    {
        let ghost before = self@;
        let ghost kind = OpView::Unary { op, arg };
        let ghost ty = unary_type(op, before.ty(arg));
        assert(before.value_ok(arg.raw as int));
        assert(before.inputs_below(kind, before.values.len() as int)) by {
            assert(op_inputs(kind) =~= seq![arg]);
        }
        let result = self.unary(op, arg, source);
        proof {
            lemma_stable(before, self@);
            if result is Ok {
                assert forall|env: Env| #[trigger]
                    word_of(self@, env, result->Ok_0) == unary_bits(op, word_of(before, env, arg)) by {
                    lemma_eval_pushed(before, env, kind, ty, source);
                }
            }
        }
        result
    }

    /// Appends a binary operation.
    pub fn emit_binary(
        &mut self,
        op: BinaryOp,
        left: ValueId,
        right: ValueId,
        source: SourceSpan,
    ) -> (result: Result<ValueId, SynthError>)
        requires
            old(self)@.wf(),
            old(self)@.has(left),
            old(self)@.has(right),
        ensures
            stable(old(self)@, final(self)@),
            result matches Ok(value) ==> {
                let ty = binary_type(op, old(self)@.ty(left), old(self)@.ty(right));
                made(old(self)@, final(self)@, value, ty) && final(self)@.op_of(value) == Some(
                    OpView::Binary { op, left, right },
                ) && forall|env: Env| #[trigger]
                    word_of(final(self)@, env, value) == binary_bits(
                        op,
                        word_of(old(self)@, env, left),
                        old(self)@.ty(left),
                        word_of(old(self)@, env, right),
                        old(self)@.ty(right),
                        ty,
                    )
            },
            result is Err ==> final(self)@ == old(self)@,
            result matches Err(error) ==> ran_out(final(self)@, error),
    {
        let ghost before = self@;
        let ghost kind = OpView::Binary { op, left, right };
        let ghost ty = binary_type(op, before.ty(left), before.ty(right));
        assert(before.value_ok(left.raw as int) && before.value_ok(right.raw as int));
        assert(before.inputs_below(kind, before.values.len() as int)) by {
            assert(op_inputs(kind) =~= seq![left, right]);
        }
        let result = self.binary(op, left, right, source);
        proof {
            lemma_stable(before, self@);
            if result is Ok {
                assert forall|env: Env| #[trigger]
                    word_of(self@, env, result->Ok_0) == binary_bits(
                        op,
                        word_of(before, env, left),
                        before.ty(left),
                        word_of(before, env, right),
                        before.ty(right),
                        ty,
                    ) by {
                    lemma_eval_pushed(before, env, kind, ty, source);
                }
            }
        }
        result
    }

    /// Appends a selection.
    pub fn emit_mux(
        &mut self,
        cond: ValueId,
        then_value: ValueId,
        else_value: ValueId,
        source: SourceSpan,
    ) -> (result: Result<ValueId, SynthError>)
        requires
            old(self)@.wf(),
            old(self)@.has(cond),
            old(self)@.has(then_value),
            old(self)@.has(else_value),
            old(self)@.ty(cond).width == 1,
            old(self)@.ty(then_value).width == old(self)@.ty(else_value).width,
        ensures
            stable(old(self)@, final(self)@),
            result matches Ok(value) ==> made(
                old(self)@,
                final(self)@,
                value,
                joined_type(old(self)@.ty(then_value), old(self)@.ty(else_value)),
            ) && final(self)@.op_of(value) == Some(
                OpView::Mux { cond, then_value, else_value },
            ) && forall|env: Env| #[trigger]
                word_of(final(self)@, env, value) == (if word_of(old(self)@, env, cond)[0] {
                    word_of(old(self)@, env, then_value)
                } else {
                    word_of(old(self)@, env, else_value)
                }),
            result is Err ==> final(self)@ == old(self)@,
            result matches Err(error) ==> ran_out(final(self)@, error),
    {
        let ghost before = self@;
        let ghost kind = OpView::Mux { cond, then_value, else_value };
        let ghost ty = joined_type(before.ty(then_value), before.ty(else_value));
        assert(before.value_ok(then_value.raw as int));
        assert(before.inputs_below(kind, before.values.len() as int)) by {
            assert(op_inputs(kind) =~= seq![cond, then_value, else_value]);
        }
        let result = self.mux(cond, then_value, else_value, source);
        proof {
            lemma_stable(before, self@);
            if result is Ok {
                assert forall|env: Env| #[trigger] word_of(self@, env, result->Ok_0) == (
                if word_of(before, env, cond)[0] {
                    word_of(before, env, then_value)
                } else {
                    word_of(before, env, else_value)
                }) by {
                    lemma_eval_pushed(before, env, kind, ty, source);
                }
            }
        }
        result
    }

    /// Appends a fixed run of a word's bits.
    pub fn emit_extract(&mut self, value: ValueId, lsb: u32, width: u32, source: SourceSpan)
        -> (result: Result<ValueId, SynthError>)
        requires
            old(self)@.wf(),
            old(self)@.has(value),
            width >= 1,
            lsb + width <= old(self)@.ty(value).width,
        ensures
            stable(old(self)@, final(self)@),
            result matches Ok(part) ==> made(
                old(self)@,
                final(self)@,
                part,
                slice_of(old(self)@.ty(value), width),
            ) && final(self)@.op_of(part) == Some(
                OpView::Extract { value, lsb, width },
            ) && forall|env: Env| #[trigger]
                word_of(final(self)@, env, part) == extract_bits(
                    word_of(old(self)@, env, value),
                    lsb as int,
                    width as nat,
                ),
            result is Err ==> final(self)@ == old(self)@,
            result matches Err(error) ==> ran_out(final(self)@, error),
    {
        let ghost before = self@;
        let ghost kind = OpView::Extract { value, lsb, width };
        let ghost ty = slice_of(before.ty(value), width);
        assert(before.inputs_below(kind, before.values.len() as int)) by {
            assert(op_inputs(kind) =~= seq![value]);
        }
        let result = self.extract(value, lsb, width, source);
        proof {
            lemma_stable(before, self@);
            if result is Ok {
                assert forall|env: Env| #[trigger]
                    word_of(self@, env, result->Ok_0) == extract_bits(
                        word_of(before, env, value),
                        lsb as int,
                        width as nat,
                    ) by {
                    lemma_eval_pushed(before, env, kind, ty, source);
                }
            }
        }
        result
    }

    /// Appends a concatenation; the first part is the most significant.
    pub fn emit_concat(&mut self, parts: Vec<ValueId>, source: SourceSpan) -> (result: Result<
        ValueId,
        SynthError,
    >)
        requires
            old(self)@.wf(),
            parts@.len() > 0,
            forall|i: int| 0 <= i < parts@.len() ==> old(self)@.has(#[trigger] parts@[i]),
            parts_width(old(self)@, parts@) <= u32::MAX,
        ensures
            stable(old(self)@, final(self)@),
            result matches Ok(value) ==> made(
                old(self)@,
                final(self)@,
                value,
                concat_type(old(self)@, parts@),
            ) && final(self)@.op_of(value) == Some(
                OpView::Concat { parts: parts@ },
            ) && forall|env: Env| #[trigger]
                word_of(final(self)@, env, value) == concat_bits(
                    Seq::new(parts@.len(), |i: int| word_of(old(self)@, env, parts@[i])),
                ),
            result is Err ==> final(self)@ == old(self)@,
            result matches Err(error) ==> ran_out(final(self)@, error),
    {
        let ghost before = self@;
        let ghost held = parts@;
        let ghost kind = OpView::Concat { parts: held };
        let ghost ty = concat_type(before, held);
        proof {
            assert(op_inputs(kind) =~= held);
            lemma_parts_positive(before, held);
        }
        let result = self.concat(parts, source);
        proof {
            lemma_stable(before, self@);
            if result is Ok {
                assert forall|env: Env| #[trigger]
                    word_of(self@, env, result->Ok_0) == concat_bits(
                        Seq::new(held.len(), |i: int| word_of(before, env, held[i])),
                    ) by {
                    lemma_eval_pushed(before, env, kind, ty, source);
                    let operand = |operand: ValueId| word_of(before, env, operand);
                    assert(Seq::new(held.len(), |i: int| operand(held[i])) =~= Seq::new(
                        held.len(),
                        |i: int| word_of(before, env, held[i]),
                    ));
                }
            }
        }
        result
    }

    /// Appends a change of type.
    pub fn emit_cast(&mut self, kind: CastKind, value: ValueId, target: WordType, source: SourceSpan)
        -> (result: Result<ValueId, SynthError>)
        requires
            old(self)@.wf(),
            old(self)@.has(value),
            target.width >= 1,
            if kind is Truncate {
                target.width <= old(self)@.ty(value).width
            } else {
                target.width >= old(self)@.ty(value).width
            },
        ensures
            stable(old(self)@, final(self)@),
            result matches Ok(changed) ==> made(old(self)@, final(self)@, changed, target)
                && final(self)@.op_of(changed) == Some(OpView::Cast { kind, value, target })
                && forall|env: Env| #[trigger]
                word_of(final(self)@, env, changed) == cast_bits(
                    kind,
                    word_of(old(self)@, env, value),
                    target,
                ),
            result is Err ==> final(self)@ == old(self)@,
            result matches Err(error) ==> ran_out(final(self)@, error),
    {
        let ghost before = self@;
        let ghost view = OpView::Cast { kind, value, target };
        assert(before.inputs_below(view, before.values.len() as int)) by {
            assert(op_inputs(view) =~= seq![value]);
        }
        let result = self.cast(kind, value, target, source);
        proof {
            lemma_stable(before, self@);
            if result is Ok {
                assert forall|env: Env| #[trigger]
                    word_of(self@, env, result->Ok_0) == cast_bits(
                        kind,
                        word_of(before, env, value),
                        target,
                    ) by {
                    lemma_eval_pushed(before, env, view, target, source);
                }
            }
        }
        result
    }

    /// Appends a register.
    pub fn emit_register(&mut self, register: RegisterOp, source: SourceSpan) -> (result: Result<
        ValueId,
        SynthError,
    >)
        requires
            old(self)@.wf(),
            old(self)@.inputs_below(OpView::Register(register@), old(self)@.values.len() as int),
            old(self)@.op_typed(OpView::Register(register@), old(self)@.ty(register.d)),
        ensures
            stable(old(self)@, final(self)@),
            result matches Ok(value) ==> made(
                old(self)@,
                final(self)@,
                value,
                old(self)@.ty(register.d),
            ) && final(self)@.op_of(value) == Some(OpView::Register(register@)),
            result matches Err(error) ==> ran_out(final(self)@, error),
    {
        let ghost before = self@;
        let ghost held = register@;
        let ghost kind = OpView::Register(held);
        proof {
            assert(op_inputs(kind)[0] == register.d);
            assert(before.has(register.d));
            assert(before.value_ok(register.d.raw as int));
        }
        let result = self.register(register, source);
        proof {
            lemma_stable(before, self@);
        }
        result
    }
}

} // verus!
