//! The pieces that a region is put together from: single bits, assembled words
//! and values at the border.

use super::failure::exhausted;
use super::following::{boundary_value, joins_at, retyped, retypes};
use super::interface::{
    lemma_interface_grows, lemma_operation_bound, lemma_signal_bound, reads_run, recasts,
    Interface,
};
use super::importer::{
    agrees, bit_agrees, bound_once, lemma_bound, unbound, leaf_ok, leaves_ok, lemma_memory_step, lemma_signals_typed,
    lemma_step_linked, lemma_step_trans, linked, rows_ascend, rows_reached, signals_typed, stands_for, step,
    Import, RegionalWordImporter,
};
use super::tracing::{
    carried_as, lemma_appended, lemma_made_for_operation, lemma_made_together, lemma_traced_made,
};
use super::transfer::lemma_concat_single_bits;
use crate::error::{Invariant, SynthError};
use crate::word::bits::any_bit;
use crate::word::module::{KindView, PortDirection, SignalRef, ValueKind};
use crate::word::names::numbered_name;
use crate::word::numbers::{all_known, known_word};
use crate::word::semantics::{
    binary_bits, cast_bits, concat_bits, lemma_eval_width, resize_bits, unary_bits, word_of, Env,
};
use crate::word::types::{
    BinaryOp, BitVal, CastKind, ConstBits, LogicStateKind, OpId, OpView, SignalId, SourceSpan,
    UnaryOp, ValueId, WordType,
};
use vstd::prelude::*;

verus! {

proof fn lemma_leaves_step(x: Import, y: Import)
    requires
        step(x, y),
        leaves_ok(x),
        y.leaves == x.leaves,
    ensures
        leaves_ok(y),
{
    assert forall|i: int| 0 <= i < y.leaves.len() implies #[trigger] leaf_ok(y, i) by {
        assert(leaf_ok(x, i));
        let local = x.leaves[i].1;
        assert(y.module.values[local.raw as int] == x.module.values[local.raw as int]);
    }
}

/// Two states differ in what was made only.
pub open spec fn only_made(before: &RegionalWordImporter, after: &RegionalWordImporter) -> bool {
    &&& after.source_to_local@ == before.source_to_local@
    &&& after.cache@ == before.cache@
    &&& after.leaves@ == before.leaves@
    &&& after.acyclic == before.acyclic
    &&& before.same_frame(after)
    &&& after.boundary_port_signals@ == before.boundary_port_signals@
    &&& after.module@.memories == before.module@.memories
    &&& after.module@.memory_reads == before.module@.memory_reads
    &&& after.module@.memory_writes == before.module@.memory_writes
}

/// Values that were appended leave the state and its border in order.
pub proof fn lemma_made(before: &RegionalWordImporter, after: &RegionalWordImporter)
    requires
        before.inv(),
        only_made(before, after),
        before.module@.widens_to(after.module@),
        after.module@.wf(),
        after.module@.ports == before.module@.ports,
        after.module@.connects == before.module@.connects,
        after.boundary_bindings@ == before.boundary_bindings@,
        after.operation_sources@.len() == after.module@.operations.len(),
        rows_ascend(after.operation_sources@),
        rows_reached(after.graph(), after.operation_sources@),
        before.adds_suited(after),
    ensures
        before.went_on(after),
{
    lemma_made_inside(before, after);
    lemma_interface_grows(before.interface(), after.interface());
}

/// Values and ports that were appended leave a state in order.
proof fn lemma_made_inside(before: &RegionalWordImporter, after: &RegionalWordImporter)
    requires
        before.in_order(),
        only_made(before, after),
        before.module@.widens_to(after.module@),
        after.module@.wf(),
        after.boundary_bindings@ == before.boundary_bindings@,
        after.operation_sources@.len() == after.module@.operations.len(),
        rows_ascend(after.operation_sources@),
        rows_reached(after.graph(), after.operation_sources@),
        before.adds_suited(after),
    ensures
        before.moved_on(after),
{
    let x = before.x();
    let y = after.x();
    assert(step(x, y));
    assert(after.graph() == before.graph());
    lemma_traced_made(before, after);
    lemma_leaves_step(x, y);
    lemma_memory_step(x, y, before.source_to_local@, before.cache@);
    lemma_signals_typed(
        before.source@,
        before.module@,
        after.module@,
        before.memory_signals@,
    );
    lemma_signals_typed(
        before.source@,
        before.module@,
        after.module@,
        before.boundary_port_signals@,
    );
    assert forall|i: int| 0 <= i < after.leaves@.len() implies after.border(
        (#[trigger] after.leaves@[i]).0,
    ) by {
        assert(before.border(before.leaves@[i].0));
    }
}

pub open spec fn bit_op(op: BinaryOp, left: bool, right: bool) -> bool {
    match op {
        BinaryOp::BitAnd => left && right,
        BinaryOp::LogicalAnd => left && right,
        BinaryOp::BitOr => left || right,
        BinaryOp::LogicalOr => left || right,
        _ => left != right,
    }
}

pub open spec fn is_bit_op(op: BinaryOp) -> bool {
    op is BitAnd || op is BitOr || op is BitXor || op is LogicalAnd || op is LogicalOr
}

proof fn lemma_bit_binary(op: BinaryOp, a: bool, b: bool, s: WordType, t: WordType, ty: WordType)
    requires
        is_bit_op(op),
        ty.width == 1,
        s.width == 1,
        t.width == 1,
    ensures
        binary_bits(op, seq![a], s, seq![b], t, ty) == seq![bit_op(op, a, b)],
{
    let l = seq![a];
    let r = seq![b];
    assert(resize_bits(l, s, ty) =~= l);
    assert(resize_bits(r, t, ty) =~= r);
    assert(any_bit(l) == a) by {
        assert(l[0] == a);
    }
    assert(any_bit(r) == b) by {
        assert(r[0] == b);
    }
    assert(binary_bits(op, l, s, r, t, ty) =~= seq![bit_op(op, a, b)]);
}

/// The bit of a value of the source.
pub open spec fn bit_fn(source: crate::word::module::ModuleView, value: ValueId, bit: int) -> spec_fn(
    Env,
) -> bool {
    |env: Env| word_of(source, env, value)[bit]
}

pub proof fn lemma_bit_stands(x: Import, value: ValueId, bit: int, local: ValueId)
    requires
        x.source.has(value),
        0 <= bit < x.source.ty(value).width,
    ensures
        bit_agrees(x, value, bit, local) == stands_for(x, local, bit_fn(x.source, value, bit)),
{
    let f = bit_fn(x.source, value, bit);
    assert forall|outer: Env| word_of(x.source, outer, value)[bit] == #[trigger] f(outer) by {}
    if stands_for(x, local, f) {
        assert forall|outer: Env, inner: Env| #[trigger] linked(x, outer, inner) implies word_of(
            x.module,
            inner,
            local,
        ) == seq![word_of(x.source, outer, value)[bit]] by {
            assert(f(outer) == word_of(x.source, outer, value)[bit]);
        }
    }
}

/// A read at the border is of the same bits as a value, and its local value has the
/// type of the value.
pub open spec fn shares_read(importer: &RegionalWordImporter, value: ValueId, i: int) -> bool {
    let (other, local) = importer.boundary_bindings@[i];
    &&& 0 <= i < importer.boundary_bindings@.len()
    &&& importer.source@.has(other)
    &&& importer.module@.has(local)
    &&& importer.source@.kind(value) is Signal
    &&& importer.source@.kind(other) == importer.source@.kind(value)
    &&& importer.module@.ty(local) == importer.source@.ty(value)
}

/// The value that is being carried over was listed.
proof fn lemma_listed(
    start: &RegionalWordImporter,
    after: &RegionalWordImporter,
    value: ValueId,
    local: ValueId,
)
    requires
        start.in_order(),
        unbound(start.boundary_bindings@, value),
        start.source@.has(value),
        boundary_value(start.graph(), value),
        start.visiting@[value.raw as int],
        start.source_to_local@[value.raw as int] is None,
        start.same_frame(after),
        after.source_to_local@ == start.source_to_local@,
        after.boundary_bindings@ == start.boundary_bindings@.push((value, local)),
    ensures
        bound_once(
            after.graph(),
            after.source_to_local@,
            after.visiting@,
            after.boundary_bindings@,
        ),
{
    assert(after.graph() == start.graph());
    lemma_bound(
        start.graph(),
        start.source_to_local@,
        start.visiting@,
        start.boundary_bindings@,
        value,
        local,
    );
}

/// A read shares the border with an equal one.
proof fn lemma_shared(
    start: &RegionalWordImporter,
    after: &RegionalWordImporter,
    value: ValueId,
    local: ValueId,
)
    requires
        start.inv(),
        start.source@.has(value),
        start.source@.kind(value) is Signal,
        exists|i: int| #[trigger]
            shares_read(start, value, i) && local == start.boundary_bindings@[i].1,
        after.interface() == (Interface {
            leaves: start.leaves@.push((value, local)),
            bindings: start.boundary_bindings@.push((value, local)),
            ..start.interface()
        }),
    ensures
        after.interface().sound(),
{
    let i = choose|i: int| #[trigger]
        shares_read(start, value, i) && local == start.boundary_bindings@[i].1;
    let reference = start.source@.kind(value)->Signal_0;
    let border = start.interface();
    reveal(Interface::sound);
    assert(border.binding_ok(i));
    assert(start.source@.value_ok(value.raw as int));
    let s = reference.signal.raw as int;
    assert(after.interface().inlets =~= border.inlets.update(s, border.inlets[s]));
    lemma_signal_bound(border, after.interface(), value, local, reference, border.inlets[s]->0);
}

impl<'a> RegionalWordImporter<'a> {
    /// A constant bit.
    pub fn constant_bit(&mut self, value: bool, span: SourceSpan) -> (result: Result<
        ValueId,
        SynthError,
    >)
        requires
            old(self).inv(),
        ensures
            old(self).uses(final(self), 2),
            result matches Ok(local) ==> old(self).went_on(final(self)) && stands_for(
                final(self).x(),
                local,
                |env: Env| value,
            ),
            result matches Err(error) ==> exhausted(final(self).module@, error),
    {
        let ghost before = *self;
        let bit: BitVal = if value {
            BitVal::One
        } else {
            BitVal::Zero
        };
        let bits = ConstBits { bits: vec![bit] };
        let ty = WordType { width: 1, signed: false, state: LogicStateKind::TwoState };
        let ghost held = bits@;
        let local = match self.module.emit_constant(bits, ty, span) {
            Ok(local) => local,
            Err(error) => return Err(error),
        };
        proof {
            lemma_made(&before, self);
            assert(all_known(held));
            assert(known_word(held) =~= seq![value]);
        }
        Ok(local)
    }

    /// The complement of a bit.
    pub fn put_not(
        &mut self,
        op: UnaryOp,
        arg: ValueId,
        span: SourceSpan,
        Ghost(f): Ghost<spec_fn(Env) -> bool>,
        Ghost(operation): Ghost<OpId>,
    ) -> (result: Result<ValueId, SynthError>)
        requires
            old(self).inv(),
            old(self).in_region(operation),
            old(self).operands_within(operation),
            carried_as(
                old(self).source@.operations[operation.raw as int].kind,
                OpView::Unary { op, arg },
            ),
            op is BitNot || op is LogicalNot,
            stands_for(old(self).x(), arg, f),
        ensures
            old(self).uses(final(self), 2),
            result matches Ok(local) ==> old(self).went_on(final(self)) && stands_for(
                final(self).x(),
                local,
                |env: Env| !f(env),
            ),
            result matches Err(error) ==> exhausted(final(self).module@, error),
    {
        let ghost before = *self;
        let local = match self.module.emit_unary(op, arg, span) {
            Ok(local) => local,
            Err(error) => return Err(error),
        };
        self.note();
        proof {
            lemma_made_for_operation(
                &before,
                self,
                local,
                self.module@.ty(local),
                OpView::Unary { op, arg },
                operation,
            );
            lemma_made(&before, self);
            let x = before.x();
            let y = self.x();
            lemma_step_linked(x, y);
            assert forall|outer: Env, inner: Env| #[trigger] linked(y, outer, inner) implies word_of(
                y.module,
                inner,
                local,
            ) == seq![!f(outer)] by {
                assert(linked(x, outer, inner));
                let word = word_of(x.module, inner, arg);
                assert(word == seq![f(outer)]);
                assert(any_bit(word) == f(outer)) by {
                    assert(word[0] == f(outer));
                }
                assert(unary_bits(op, word) =~= seq![!f(outer)]);
            }
        }
        Ok(local)
    }

    /// Two bits put together.
    pub fn put_binary(
        &mut self,
        op: BinaryOp,
        left: ValueId,
        right: ValueId,
        span: SourceSpan,
        Ghost(f): Ghost<spec_fn(Env) -> bool>,
        Ghost(g): Ghost<spec_fn(Env) -> bool>,
        Ghost(operation): Ghost<OpId>,
    ) -> (result: Result<ValueId, SynthError>)
        requires
            old(self).inv(),
            old(self).in_region(operation),
            old(self).operands_within(operation),
            carried_as(
                old(self).source@.operations[operation.raw as int].kind,
                OpView::Binary { op, left, right },
            ),
            is_bit_op(op),
            stands_for(old(self).x(), left, f),
            stands_for(old(self).x(), right, g),
        ensures
            old(self).uses(final(self), 2),
            result matches Ok(local) ==> old(self).went_on(final(self)) && stands_for(
                final(self).x(),
                local,
                |env: Env| bit_op(op, f(env), g(env)),
            ),
            result matches Err(error) ==> exhausted(final(self).module@, error),
    {
        let ghost before = *self;
        let local = match self.module.emit_binary(op, left, right, span) {
            Ok(local) => local,
            Err(error) => return Err(error),
        };
        self.note();
        proof {
            lemma_made_for_operation(
                &before,
                self,
                local,
                self.module@.ty(local),
                OpView::Binary { op, left, right },
                operation,
            );
            lemma_made(&before, self);
            let x = before.x();
            let y = self.x();
            lemma_step_linked(x, y);
            let s = x.module.ty(left);
            let t = x.module.ty(right);
            let ty = crate::word::module::binary_type(op, s, t);
            assert(ty.width == 1);
            assert forall|outer: Env, inner: Env| #[trigger] linked(y, outer, inner) implies word_of(
                y.module,
                inner,
                local,
            ) == seq![bit_op(op, f(outer), g(outer))] by {
                assert(linked(x, outer, inner));
                lemma_bit_binary(op, f(outer), g(outer), s, t, ty);
            }
        }
        Ok(local)
    }

    /// A choice between two bits.
    pub fn put_choice(
        &mut self,
        cond: ValueId,
        then_value: ValueId,
        else_value: ValueId,
        span: SourceSpan,
        Ghost(c): Ghost<spec_fn(Env) -> bool>,
        Ghost(f): Ghost<spec_fn(Env) -> bool>,
        Ghost(g): Ghost<spec_fn(Env) -> bool>,
        Ghost(operation): Ghost<OpId>,
    ) -> (result: Result<ValueId, SynthError>)
        requires
            old(self).inv(),
            old(self).in_region(operation),
            old(self).operands_within(operation),
            carried_as(
                old(self).source@.operations[operation.raw as int].kind,
                OpView::Mux { cond, then_value, else_value },
            ),
            stands_for(old(self).x(), cond, c),
            stands_for(old(self).x(), then_value, f),
            stands_for(old(self).x(), else_value, g),
        ensures
            old(self).uses(final(self), 2),
            result matches Ok(local) ==> old(self).went_on(final(self)) && stands_for(
                final(self).x(),
                local,
                |env: Env|
                    if c(env) {
                        f(env)
                    } else {
                        g(env)
                    },
            ),
            result matches Err(error) ==> exhausted(final(self).module@, error),
    {
        let ghost before = *self;
        let local = match self.module.emit_mux(cond, then_value, else_value, span) {
            Ok(local) => local,
            Err(error) => return Err(error),
        };
        self.note();
        proof {
            lemma_made_for_operation(
                &before,
                self,
                local,
                self.module@.ty(local),
                OpView::Mux { cond, then_value, else_value },
                operation,
            );
            lemma_made(&before, self);
            let x = before.x();
            let y = self.x();
            lemma_step_linked(x, y);
            assert forall|outer: Env, inner: Env| #[trigger] linked(y, outer, inner) implies word_of(
                y.module,
                inner,
                local,
            ) == seq![
                if c(outer) {
                    f(outer)
                } else {
                    g(outer)
                },
            ] by {
                assert(linked(x, outer, inner));
                assert(word_of(x.module, inner, cond)[0] == c(outer));
            }
        }
        Ok(local)
    }

    /// One bit of a value that was carried over.
    pub fn extract_local_bit(
        &mut self,
        local: ValueId,
        bit: u32,
        span: SourceSpan,
        Ghost(value): Ghost<ValueId>,
    ) -> (result: Result<ValueId, SynthError>)
        requires
            old(self).inv(),
            agrees(old(self).x(), value, local),
        ensures
            result matches Ok(part) ==> old(self).went_on(final(self)) && bit_agrees(
                final(self).x(),
                value,
                bit as int,
                part,
            ),
            result is Ok ==> old(self).still(final(self)) && final(self).boundary_bindings@ == old(
                self,
            ).boundary_bindings@,
            old(self).uses(final(self), 2),
            result is Ok ==> forall|k: int|
                old(self).operation_sources@.len() <= k < final(self).operation_sources@.len()
                    ==> (#[trigger] final(self).module@.operations[k]).kind == (OpView::Extract {
                    value: local,
                    lsb: bit,
                    width: 1,
                }),
            result matches Err(error) ==> if bit >= old(self).source@.ty(value).width {
                error == SynthError::Invariant(Invariant::MissingBit)
            } else {
                exhausted(final(self).module@, error)
            },
    {
        let ghost before = *self;
        let ty = self.module.values[local.raw as usize].ty;
        if bit >= ty.width {
            return Err(SynthError::Invariant(Invariant::MissingBit));
        }
        if ty.width == 1 {
            proof {
                lemma_made(&before, self);
                let x = self.x();
                assert forall|outer: Env, inner: Env| #[trigger]
                    linked(x, outer, inner) implies word_of(x.module, inner, local) == seq![
                    word_of(x.source, outer, value)[bit as int],
                ] by {
                    lemma_eval_width(x.module, inner, local.raw as int);
                    assert(word_of(x.module, inner, local) =~= seq![
                        word_of(x.source, outer, value)[bit as int],
                    ]);
                }
            }
            return Ok(local);
        }
        let part = match self.module.emit_extract(local, bit, 1, span) {
            Ok(part) => part,
            Err(error) => return Err(error),
        };
        self.note();
        proof {
            lemma_appended(
                before.module@,
                self.module@,
                part,
                self.module@.ty(part),
                OpView::Extract { value: local, lsb: bit, width: 1 },
            );
            lemma_made_together(
                &before,
                self,
                part,
                self.module@.ty(part),
                OpView::Extract { value: local, lsb: bit, width: 1 },
            );
            lemma_made(&before, self);
            let x = before.x();
            let y = self.x();
            lemma_step_linked(x, y);
            assert forall|outer: Env, inner: Env| #[trigger] linked(y, outer, inner) implies word_of(
                y.module,
                inner,
                part,
            ) == seq![word_of(y.source, outer, value)[bit as int]] by {
                assert(linked(x, outer, inner));
                assert(word_of(y.module, inner, part) =~= seq![
                    word_of(y.source, outer, value)[bit as int],
                ]);
            }
        }
        Ok(part)
    }

    /// Puts the bits of a value together, given lowest bit first.
    pub fn assemble(
        &mut self,
        parts: &Vec<ValueId>,
        ty: WordType,
        span: SourceSpan,
        Ghost(value): Ghost<ValueId>,
    ) -> (result: Result<ValueId, SynthError>)
        requires
            old(self).inv(),
            old(self).source@.has(value),
            old(self).source@.ty(value) == ty,
            parts@.len() == ty.width,
            forall|i: int|
                0 <= i < parts@.len() ==> bit_agrees(
                    old(self).x(),
                    value,
                    i,
                    #[trigger] parts@[i],
                ),
        ensures
            result matches Ok(local) ==> old(self).went_on(final(self)) && agrees(
                final(self).x(),
                value,
                local,
            ),
            result is Ok ==> old(self).still(final(self)) && final(self).boundary_bindings@ == old(
                self,
            ).boundary_bindings@,
            old(self).uses(final(self), 4),
            result matches Ok(local) ==> forall|k: int|
                old(self).operation_sources@.len() <= k < final(self).operation_sources@.len()
                    ==> #[trigger] joins_at(final(self).module@, k, local),
            result matches Err(error) ==> exhausted(final(self).module@, error),
    {
        let ghost start = *self;
        let ghost x = self.x();
        assert(self.source@.value_ok(value.raw as int));
        let mut local: ValueId = parts[0];
        assert(bit_agrees(x, value, 0, parts@[0]));
        if parts.len() > 1 {
            let mut reversed: Vec<ValueId> = Vec::new();
            let mut i: usize = parts.len();
            while i > 0
                invariant
                    i <= parts@.len(),
                    reversed@.len() == parts@.len() - i,
                    forall|k: int|
                        0 <= k < reversed@.len() ==> #[trigger] reversed@[k]
                            == parts@[parts@.len() - 1 - k],
                decreases i,
            {
                i -= 1;
                reversed.push(parts[i]);
            }
            let ghost row = reversed@;
            proof {
                assert forall|k: int| 0 <= k < row.len() implies self.module@.has(
                    #[trigger] row[k],
                ) && self.module@.ty(row[k]).width == 1 by {
                    assert(bit_agrees(x, value, parts@.len() - 1 - k, parts@[parts@.len() - 1 - k]));
                }
                lemma_single_width(self.module@, row);
            }
            local = match self.module.emit_concat(reversed, span) {
                Ok(local) => local,
                Err(error) => return Err(error),
            };
            self.note();
            proof {
                lemma_appended(
                    start.module@,
                    self.module@,
                    local,
                    self.module@.ty(local),
                    OpView::Concat { parts: row },
                );
                lemma_made_together(
                    &start,
                    self,
                    local,
                    self.module@.ty(local),
                    OpView::Concat { parts: row },
                );
                lemma_made(&start, self);
                let y = self.x();
                lemma_step_linked(x, y);
                assert forall|outer: Env, inner: Env| #[trigger]
                    linked(y, outer, inner) implies word_of(y.module, inner, local) == word_of(
                    x.source,
                    outer,
                    value,
                ) by {
                    assert(linked(x, outer, inner));
                    let words = Seq::new(row.len(), |i: int| word_of(x.module, inner, row[i]));
                    assert forall|k: int| 0 <= k < words.len() implies (#[trigger] words[k])
                        == seq![word_of(x.source, outer, value)[parts@.len() - 1 - k]] by {
                        assert(bit_agrees(
                            x,
                            value,
                            parts@.len() - 1 - k,
                            parts@[parts@.len() - 1 - k],
                        ));
                    }
                    lemma_concat_single_bits(words);
                    lemma_eval_width(x.source, outer, value.raw as int);
                    assert(concat_bits(words) =~= word_of(x.source, outer, value));
                }
            }
        } else {
            proof {
                lemma_made(&start, self);
                assert forall|outer: Env, inner: Env| #[trigger]
                    linked(x, outer, inner) implies word_of(x.module, inner, local) == word_of(
                    x.source,
                    outer,
                    value,
                ) by {
                    lemma_eval_width(x.source, outer, value.raw as int);
                    assert(word_of(x.source, outer, value) =~= seq![
                        word_of(x.source, outer, value)[0],
                    ]);
                }
            }
        }
        let ghost joined = *self;
        let result = self.retype(local, ty, span, Ghost(value));
        proof {
            if let Ok(changed) = result {
                assert forall|k: int|
                    start.operation_sources@.len() <= k < self.operation_sources@.len() implies #[trigger] joins_at(
                    self.module@,
                    k,
                    changed,
                ) by {
                    if k < joined.operation_sources@.len() {
                        assert(self.module@.operations[k] == joined.module@.operations[k]);
                    } else {
                        assert(retypes(self.module@, k, changed));
                    }
                }
            }
        }
        result
    }

    /// Gives a value that has the right word the right type.
    pub fn retype(
        &mut self,
        local: ValueId,
        ty: WordType,
        span: SourceSpan,
        Ghost(value): Ghost<ValueId>,
    ) -> (result: Result<ValueId, SynthError>)
        requires
            old(self).inv(),
            old(self).source@.has(value),
            old(self).source@.ty(value) == ty,
            old(self).module@.has(local),
            old(self).module@.ty(local).width == ty.width,
            forall|outer: Env, inner: Env| #[trigger]
                linked(old(self).x(), outer, inner) ==> word_of(old(self).module@, inner, local)
                    == word_of(old(self).source@, outer, value),
        ensures
            result matches Ok(changed) ==> old(self).went_on(final(self)) && agrees(
                final(self).x(),
                value,
                changed,
            ),
            result is Ok ==> old(self).still(final(self)) && final(self).boundary_bindings@ == old(
                self,
            ).boundary_bindings@,
            old(self).uses(final(self), 2),
            result matches Ok(changed) ==> {
                &&& forall|k: int|
                    old(self).operation_sources@.len() <= k < final(self).operation_sources@.len()
                        ==> #[trigger] retypes(final(self).module@, k, changed)
                &&& changed == local || (final(self).module@.op_of(changed) matches Some(
                    OpView::Cast { kind, value: inner, target },
                ) && inner == local)
            },
            result matches Err(error) ==> exhausted(final(self).module@, error),
    {
        let ghost start = *self;
        let ghost x = self.x();
        let made_type = self.module.values[local.raw as usize].ty;
        if made_type == ty {
            proof {
                lemma_made(&start, self);
            }
            return Ok(local);
        }
        assert(self.source@.value_ok(value.raw as int));
        let kind: CastKind = if ty.signed {
            CastKind::SignExtend
        } else {
            CastKind::ZeroExtend
        };
        let changed = match self.module.emit_cast(kind, local, ty, span) {
            Ok(changed) => changed,
            Err(error) => return Err(error),
        };
        self.note();
        proof {
            lemma_appended(
                start.module@,
                self.module@,
                changed,
                ty,
                OpView::Cast { kind, value: local, target: ty },
            );
            lemma_made_together(
                &start,
                self,
                changed,
                ty,
                OpView::Cast { kind, value: local, target: ty },
            );
            lemma_made(&start, self);
            let y = self.x();
            lemma_step_linked(x, y);
            assert forall|outer: Env, inner: Env| #[trigger] linked(y, outer, inner) implies word_of(
                y.module,
                inner,
                changed,
            ) == word_of(x.source, outer, value) by {
                assert(linked(x, outer, inner));
                lemma_eval_width(x.source, outer, value.raw as int);
                assert(cast_bits(kind, word_of(x.module, inner, local), ty) =~= word_of(
                    x.source,
                    outer,
                    value,
                ));
            }
        }
        Ok(changed)
    }

    /// Puts a value at the border, next to a local value of its type.
    pub fn put_leaf(&mut self, value: ValueId, local: ValueId)
        requires
            old(self).in_order(),
            old(self).source@.has(value),
            old(self).border(value),
            old(self).module@.has(local),
            old(self).module@.ty(local) == old(self).source@.ty(value),
            old(self).source@.kind(value) is Constant ==> old(self).module@.kind(local) == old(self).source@.kind(value),
        ensures
            old(self).moved_on(final(self)),
            *final(self) == (RegionalWordImporter { leaves: final(self).leaves, ..*old(self) }),
            agrees(final(self).x(), value, local),
            final(self).leaves@ == old(self).leaves@.push((value, local)),
            final(self).module@ == old(self).module@,
            final(self).boundary_bindings@ == old(self).boundary_bindings@,
            old(self).still(final(self)),
            final(self).operation_sources@ == old(self).operation_sources@,
    {
        let ghost before = *self;
        let ghost x = self.x();
        proof {
            self.leaves@ = self.leaves@.push((value, local));
            let y = self.x();
            assert(step(x, y));
            assert forall|i: int| 0 <= i < y.leaves.len() implies #[trigger] leaf_ok(y, i) by {
                if i < x.leaves.len() {
                    assert(leaf_ok(x, i));
                    assert(y.leaves[i] == x.leaves[i]);
                }
            }
            lemma_memory_step(x, y, self.source_to_local@, self.cache@);
            reveal(linked);
            assert forall|outer: Env, inner: Env| #[trigger] linked(y, outer, inner) implies word_of(
                y.module,
                inner,
                local,
            ) == word_of(y.source, outer, value) by {
                assert(y.leaves[x.leaves.len() as int] == (value, local));
            }
            assert forall|i: int| 0 <= i < self.leaves@.len() implies self.border(
                (#[trigger] self.leaves@[i]).0,
            ) by {
                if i < before.leaves@.len() {
                    assert(before.border(before.leaves@[i].0));
                }
            }
        }
    }

    /// The local value of an equal read that is at the border already.
    fn shared_boundary(&self, value: ValueId) -> (found: Option<ValueId>)
        requires
            self.inv(),
            self.source@.has(value),
        ensures
            match found {
                Some(local) => exists|i: int| #[trigger]
                    shares_read(self, value, i) && local == self.boundary_bindings@[i].1 && forall|
                        j: int,
                    |
                        0 <= j < i ==> !(#[trigger] shares_read(self, value, j)),
                None => forall|i: int|
                    0 <= i < self.boundary_bindings@.len() ==> !(#[trigger] shares_read(
                        self,
                        value,
                        i,
                    )),
            },
    {
        let stored = &self.source.values[value.raw as usize];
        let reference = match stored.kind {
            ValueKind::Signal(reference) => reference,
            _ => return None,
        };
        let mut i: usize = 0;
        while i < self.boundary_bindings.len()
            invariant
                self.inv(),
                self.source@.has(value),
                stored@ == self.source@.values[value.raw as int],
                self.source@.kind(value) == KindView::Signal(reference),
                i <= self.boundary_bindings@.len(),
                forall|j: int| 0 <= j < i ==> !(#[trigger] shares_read(self, value, j)),
            decreases self.boundary_bindings.len() - i,
        {
            let (other, local) = self.boundary_bindings[i];
            if (other.raw as usize) < self.source.values.len() && (local.raw as usize)
                < self.module.values.len() {
                let equal: bool = match self.source.values[other.raw as usize].kind {
                    ValueKind::Signal(held) => held == reference,
                    _ => false,
                };
                assert(self.source.values@[other.raw as int]@
                    == self.source@.values[other.raw as int]);
                if equal && self.module.values[local.raw as usize].ty == stored.ty {
                    assert(shares_read(self, value, i as int));
                    return Some(local);
                }
            }
            i += 1;
        }
        None
    }

    /// Puts a value at the border as an input of the local module. The bits of a
    /// signal share the input of the signal.
    #[verifier::rlimit(60)]
    pub fn import_boundary(&mut self, value: ValueId) -> (result: Result<ValueId, SynthError>)
        requires
            old(self).inv(),
            unbound(old(self).boundary_bindings@, value),
            boundary_value(old(self).graph(), value),
            old(self).visiting@[value.raw as int],
            old(self).source_to_local@[value.raw as int] is None,
            old(self).source@.has(value),
            old(self).border(value),
            !(old(self).source@.kind(value) is Constant),
        ensures
            result matches Ok(local) ==> {
                &&& old(self).went_on(final(self))
                &&& agrees(final(self).x(), value, local)
                &&& final(self).leaves@ == old(self).leaves@.push((value, local))
                &&& final(self).boundary_bindings@ == old(self).boundary_bindings@.push(
                    (value, local),
                )
                &&& old(self).still(final(self))
                &&& final(self).operation_sources@.len() > old(self).operation_sources@.len()
                    ==> retyped(old(self).graph(), value)
                &&& forall|k: int|
                    old(self).operation_sources@.len() <= k < final(self).operation_sources@.len()
                        ==> #[trigger] retypes(final(self).module@, k, local)
            },
            old(self).uses(final(self), 6),
            result matches Err(error) ==> exhausted(final(self).module@, error),
    {
        let ghost start = *self;
        assert(self.source@.value_ok(value.raw as int));
        let stored = &self.source.values[value.raw as usize];
        let ty = stored.ty;
        let span = stored.source;
        if let ValueKind::Signal(reference) = stored.kind {
            if let Some(local) = self.shared_boundary(value) {
                self.put_leaf(value, local);
                self.boundary_bindings.push((value, local));
                proof {
                    lemma_listed(&start, self, value, local);
                    lemma_shared(&start, self, value, local);
                }
                return Ok(local);
            }
            let outer = reference.signal.raw as usize;
            let signal: SignalId = match self.boundary_port_signals[outer] {
                Some(signal) => signal,
                None => {
                    let whole = self.source.signals[outer].ty;
                    let name = numbered_name("boundary$signal", reference.signal.raw as u64);
                    let port = match self.module.add_port(name, PortDirection::Input, whole, span) {
                        Ok(port) => port,
                        Err(error) => return Err(error),
                    };
                    let signal = self.module.ports[port.raw as usize].signal;
                    let ghost added = *self;
                    proof {
                        lemma_made_inside(&start, self);
                    }
                    self.boundary_port_signals.set(outer, Some(signal));
                    proof {
                        reveal(signals_typed);
                        assert(signals_typed(
                            self.source@,
                            self.module@,
                            self.boundary_port_signals@,
                        ));
                        assert(added.in_order());
                        assert(self.x() == added.x());
                        assert(self.in_order());
                        assert(start.moved_on(self));
                    }
                    signal
                },
            };
            let ghost middle = *self;
            proof {
                reveal(signals_typed);
                assert(self.boundary_port_signals@[outer as int] == Some(signal));
                assert(self.source@.signal_ref_ok(reference));
            }
            let read = match self.module.read_signal_slice(
                signal,
                reference.lsb,
                reference.width,
                span,
            ) {
                Ok(read) => read,
                Err(error) => return Err(error),
            };
            let ghost read_type = self.module@.ty(read);
            proof {
                lemma_made_inside(&middle, self);
            }
            let made_type = self.module.values[read.raw as usize].ty;
            let mut local: ValueId = read;
            if made_type != ty {
                let ghost before = *self;
                if made_type.width != ty.width {
                    return Err(SynthError::Invariant(Invariant::WidthMismatch));
                }
                let kind: CastKind = if ty.signed {
                    CastKind::SignExtend
                } else {
                    CastKind::ZeroExtend
                };
                local = match self.module.emit_cast(kind, read, ty, span) {
                    Ok(local) => local,
                    Err(error) => return Err(error),
                };
                self.note();
                proof {
                    lemma_appended(
                        before.module@,
                        self.module@,
                        local,
                        ty,
                        OpView::Cast { kind, value: read, target: ty },
                    );
                    lemma_made_together(
                        &before,
                        self,
                        local,
                        ty,
                        OpView::Cast { kind, value: read, target: ty },
                    );
                    lemma_made_inside(&before, self);
                    lemma_step_trans(middle.x(), before.x(), self.x());
                }
            }
            let ghost made = *self;
            proof {
                lemma_step_trans(start.x(), middle.x(), made.x());
                assert(start.still(&made));
            }
            self.put_leaf(value, local);
            self.boundary_bindings.push((value, local));
            proof {
                lemma_step_trans(start.x(), made.x(), self.x());
                lemma_listed(&start, self, value, local);
                let run = SignalRef { signal, lsb: reference.lsb, width: reference.width };
                assert(self.module@.kind(read) == KindView::Signal(run));
                assert(reads_run(self.module@, local, run)) by {
                    if local != read {
                        let kind: CastKind = if ty.signed {
                            CastKind::SignExtend
                        } else {
                            CastKind::ZeroExtend
                        };
                        assert(recasts(kind, ty));
                    }
                }
                assert(self.interface().inlets =~= start.interface().inlets.update(
                    reference.signal.raw as int,
                    Some(signal),
                ));
                lemma_signal_bound(
                    start.interface(),
                    self.interface(),
                    value,
                    local,
                    reference,
                    signal,
                );
            }
            return Ok(local);
        }
        let name = numbered_name("boundary$", value.raw as u64);
        let port = match self.module.add_port(name, PortDirection::Input, ty, span) {
            Ok(port) => port,
            Err(error) => return Err(error),
        };
        let signal = self.module.ports[port.raw as usize].signal;
        let ghost middle = *self;
        proof {
            lemma_made_inside(&start, self);
        }
        let local = match self.module.read_signal(signal, span) {
            Ok(local) => local,
            Err(error) => return Err(error),
        };
        let ghost made = *self;
        proof {
            lemma_made_inside(&middle, self);
            lemma_step_trans(start.x(), middle.x(), made.x());
            assert(start.still(&made));
        }
        self.put_leaf(value, local);
        self.boundary_bindings.push((value, local));
        proof {
            lemma_step_trans(start.x(), made.x(), self.x());
            lemma_listed(&start, self, value, local);
            lemma_operation_bound(start.interface(), self.interface(), value, local, signal);
        }
        Ok(local)
    }
}

proof fn lemma_single_width(module: crate::word::module::ModuleView, parts: Seq<ValueId>)
    requires
        forall|i: int| 0 <= i < parts.len() ==> module.ty(#[trigger] parts[i]).width == 1,
    ensures
        crate::word::module::parts_width(module, parts) == parts.len(),
    decreases parts.len(),
{
    if parts.len() > 0 {
        assert forall|i: int| 0 <= i < parts.drop_last().len() implies module.ty(
            #[trigger] parts.drop_last()[i],
        ).width == 1 by {
            assert(parts.drop_last()[i] == parts[i]);
        }
        lemma_single_width(module, parts.drop_last());
        assert(module.ty(parts[parts.len() - 1]).width == 1);
    }
}

} // verus!
