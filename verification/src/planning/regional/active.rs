//! Single bits of operations whose result is being carried over.

use super::carry::{lemma_concat_last, lemma_operation_word};
use super::failure::{
    bit_leads, circular, cost, leads, operand_bit, part_bit, Place,
};
use super::importer::{
    bit_agrees, lemma_stands_step, lemma_step_trans, lemma_stops_layer, lemma_stops_next,
    lemma_stops_spent, linked, RegionalWordImporter,
};
use super::operations::{extended_fn, lemma_bit_from, lemma_bit_to, lemma_whole_to};
use super::pieces::{bit_fn, bit_op};
use super::toll::{
    lemma_costs, lemma_few_cost, lemma_nothing_passed, lemma_passed, lemma_passed_few,
};
use crate::error::{Invariant, SynthError};
use crate::word::bits::any_bit;
use crate::word::module::{parts_width, KindView, ModuleView};
use crate::word::semantics::{
    concat_bits, lemma_concat_width, lemma_eval_width, resize_bits, word_of, Env,
};
use crate::word::types::{
    op_inputs, BinaryOp, CastKind, OpId, OpKind, OpView, SourceSpan, UnaryOp, ValueId,
};
use vstd::prelude::*;

verus! {

/// The bit of an operation whose bits are those of one operand, or a negation, a
/// bitwise combination or a choice of operand bits.
proof fn lemma_active_bit(source: ModuleView, env: Env, operation: int, bit: int)
    requires
        source.wf(),
        0 <= operation < source.operations.len(),
        source.kind(source.operations[operation].result) == KindView::Operation(
            OpId { raw: operation as u32 },
        ),
        0 <= bit < source.ty(source.operations[operation].result).width,
    ensures
        ({
            let result = source.operations[operation].result;
            let word = word_of(source, env, result);
            match source.operations[operation].kind {
                OpView::Unary { op, arg } => {
                    &&& op is BitNot ==> bit < source.ty(arg).width && word[bit] == !word_of(
                        source,
                        env,
                        arg,
                    )[bit]
                    &&& op is LogicalNot && source.ty(arg).width == 1 ==> word[0] == !word_of(
                        source,
                        env,
                        arg,
                    )[0]
                },
                OpView::Binary { op, left, right } => {
                    &&& op is BitAnd || op is BitOr || op is BitXor ==> word[bit] == bit_op(
                        op,
                        extended_fn(source, left, source.ty(result).signed, bit)(env),
                        extended_fn(source, right, source.ty(result).signed, bit)(env),
                    )
                    &&& (op is LogicalAnd || op is LogicalOr) && source.ty(left).width == 1
                        && source.ty(right).width == 1 ==> word[0] == bit_op(
                        op,
                        word_of(source, env, left)[0],
                        word_of(source, env, right)[0],
                    )
                },
                OpView::Mux { cond, then_value, else_value } => {
                    &&& source.ty(cond).width == 1
                    &&& bit < source.ty(then_value).width
                    &&& bit < source.ty(else_value).width
                    &&& word[bit] == (if word_of(source, env, cond)[0] {
                        word_of(source, env, then_value)[bit]
                    } else {
                        word_of(source, env, else_value)[bit]
                    })
                },
                OpView::Extract { value, lsb, width } => {
                    &&& lsb + bit < source.ty(value).width
                    &&& word[bit] == word_of(source, env, value)[lsb + bit]
                },
                OpView::Cast { kind, value, target } => {
                    &&& source.ty(value).width >= 1
                    &&& word[bit] == (if bit < source.ty(value).width {
                        word_of(source, env, value)[bit]
                    } else if kind is SignExtend {
                        word_of(source, env, value)[source.ty(value).width - 1]
                    } else {
                        false
                    })
                },
                _ => true,
            }
        }),
{
    let result = source.operations[operation].result;
    let kind = source.operations[operation].kind;
    let ty = source.ty(result);
    let inputs = op_inputs(kind);
    lemma_operation_word(source, env, operation);
    assert(source.operation_ok(operation));
    assert(source.value_ok(result.raw as int));
    match kind {
        OpView::Unary { op, arg } => {
            assert(inputs[0] == arg);
            lemma_eval_width(source, env, arg.raw as int);
            let word = word_of(source, env, arg);
            if word.len() == 1 {
                assert(any_bit(word) == word[0]) by {
                    if any_bit(word) {
                        let i = choose|i: int| 0 <= i < word.len() && word[i];
                        assert(i == 0);
                    }
                }
            }
        },
        OpView::Binary { op, left, right } => {
            assert(inputs[0] == left && inputs[1] == right);
            lemma_eval_width(source, env, left.raw as int);
            lemma_eval_width(source, env, right.raw as int);
            assert(source.value_ok(left.raw as int));
            assert(source.value_ok(right.raw as int));
            let l = word_of(source, env, left);
            let r = word_of(source, env, right);
            if l.len() == 1 && r.len() == 1 {
                assert(any_bit(l) == l[0]) by {
                    if any_bit(l) {
                        let i = choose|i: int| 0 <= i < l.len() && l[i];
                        assert(i == 0);
                    }
                }
                assert(any_bit(r) == r[0]) by {
                    if any_bit(r) {
                        let i = choose|i: int| 0 <= i < r.len() && r[i];
                        assert(i == 0);
                    }
                }
            }
            let rl = resize_bits(l, source.ty(left), ty);
            let rr = resize_bits(r, source.ty(right), ty);
            assert(rl[bit] == extended_fn(source, left, ty.signed, bit)(env));
            assert(rr[bit] == extended_fn(source, right, ty.signed, bit)(env));
        },
        OpView::Mux { cond, then_value, else_value } => {
            assert(inputs[0] == cond && inputs[1] == then_value && inputs[2] == else_value);
        },
        OpView::Extract { value, lsb, width } => {
            assert(inputs[0] == value);
        },
        OpView::Cast { kind: cast, value, target } => {
            assert(inputs[0] == value);
            lemma_eval_width(source, env, value.raw as int);
            assert(source.value_ok(value.raw as int));
        },
        _ => {},
    }
}

/// The parts of a concatenation, in words.
pub open spec fn part_words(source: ModuleView, env: Env, parts: Seq<ValueId>) -> Seq<Seq<bool>> {
    Seq::new(parts.len(), |i: int| word_of(source, env, parts[i]))
}

/// A bit of a concatenation lies in its last part, or in the parts before it.
proof fn lemma_concat_bit(source: ModuleView, env: Env, parts: Seq<ValueId>, bit: int)
    requires
        source.wf(),
        parts.len() > 0,
        forall|i: int| 0 <= i < parts.len() ==> source.has(#[trigger] parts[i]),
        0 <= bit,
    ensures
        bit < source.ty(parts.last()).width ==> concat_bits(part_words(source, env, parts))[bit]
            == word_of(source, env, parts.last())[bit],
        source.ty(parts.last()).width <= bit < parts_width(source, parts) ==> concat_bits(
            part_words(source, env, parts),
        )[bit] == concat_bits(part_words(source, env, parts.drop_last()))[bit - source.ty(
            parts.last(),
        ).width],
{
    let words = part_words(source, env, parts);
    lemma_concat_last(words);
    assert(words.drop_last() =~= part_words(source, env, parts.drop_last()));
    assert(source.has(parts[parts.len() - 1]));
    lemma_eval_width(source, env, parts.last().raw as int);
    let before = parts.drop_last();
    assert forall|i: int| 0 <= i < before.len() implies (#[trigger] part_words(
        source,
        env,
        before,
    )[i]).len() == source.ty(before[i]).width by {
        assert(before[i] == parts[i]);
        assert(source.has(parts[i]));
        lemma_eval_width(source, env, before[i].raw as int);
    }
    lemma_concat_width(source, before, part_words(source, env, before));
}

impl<'a> RegionalWordImporter<'a> {
    /// A bit of a concatenation: the part that holds it is looked for from the
    /// low end.
    #[verifier::rlimit(40)]
    fn import_concat_bit(
        &mut self,
        operation: OpId,
        parts: &Vec<ValueId>,
        bit: u32,
        span: SourceSpan,
        fuel: u128,
    ) -> (result: Result<ValueId, SynthError>)
        requires
            old(self).inv(),
            old(self).operands_within(operation),
            old(self).in_region(operation),
            old(self).source@.operations[operation.raw as int].kind == (OpView::Concat {
                parts: parts@,
            }),
            bit < old(self).source@.ty(
                old(self).source@.operations[operation.raw as int].result,
            ).width,
        ensures
            old(self).costs(final(self), Place::OperationBit(operation, bit as int)),
            result matches Ok(local) ==> old(self).went_on(final(self)) && bit_agrees(
                final(self).x(),
                old(self).source@.operations[operation.raw as int].result,
                bit as int,
                local,
            ),
            result matches Err(error) ==> old(self).stops(
                final(self),
                Place::OperationBit(operation, bit as int),
                fuel as int,
                2,
                error,
            ),
        decreases fuel,
    {
        let ghost start = *self;
        let ghost whole_place = Place::OperationBit(operation, bit as int);
        proof {
            lemma_few_cost(&start, self, whole_place);
            lemma_nothing_passed(&start, self, whole_place);
        }
        let ghost value = self.source@.operations[operation.raw as int].result;
        if fuel == 0 {
            proof {
                lemma_stops_spent(&start, self, Place::OperationBit(operation, bit as int), 0, 2);
            }
            return Err(SynthError::Invariant(Invariant::CombinationalCycle));
        }
        let ghost source = self.source@;
        proof {
            assert(source.operation_ok(operation.raw as int));
            assert forall|env: Env| #[trigger] word_of(source, env, value) == concat_bits(
                part_words(source, env, parts@.take(parts@.len() as int)),
            ) by {
                lemma_operation_word(source, env, operation.raw as int);
                assert(parts@.take(parts@.len() as int) =~= parts@);
                let operand = |operand: ValueId| word_of(source, env, operand);
                assert(Seq::new(parts@.len(), |i: int| operand(parts@[i])) =~= part_words(
                    source,
                    env,
                    parts@,
                ));
            }
            assert(parts@.take(parts@.len() as int) =~= parts@);
            let inputs = op_inputs(source.operations[operation.raw as int].kind);
            assert forall|k: int| 0 <= k < parts@.len() implies source.has(#[trigger] parts@[k]) by {
                assert(inputs[k] == parts@[k]);
            }
        }
        let mut rest: u32 = bit;
        let mut i: usize = parts.len();
        let mut found: Option<(ValueId, u32)> = None;
        while i > 0 && found.is_none()
            invariant
                source.wf(),
                source == self.source@,
                source.has(value),
                op_inputs(OpView::Concat { parts: parts@ }) == parts@,
                forall|k: int| 0 <= k < parts@.len() ==> source.has(#[trigger] parts@[k]),
                i <= parts@.len(),
                found is None ==> rest == bit - (parts_width(source, parts@) - parts_width(
                    source,
                    parts@.take(i as int),
                )),
                found matches Some(place) ==> part_bit(
                    source,
                    parts@,
                    i - 1,
                    bit as int,
                    Place::Bit(place.0, place.1 as int),
                ),
                found is None ==> rest < parts_width(source, parts@.take(i as int)),
                found is None ==> forall|env: Env| #[trigger]
                    word_of(source, env, value)[bit as int] == concat_bits(
                        part_words(source, env, parts@.take(i as int)),
                    )[rest as int],
                found matches Some(place) ==> source.has(place.0) && place.1 < source.ty(
                    place.0,
                ).width && forall|env: Env| #[trigger]
                    word_of(source, env, value)[bit as int] == word_of(
                        source,
                        env,
                        place.0,
                    )[place.1 as int],
            decreases i, (if found is None {
                1int
            } else {
                0int
            }),
        {
            let part = parts[i - 1];
            let width: u32 = self.source.values[part.raw as usize].ty.width;
            let ghost row = parts@.take(i as int);
            proof {
                assert(row.last() == part);
                assert(row.drop_last() =~= parts@.take(i - 1));
                assert forall|env: Env| true implies ({
                    &&& rest < width ==> #[trigger] word_of(source, env, value)[bit as int]
                        == word_of(source, env, part)[rest as int]
                    &&& rest >= width ==> word_of(source, env, value)[bit as int]
                        == concat_bits(part_words(source, env, row.drop_last()))[rest - width]
                }) by {
                    lemma_concat_bit(source, env, row, rest as int);
                }
            }
            if rest < width {
                found = Some((part, rest));
            } else {
                rest = rest - width;
                i -= 1;
            }
        }
        match found {
            Some(place) => {
                let result = self.import_value_bit(place.0, place.1, span, fuel - 1);
                proof {
                    lemma_part_leads(&start, operation, bit as int, Place::Bit(place.0, place.1 as int));
                    lemma_passed(&start, &start, self, whole_place, Place::Bit(place.0, place.1 as int), 0, 0);
                    lemma_costs(&start, self, whole_place, 1, 0);
                }
                proof {
                    if result is Err {
                        let error = result->Err_0;
                        lemma_part_stops(
                            &start,
                            &start,
                            self,
                            operation,
                            bit as int,
                            Place::Bit(place.0, place.1 as int),
                            fuel as int,
                            fuel - 1,
                            error,
                        );
                    }
                    if result is Ok {
                        let y = self.x();
                        let local = result->Ok_0;
                        lemma_bit_to(y, place.0, place.1 as int, local);
                        lemma_bit_from(
                            y,
                            value,
                            bit as int,
                            local,
                            bit_fn(y.source, place.0, place.1 as int),
                        );
                    }
                }
                result
            },
            None => {
                assert(parts@.take(0).len() == 0);
                assert(false);
                Err(SynthError::Invariant(Invariant::MissingBit))
            },
        }
    }

    /// One bit of an operation. Operations whose bits depend on bits of the
    /// operands only are taken apart; the others are carried over once.
    #[verifier::rlimit(100)]
    #[verifier::spinoff_prover]
    pub fn import_active_operation_bit(
        &mut self,
        operation: OpId,
        bit: u32,
        span: SourceSpan,
        fuel: u128,
    ) -> (result: Result<ValueId, SynthError>)
        requires
            old(self).inv(),
            old(self).operands_within(operation),
            old(self).in_region(operation),
            bit < old(self).source@.ty(
                old(self).source@.operations[operation.raw as int].result,
            ).width,
        ensures
            old(self).costs(final(self), Place::OperationBit(operation, bit as int)),
            result matches Ok(local) ==> old(self).went_on(final(self)) && bit_agrees(
                final(self).x(),
                old(self).source@.operations[operation.raw as int].result,
                bit as int,
                local,
            ),
            result matches Err(error) ==> old(self).stops(
                final(self),
                Place::OperationBit(operation, bit as int),
                fuel as int,
                3,
                error,
            ),
        decreases fuel,
    {
        let ghost start = *self;
        let ghost whole_place = Place::OperationBit(operation, bit as int);
        proof {
            lemma_few_cost(&start, self, whole_place);
            lemma_nothing_passed(&start, self, whole_place);
        }
        let ghost source = self.source@;
        let ghost value = self.source@.operations[operation.raw as int].result;
        if fuel == 0 {
            proof {
                lemma_stops_spent(&start, self, Place::OperationBit(operation, bit as int), 0, 3);
            }
            return Err(SynthError::Invariant(Invariant::CombinationalCycle));
        }
        proof {
            assert(source.operation_ok(operation.raw as int));
            assert forall|env: Env| true implies #[trigger] word_of(source, env, value).len() >= 0 by {}
            lemma_part_types(source, operation.raw as int, bit as int);
        }
        match &self.source.operations[operation.raw as usize].kind {
            OpKind::Unary { op: UnaryOp::BitNot, arg } => {
                let result = self.active_not(operation, UnaryOp::BitNot, *arg, bit, span, fuel - 1);
                proof {
                    if result is Err {
                        let error = result->Err_0;
                        lemma_stops_layer(
                            &start,
                            &start,
                            self,
                            Place::OperationBit(operation, bit as int),
                            fuel as int,
                            3,
                            fuel - 1,
                            2,
                            error,
                        );
                    }
                }
                result
            },
            OpKind::Unary { op: UnaryOp::LogicalNot, arg } => {
                assert(op_inputs(source.operations[operation.raw as int].kind)[0] == *arg);
                if bit == 0 && self.source.values[arg.raw as usize].ty.width == 1 {
                    let result = self.active_not(operation, UnaryOp::LogicalNot, *arg, 0, span, fuel - 1);
                    proof {
                        if result is Err {
                            let error = result->Err_0;
                            lemma_stops_layer(
                                &start,
                                &start,
                                self,
                                Place::OperationBit(operation, bit as int),
                                fuel as int,
                                3,
                                fuel - 1,
                                2,
                                error,
                            );
                        }
                    }
                    result
                } else {
                    let result = self.import_shared_active_operation_bit(
                        operation,
                        bit,
                        span,
                        fuel - 1,
                    );
                    proof {
                        if result is Err {
                            let error = result->Err_0;
                            lemma_shared_stops(
                                &start,
                                self,
                                operation,
                                bit as int,
                                fuel as int,
                                error,
                            );
                        }
                    }
                    result
                }
            },
            OpKind::Binary { op, left, right } => {
                proof {
                    let inputs = op_inputs(source.operations[operation.raw as int].kind);
                    assert(inputs[0] == *left && inputs[1] == *right);
                }
                match op {
                    BinaryOp::BitAnd | BinaryOp::BitOr | BinaryOp::BitXor => {
                        let result = self.active_bitwise(operation, *op, *left, *right, bit, span, fuel - 1);
                        proof {
                            if result is Err {
                                let error = result->Err_0;
                                lemma_stops_layer(
                                    &start,
                                    &start,
                                    self,
                                    Place::OperationBit(operation, bit as int),
                                    fuel as int,
                                    3,
                                    fuel - 1,
                                    2,
                                    error,
                                );
                            }
                        }
                        result
                    },
                    BinaryOp::LogicalAnd | BinaryOp::LogicalOr => {
                        if bit == 0 && self.source.values[left.raw as usize].ty.width == 1
                            && self.source.values[right.raw as usize].ty.width == 1 {
                            let result = self.active_logical(operation, *op, *left, *right, span, fuel - 1);
                            proof {
                                if result is Err {
                                    let error = result->Err_0;
                                    lemma_stops_layer(
                                        &start,
                                        &start,
                                        self,
                                        Place::OperationBit(operation, bit as int),
                                        fuel as int,
                                        3,
                                        fuel - 1,
                                        2,
                                        error,
                                    );
                                }
                            }
                            result
                        } else {
                            let result = self.import_shared_active_operation_bit(
                                operation,
                                bit,
                                span,
                                fuel - 1,
                            );
                            proof {
                                if result is Err {
                                    let error = result->Err_0;
                                    lemma_shared_stops(
                                        &start,
                                        self,
                                        operation,
                                        bit as int,
                                        fuel as int,
                                        error,
                                    );
                                }
                            }
                            result
                        }
                    },
                    _ => {
                        let result = self.import_shared_active_operation_bit(
                            operation,
                            bit,
                            span,
                            fuel - 1,
                        );
                        proof {
                            if result is Err {
                                let error = result->Err_0;
                                lemma_shared_stops(
                                    &start,
                                    self,
                                    operation,
                                    bit as int,
                                    fuel as int,
                                    error,
                                );
                            }
                        }
                        result
                    },
                }
            },
            OpKind::Mux { cond, then_value, else_value } => {
                let result = self.active_choice(
                    operation,
                    *cond,
                    *then_value,
                    *else_value,
                    bit,
                    span,
                    fuel - 1,
                );
                proof {
                    if result is Err {
                        let error = result->Err_0;
                        lemma_stops_layer(
                            &start,
                            &start,
                            self,
                            Place::OperationBit(operation, bit as int),
                            fuel as int,
                            3,
                            fuel - 1,
                            2,
                            error,
                        );
                    }
                }
                result
            },
            OpKind::Concat { parts } => {
                let result = self.import_concat_bit(operation, parts, bit, span, fuel - 1);
                proof {
                    if result is Err {
                        let error = result->Err_0;
                        lemma_stops_layer(
                            &start,
                            &start,
                            self,
                            Place::OperationBit(operation, bit as int),
                            fuel as int,
                            3,
                            fuel - 1,
                            2,
                            error,
                        );
                    }
                }
                result
            },
            OpKind::Extract { value: whole, lsb, width } => {
                proof {
                    assert forall|env: Env| #[trigger] word_of(source, env, value)[bit as int]
                        == word_of(source, env, *whole)[lsb + bit] by {
                        lemma_active_bit(source, env, operation.raw as int, bit as int);
                    }
                    assert(op_inputs(source.operations[operation.raw as int].kind)[0] == *whole);
                }
                let result = self.same_bit(value_of(self, operation), bit, *whole, *lsb + bit, span, fuel - 1);
                proof {
                    lemma_part_leads(&start, operation, bit as int, Place::Bit(*whole, lsb + bit));
                    lemma_passed(&start, &start, self, whole_place, Place::Bit(*whole, lsb + bit), 0, 0);
                    lemma_costs(&start, self, whole_place, 1, 0);
                }
                proof {
                    if result is Err {
                        let error = result->Err_0;
                        lemma_same_stops(
                            &start,
                            self,
                            operation,
                            bit as int,
                            *whole,
                            lsb + bit,
                            fuel as int,
                            error,
                        );
                    }
                }
                result
            },
            OpKind::Cast { kind, value: whole, target } => {
                assert(op_inputs(source.operations[operation.raw as int].kind)[0] == *whole);
                let width: u32 = self.source.values[whole.raw as usize].ty.width;
                proof {
                    assert(source.value_ok(whole.raw as int));
                    assert forall|env: Env| #[trigger] word_of(source, env, value)[bit as int] == (
                    if bit < width {
                        word_of(source, env, *whole)[bit as int]
                    } else if kind is SignExtend {
                        word_of(source, env, *whole)[width - 1]
                    } else {
                        false
                    }) by {
                        lemma_active_bit(source, env, operation.raw as int, bit as int);
                    }
                }
                let extends = match kind {
                    CastKind::SignExtend => true,
                    _ => false,
                };
                if bit < width {
                    let result = self.same_bit(value_of(self, operation), bit, *whole, bit, span, fuel - 1);
                    proof {
                        lemma_part_leads(&start, operation, bit as int, Place::Bit(*whole, bit as int));
                        lemma_passed(&start, &start, self, whole_place, Place::Bit(*whole, bit as int), 0, 0);
                        lemma_costs(&start, self, whole_place, 1, 0);
                    }
                    proof {
                        if result is Err {
                            let error = result->Err_0;
                            lemma_same_stops(
                                &start,
                                self,
                                operation,
                                bit as int,
                                *whole,
                                bit as int,
                                fuel as int,
                                error,
                            );
                        }
                    }
                    result
                } else if extends {
                    let result = self.same_bit(value_of(self, operation), bit, *whole, width - 1, span, fuel - 1);
                    proof {
                        lemma_part_leads(&start, operation, bit as int, Place::Bit(*whole, width - 1));
                        lemma_passed(&start, &start, self, whole_place, Place::Bit(*whole, width - 1), 0, 0);
                        lemma_costs(&start, self, whole_place, 1, 0);
                    }
                    proof {
                        if result is Err {
                            let error = result->Err_0;
                            lemma_same_stops(
                                &start,
                                self,
                                operation,
                                bit as int,
                                *whole,
                                width - 1,
                                fuel as int,
                                error,
                            );
                        }
                    }
                    result
                } else {
                    let result = self.constant_bit(false, span);
                    proof {
                        lemma_few_cost(&start, self, whole_place);
                    }
                    proof {
                        if result is Ok {
                            lemma_bit_from(
                                self.x(),
                                value,
                                bit as int,
                                result->Ok_0,
                                |env: Env| false,
                            );
                        }
                    }
                    result
                }
            },
            OpKind::DynamicExtract { value: whole, offset, width } => {
                let result = self.active_extraction(
                    operation,
                    *whole,
                    *offset,
                    *width,
                    bit,
                    span,
                    fuel - 1,
                );
                proof {
                    lemma_part_leads(&start, operation, bit as int, Place::Extraction(operation));
                    lemma_passed(&start, &start, self, whole_place, Place::Extraction(operation), 0, 0);
                    lemma_costs(&start, self, whole_place, 1, 0);
                }
                proof {
                    if result is Err {
                        let error = result->Err_0;
                        lemma_part_stops(
                            &start,
                            &start,
                            self,
                            operation,
                            bit as int,
                            Place::Extraction(operation),
                            fuel as int,
                            fuel - 1,
                            error,
                        );
                        lemma_stops_layer(
                            &start,
                            &start,
                            self,
                            Place::OperationBit(operation, bit as int),
                            fuel as int,
                            3,
                            fuel as int,
                            2,
                            error,
                        );
                    }
                }
                result
            },
            _ => {
                let result = self.import_shared_active_operation_bit(
                    operation,
                    bit,
                    span,
                    fuel - 1,
                );
                proof {
                    if result is Err {
                        let error = result->Err_0;
                        lemma_shared_stops(
                            &start,
                            self,
                            operation,
                            bit as int,
                            fuel as int,
                            error,
                        );
                    }
                }
                result
            },
        }
    }

    /// A bit that is a bit of another value.
    pub fn same_bit(
        &mut self,
        value: ValueId,
        bit: u32,
        whole: ValueId,
        place: u32,
        span: SourceSpan,
        fuel: u128,
    ) -> (result: Result<ValueId, SynthError>)
        requires
            old(self).inv(),
            old(self).within(whole),
            old(self).source@.has(value),
            bit < old(self).source@.ty(value).width,
            forall|env: Env| #[trigger]
                word_of(old(self).source@, env, value)[bit as int] == word_of(
                    old(self).source@,
                    env,
                    whole,
                )[place as int],
        ensures
            old(self).costs(final(self), Place::Bit(whole, place as int)),
            result matches Ok(local) ==> old(self).went_on(final(self)) && bit_agrees(
                final(self).x(),
                value,
                bit as int,
                local,
            ),
            result matches Err(error) ==> if fuel == 0 {
                error == circular()
            } else {
                old(self).bit_stops(final(self), whole, place as int, fuel - 1, error)
            },
        decreases fuel,
    {
        if fuel == 0 {
            proof {
                lemma_few_cost(self, self, Place::Bit(whole, place as int));
            }
            return Err(SynthError::Invariant(Invariant::CombinationalCycle));
        }
        let result = self.import_value_bit(whole, place, span, fuel - 1);
        proof {
            if result is Ok {
                let y = self.x();
                lemma_bit_to(y, whole, place as int, result->Ok_0);
                assert forall|outer: Env, inner: Env| #[trigger]
                    linked(y, outer, inner) implies bit_fn(y.source, whole, place as int)(outer)
                    == word_of(y.source, outer, value)[bit as int] by {
                    assert(word_of(y.source, outer, value)[bit as int] == word_of(
                        y.source,
                        outer,
                        whole,
                    )[place as int]);
                }
                lemma_bit_from(
                    y,
                    value,
                    bit as int,
                    result->Ok_0,
                    bit_fn(y.source, whole, place as int),
                );
            }
        }
        result
    }

    fn active_not(
        &mut self,
        operation: OpId,
        op: UnaryOp,
        arg: ValueId,
        bit: u32,
        span: SourceSpan,
        fuel: u128,
    ) -> (result: Result<ValueId, SynthError>)
        requires
            old(self).inv(),
            old(self).operands_within(operation),
            old(self).in_region(operation),
            old(self).source@.operations[operation.raw as int].kind == (OpView::Unary { op, arg }),
            op is BitNot || (op is LogicalNot && bit == 0 && old(self).source@.ty(arg).width == 1),
            bit < old(self).source@.ty(
                old(self).source@.operations[operation.raw as int].result,
            ).width,
        ensures
            old(self).costs(final(self), Place::OperationBit(operation, bit as int)),
            result matches Ok(local) ==> old(self).went_on(final(self)) && bit_agrees(
                final(self).x(),
                old(self).source@.operations[operation.raw as int].result,
                bit as int,
                local,
            ),
            result matches Err(error) ==> old(self).stops(
                final(self),
                Place::OperationBit(operation, bit as int),
                fuel as int,
                2,
                error,
            ),
        decreases fuel,
    {
        let ghost start = *self;
        let ghost whole_place = Place::OperationBit(operation, bit as int);
        proof {
            lemma_few_cost(&start, self, whole_place);
            lemma_nothing_passed(&start, self, whole_place);
        }
        let ghost source = self.source@;
        let ghost value = source.operations[operation.raw as int].result;
        if fuel == 0 {
            proof {
                lemma_stops_spent(&start, self, Place::OperationBit(operation, bit as int), 0, 2);
            }
            return Err(SynthError::Invariant(Invariant::CombinationalCycle));
        }
        proof {
            lemma_part_types(source, operation.raw as int, bit as int);
            assert(op_inputs(source.operations[operation.raw as int].kind)[0] == arg);
        }
        let part_carried = self.import_value_bit(arg, bit, span, fuel - 1);
        proof {
            lemma_part_leads(&start, operation, bit as int, Place::Bit(arg, bit as int));
            lemma_passed(&start, &start, self, whole_place, Place::Bit(arg, bit as int), 0, 0);
            lemma_costs(&start, self, whole_place, 1, 0);
        }
        let part = match part_carried {
            Ok(part) => part,
            Err(error) => {
                proof {
                    lemma_part_stops(
                        &start,
                        &start,
                        self,
                        operation,
                        bit as int,
                        Place::Bit(arg, bit as int),
                        fuel as int,
                        fuel - 1,
                        error,
                    );
                }
                return Err(error);
            },
        };
        let ghost middle = *self;
        let ghost f = bit_fn(source, arg, bit as int);
        proof {
            lemma_bit_to(self.x(), arg, bit as int, part);
        }
        let result = self.put_not(op, part, span, Ghost(f), Ghost(operation));
        proof {
            lemma_passed_few(&start, &middle, self, whole_place, 1, 0, 2);
            lemma_costs(&start, self, whole_place, 1, 2);
        }
        proof {
            if result is Ok {
                lemma_step_trans(start.x(), middle.x(), self.x());
                assert(source.operation_ok(operation.raw as int));
                let y = self.x();
                let h = |env: Env| !f(env);
                assert forall|outer: Env, inner: Env| #[trigger]
                    linked(y, outer, inner) implies h(outer) == word_of(
                    y.source,
                    outer,
                    value,
                )[bit as int] by {
                    lemma_active_bit(source, outer, operation.raw as int, bit as int);
                }
                lemma_bit_from(y, value, bit as int, result->Ok_0, h);
            }
        }
        result
    }

    fn active_bitwise(
        &mut self,
        operation: OpId,
        op: BinaryOp,
        left: ValueId,
        right: ValueId,
        bit: u32,
        span: SourceSpan,
        fuel: u128,
    ) -> (result: Result<ValueId, SynthError>)
        requires
            old(self).inv(),
            old(self).operands_within(operation),
            old(self).in_region(operation),
            old(self).source@.operations[operation.raw as int].kind == (OpView::Binary {
                op,
                left,
                right,
            }),
            op is BitAnd || op is BitOr || op is BitXor,
            bit < old(self).source@.ty(
                old(self).source@.operations[operation.raw as int].result,
            ).width,
        ensures
            old(self).costs(final(self), Place::OperationBit(operation, bit as int)),
            result matches Ok(local) ==> old(self).went_on(final(self)) && bit_agrees(
                final(self).x(),
                old(self).source@.operations[operation.raw as int].result,
                bit as int,
                local,
            ),
            result matches Err(error) ==> old(self).stops(
                final(self),
                Place::OperationBit(operation, bit as int),
                fuel as int,
                2,
                error,
            ),
        decreases fuel,
    {
        let ghost start = *self;
        let ghost whole_place = Place::OperationBit(operation, bit as int);
        proof {
            lemma_few_cost(&start, self, whole_place);
            lemma_nothing_passed(&start, self, whole_place);
        }
        let ghost source = self.source@;
        if fuel == 0 {
            proof {
                lemma_stops_spent(&start, self, Place::OperationBit(operation, bit as int), 0, 2);
            }
            return Err(SynthError::Invariant(Invariant::CombinationalCycle));
        }
        let value = self.source.operations[operation.raw as usize].result;
        proof {
            assert(source.operation_ok(operation.raw as int));
            let inputs = op_inputs(source.operations[operation.raw as int].kind);
            assert(inputs[0] == left && inputs[1] == right);
        }
        let signed = self.source.values[value.raw as usize].ty.signed;
        let ghost f = extended_fn(source, left, signed, bit as int);
        let ghost g = extended_fn(source, right, signed, bit as int);
        let first_carried = self.import_extended_value_bit(left, signed, bit, span, fuel - 1);
        proof {
            lemma_part_leads(&start, operation, bit as int, operand_bit(source, left, bit as int));
            lemma_passed(&start, &start, self, whole_place, operand_bit(source, left, bit as int), 0, 0);
            lemma_costs(&start, self, whole_place, 1, 0);
        }
        let first = match first_carried {
            Ok(first) => first,
            Err(error) => {
                proof {
                    if fuel == 1 {
                        lemma_stops_spent(
                            &start,
                            self,
                            Place::OperationBit(operation, bit as int),
                            1,
                            2,
                        );
                    } else {
                        lemma_part_stops(
                            &start,
                            &start,
                            self,
                            operation,
                            bit as int,
                            operand_bit(source, left, bit as int),
                            fuel as int,
                            fuel - 2,
                            error,
                        );
                    }
                }
                return Err(error);
            },
        };
        let ghost middle = *self;
        let second_carried = self.import_extended_value_bit(right, signed, bit, span, fuel - 1);
        proof {
            lemma_part_leads(&start, operation, bit as int, operand_bit(source, right, bit as int));
            lemma_passed(&start, &middle, self, whole_place, operand_bit(source, right, bit as int), 1, 0);
            lemma_costs(&start, self, whole_place, 2, 0);
        }
        let second = match second_carried {
            Ok(second) => second,
            Err(error) => {
                proof {
                    if fuel == 1 {
                        lemma_stops_spent(
                            &start,
                            self,
                            Place::OperationBit(operation, bit as int),
                            1,
                            2,
                        );
                    } else {
                        lemma_part_stops(
                            &start,
                            &middle,
                            self,
                            operation,
                            bit as int,
                            operand_bit(source, right, bit as int),
                            fuel as int,
                            fuel - 2,
                            error,
                        );
                    }
                }
                return Err(error);
            },
        };
        let ghost both = *self;
        proof {
            lemma_step_trans(start.x(), middle.x(), both.x());
            lemma_stands_step(middle.x(), both.x(), first, f);
        }
        let result = self.put_binary(op, first, second, span, Ghost(f), Ghost(g), Ghost(operation));
        proof {
            lemma_passed_few(&start, &both, self, whole_place, 2, 0, 2);
            lemma_costs(&start, self, whole_place, 2, 2);
        }
        proof {
            if result is Ok {
                lemma_step_trans(start.x(), both.x(), self.x());
                let y = self.x();
                let h = |env: Env| bit_op(op, f(env), g(env));
                assert forall|outer: Env, inner: Env| #[trigger]
                    linked(y, outer, inner) implies h(outer) == word_of(
                    y.source,
                    outer,
                    value,
                )[bit as int] by {
                    lemma_active_bit(source, outer, operation.raw as int, bit as int);
                }
                lemma_bit_from(y, value, bit as int, result->Ok_0, h);
            }
        }
        result
    }

    fn active_logical(
        &mut self,
        operation: OpId,
        op: BinaryOp,
        left: ValueId,
        right: ValueId,
        span: SourceSpan,
        fuel: u128,
    ) -> (result: Result<ValueId, SynthError>)
        requires
            old(self).inv(),
            old(self).operands_within(operation),
            old(self).in_region(operation),
            old(self).source@.operations[operation.raw as int].kind == (OpView::Binary {
                op,
                left,
                right,
            }),
            op is LogicalAnd || op is LogicalOr,
            old(self).source@.ty(left).width == 1,
            old(self).source@.ty(right).width == 1,
        ensures
            old(self).costs(final(self), Place::OperationBit(operation, 0)),
            result matches Ok(local) ==> old(self).went_on(final(self)) && bit_agrees(
                final(self).x(),
                old(self).source@.operations[operation.raw as int].result,
                0,
                local,
            ),
            result matches Err(error) ==> old(self).stops(
                final(self),
                Place::OperationBit(operation, 0),
                fuel as int,
                2,
                error,
            ),
        decreases fuel,
    {
        let ghost start = *self;
        let ghost whole_place = Place::OperationBit(operation, 0);
        proof {
            lemma_few_cost(&start, self, whole_place);
            lemma_nothing_passed(&start, self, whole_place);
        }
        let ghost source = self.source@;
        if fuel == 0 {
            proof {
                lemma_stops_spent(&start, self, Place::OperationBit(operation, 0), 0, 2);
            }
            return Err(SynthError::Invariant(Invariant::CombinationalCycle));
        }
        let ghost value = source.operations[operation.raw as int].result;
        proof {
            assert(source.operation_ok(operation.raw as int));
            assert(source.value_ok(value.raw as int));
            let inputs = op_inputs(source.operations[operation.raw as int].kind);
            assert(inputs[0] == left && inputs[1] == right);
        }
        proof {
            lemma_part_types(source, operation.raw as int, 0);
        }
        let ghost f = bit_fn(source, left, 0);
        let ghost g = bit_fn(source, right, 0);
        let first_carried = self.import_value_bit(left, 0, span, fuel - 1);
        proof {
            lemma_part_leads(&start, operation, 0, Place::Bit(left, 0));
            lemma_passed(&start, &start, self, whole_place, Place::Bit(left, 0), 0, 0);
            lemma_costs(&start, self, whole_place, 1, 0);
        }
        let first = match first_carried {
            Ok(first) => first,
            Err(error) => {
                proof {
                    lemma_part_stops(
                        &start,
                        &start,
                        self,
                        operation,
                        0,
                        Place::Bit(left, 0),
                        fuel as int,
                        fuel - 1,
                        error,
                    );
                }
                return Err(error);
            },
        };
        let ghost middle = *self;
        proof {
            lemma_bit_to(middle.x(), left, 0, first);
        }
        let second_carried = self.import_value_bit(right, 0, span, fuel - 1);
        proof {
            lemma_part_leads(&start, operation, 0, Place::Bit(right, 0));
            lemma_passed(&start, &middle, self, whole_place, Place::Bit(right, 0), 1, 0);
            lemma_costs(&start, self, whole_place, 2, 0);
        }
        let second = match second_carried {
            Ok(second) => second,
            Err(error) => {
                proof {
                    lemma_part_stops(
                        &start,
                        &middle,
                        self,
                        operation,
                        0,
                        Place::Bit(right, 0),
                        fuel as int,
                        fuel - 1,
                        error,
                    );
                }
                return Err(error);
            },
        };
        let ghost both = *self;
        proof {
            lemma_bit_to(both.x(), right, 0, second);
            lemma_step_trans(start.x(), middle.x(), both.x());
            lemma_stands_step(middle.x(), both.x(), first, f);
        }
        let result = self.put_binary(op, first, second, span, Ghost(f), Ghost(g), Ghost(operation));
        proof {
            lemma_passed_few(&start, &both, self, whole_place, 2, 0, 2);
            lemma_costs(&start, self, whole_place, 2, 2);
        }
        proof {
            if result is Ok {
                lemma_step_trans(start.x(), both.x(), self.x());
                let y = self.x();
                let h = |env: Env| bit_op(op, f(env), g(env));
                assert forall|outer: Env, inner: Env| #[trigger]
                    linked(y, outer, inner) implies h(outer) == word_of(y.source, outer, value)[0] by {
                    lemma_active_bit(source, outer, operation.raw as int, 0);
                }
                lemma_bit_from(y, value, 0, result->Ok_0, h);
            }
        }
        result
    }

    fn active_choice(
        &mut self,
        operation: OpId,
        cond: ValueId,
        then_value: ValueId,
        else_value: ValueId,
        bit: u32,
        span: SourceSpan,
        fuel: u128,
    ) -> (result: Result<ValueId, SynthError>)
        requires
            old(self).inv(),
            old(self).operands_within(operation),
            old(self).in_region(operation),
            old(self).source@.operations[operation.raw as int].kind == (OpView::Mux {
                cond,
                then_value,
                else_value,
            }),
            bit < old(self).source@.ty(
                old(self).source@.operations[operation.raw as int].result,
            ).width,
        ensures
            old(self).costs(final(self), Place::OperationBit(operation, bit as int)),
            result matches Ok(local) ==> old(self).went_on(final(self)) && bit_agrees(
                final(self).x(),
                old(self).source@.operations[operation.raw as int].result,
                bit as int,
                local,
            ),
            result matches Err(error) ==> old(self).stops(
                final(self),
                Place::OperationBit(operation, bit as int),
                fuel as int,
                2,
                error,
            ),
        decreases fuel,
    {
        let ghost start = *self;
        let ghost whole_place = Place::OperationBit(operation, bit as int);
        proof {
            lemma_few_cost(&start, self, whole_place);
            lemma_nothing_passed(&start, self, whole_place);
        }
        let ghost source = self.source@;
        if fuel == 0 {
            proof {
                lemma_stops_spent(&start, self, Place::OperationBit(operation, bit as int), 0, 2);
            }
            return Err(SynthError::Invariant(Invariant::CombinationalCycle));
        }
        proof {
            lemma_part_types(source, operation.raw as int, bit as int);
        }
        let ghost value = source.operations[operation.raw as int].result;
        proof {
            assert(source.operation_ok(operation.raw as int));
            let inputs = op_inputs(source.operations[operation.raw as int].kind);
            assert(inputs[0] == cond && inputs[1] == then_value && inputs[2] == else_value);
        }
        let ghost c = bit_fn(source, cond, 0);
        let ghost f = bit_fn(source, then_value, bit as int);
        let ghost g = bit_fn(source, else_value, bit as int);
        let choice_carried = self.import(cond, fuel - 1);
        proof {
            lemma_part_leads(&start, operation, bit as int, Place::Whole(cond));
            lemma_passed(&start, &start, self, whole_place, Place::Whole(cond), 0, 0);
            lemma_costs(&start, self, whole_place, 1, 0);
        }
        let choice = match choice_carried {
            Ok(choice) => choice,
            Err(error) => {
                proof {
                    lemma_part_stops(
                        &start,
                        &start,
                        self,
                        operation,
                        bit as int,
                        Place::Whole(cond),
                        fuel as int,
                        fuel - 1,
                        error,
                    );
                }
                return Err(error);
            },
        };
        let ghost one = *self;
        proof {
            lemma_whole_to(one.x(), cond, choice);
        }
        let first_carried = self.import_value_bit(then_value, bit, span, fuel - 1);
        proof {
            lemma_part_leads(&start, operation, bit as int, Place::Bit(then_value, bit as int));
            lemma_passed(&start, &one, self, whole_place, Place::Bit(then_value, bit as int), 1, 0);
            lemma_costs(&start, self, whole_place, 2, 0);
        }
        let first = match first_carried {
            Ok(first) => first,
            Err(error) => {
                proof {
                    lemma_part_stops(
                        &start,
                        &one,
                        self,
                        operation,
                        bit as int,
                        Place::Bit(then_value, bit as int),
                        fuel as int,
                        fuel - 1,
                        error,
                    );
                }
                return Err(error);
            },
        };
        let ghost two = *self;
        proof {
            lemma_bit_to(two.x(), then_value, bit as int, first);
            lemma_stands_step(one.x(), two.x(), choice, c);
            lemma_step_trans(start.x(), one.x(), two.x());
        }
        let second_carried = self.import_value_bit(else_value, bit, span, fuel - 1);
        proof {
            lemma_part_leads(&start, operation, bit as int, Place::Bit(else_value, bit as int));
            lemma_passed(&start, &two, self, whole_place, Place::Bit(else_value, bit as int), 2, 0);
            lemma_costs(&start, self, whole_place, 3, 0);
        }
        let second = match second_carried {
            Ok(second) => second,
            Err(error) => {
                proof {
                    lemma_part_stops(
                        &start,
                        &two,
                        self,
                        operation,
                        bit as int,
                        Place::Bit(else_value, bit as int),
                        fuel as int,
                        fuel - 1,
                        error,
                    );
                }
                return Err(error);
            },
        };
        let ghost three = *self;
        proof {
            lemma_bit_to(three.x(), else_value, bit as int, second);
            lemma_stands_step(two.x(), three.x(), choice, c);
            lemma_stands_step(two.x(), three.x(), first, f);
            lemma_step_trans(start.x(), two.x(), three.x());
        }
        let result = self.put_choice(
            choice,
            first,
            second,
            span,
            Ghost(c),
            Ghost(f),
            Ghost(g),
            Ghost(operation),
        );
        proof {
            lemma_passed_few(&start, &three, self, whole_place, 3, 0, 2);
            lemma_costs(&start, self, whole_place, 3, 2);
        }
        proof {
            if result is Ok {
                lemma_step_trans(start.x(), three.x(), self.x());
                let y = self.x();
                let h = |env: Env|
                    if c(env) {
                        f(env)
                    } else {
                        g(env)
                    };
                assert forall|outer: Env, inner: Env| #[trigger]
                    linked(y, outer, inner) implies h(outer) == word_of(
                    y.source,
                    outer,
                    value,
                )[bit as int] by {
                    lemma_active_bit(source, outer, operation.raw as int, bit as int);
                }
                lemma_bit_from(y, value, bit as int, result->Ok_0, h);
            }
        }
        result
    }
}

/// The operands that a bit of an operation is made of have the bits that it is
/// made of.
proof fn lemma_part_types(source: ModuleView, operation: int, bit: int)
    requires
        source.wf(),
        0 <= operation < source.operations.len(),
        0 <= bit < source.ty(source.operations[operation].result).width,
    ensures
        match source.operations[operation].kind {
            OpView::Unary { op, arg } => source.has(arg) && (op is BitNot ==> bit < source.ty(
                arg,
            ).width),
            OpView::Binary { op, left, right } => source.has(left) && source.has(right),
            OpView::Mux { cond, then_value, else_value } => {
                &&& source.has(cond)
                &&& source.has(then_value)
                &&& source.has(else_value)
                &&& bit < source.ty(then_value).width
                &&& bit < source.ty(else_value).width
            },
            OpView::Extract { value, lsb, width } => source.has(value) && lsb + bit < source.ty(
                value,
            ).width,
            OpView::Cast { kind, value, target } => source.has(value) && source.ty(value).width >= 1,
            _ => true,
        },
{
    assert(source.operation_ok(operation));
    let inputs = op_inputs(source.operations[operation].kind);
    match source.operations[operation].kind {
        OpView::Unary { op, arg } => {
            assert(inputs[0] == arg);
        },
        OpView::Binary { op, left, right } => {
            assert(inputs[0] == left && inputs[1] == right);
        },
        OpView::Mux { cond, then_value, else_value } => {
            assert(inputs[0] == cond && inputs[1] == then_value && inputs[2] == else_value);
        },
        OpView::Extract { value, lsb, width } => {
            assert(inputs[0] == value);
        },
        OpView::Cast { kind, value, target } => {
            assert(inputs[0] == value);
            assert(source.value_ok(value.raw as int));
        },
        _ => {},
    }
}

/// Carrying an operation over for all its bits stopped, so carrying one of them
/// over does.
proof fn lemma_shared_stops(
    start: &RegionalWordImporter,
    after: &RegionalWordImporter,
    operation: OpId,
    bit: int,
    fuel: int,
    error: SynthError,
)
    requires
        bit_leads(start.source@, operation, bit, Place::Operands(operation, false)),
        fuel == 1 && error == circular() || start.stops(
            after,
            Place::Operands(operation, false),
            fuel - 2,
            2,
            error,
        ),
    ensures
        start.stops(after, Place::OperationBit(operation, bit), fuel, 3, error),
{
    let place = Place::OperationBit(operation, bit);
    let next = Place::Operands(operation, false);
    if fuel == 1 && error == circular() {
        lemma_stops_spent(start, after, place, fuel, 3);
    } else {
        assert(leads(start.graph(), start.visiting@, place, start.visiting@, next)) by {
            reveal(leads);
        }
        lemma_stops_next(start, start, after, place, fuel, 3, next, fuel - 2, error);
    }
}

/// Carrying the bit that a bit of an operation is over stopped, so carrying the
/// bit over does.
proof fn lemma_same_stops(
    start: &RegionalWordImporter,
    after: &RegionalWordImporter,
    operation: OpId,
    bit: int,
    whole: ValueId,
    place: int,
    fuel: int,
    error: SynthError,
)
    requires
        bit_leads(start.source@, operation, bit, Place::Bit(whole, place)),
        start.source@.has(whole),
        0 <= place < start.source@.ty(whole).width,
        fuel == 1 && error == circular() || fuel > 1 && start.bit_stops(
            after,
            whole,
            place,
            fuel - 2,
            error,
        ),
    ensures
        start.stops(after, Place::OperationBit(operation, bit), fuel, 3, error),
{
    let part = Place::OperationBit(operation, bit);
    if fuel == 1 && error == circular() {
        lemma_stops_spent(start, after, part, fuel, 3);
    } else {
        lemma_part_stops(
            start,
            start,
            after,
            operation,
            bit,
            Place::Bit(whole, place),
            fuel - 1,
            fuel - 2,
            error,
        );
        lemma_stops_layer(start, start, after, part, fuel, 3, fuel - 1, 2, error);
    }
}

/// A bit of an operation leads to what it is made of.
proof fn lemma_part_leads(start: &RegionalWordImporter, operation: OpId, bit: int, next: Place)
    requires
        bit_leads(start.source@, operation, bit, next),
    ensures
        leads(
            start.graph(),
            start.visiting@,
            Place::OperationBit(operation, bit),
            start.visiting@,
            next,
        ),
{
    reveal(leads);
}

/// Carrying a part of a bit of an operation over stopped, so carrying the bit over
/// does.
proof fn lemma_part_stops(
    start: &RegionalWordImporter,
    before: &RegionalWordImporter,
    after: &RegionalWordImporter,
    operation: OpId,
    bit: int,
    next: Place,
    fuel: int,
    left: int,
    error: SynthError,
)
    requires
        start.same_frame(before),
        bit_leads(start.source@, operation, bit, next),
        before.stops(after, next, left, cost(next), error),
        left >= fuel - 2,
    ensures
        start.stops(after, Place::OperationBit(operation, bit), fuel, 2, error),
{
    let place = Place::OperationBit(operation, bit);
    assert(leads(start.graph(), start.visiting@, place, start.visiting@, next)) by {
        reveal(leads);
    }
    lemma_stops_next(start, before, after, place, fuel, 2, next, left, error);
}

fn value_of(importer: &RegionalWordImporter, operation: OpId) -> (value: ValueId)
    requires
        operation.raw < importer.source@.operations.len(),
    ensures
        value == importer.source@.operations[operation.raw as int].result,
{
    importer.source.operations[operation.raw as usize].result
}

} // verus!
