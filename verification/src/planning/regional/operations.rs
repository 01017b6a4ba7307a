//! Carrying operations over, whole or bit by bit.

use super::carry::lemma_operation_word;
use super::dependencies::OperandImport;
use super::failure::{bit_leads, circular, leads, made_of, operand_bit, operand_place, Place};
use super::dependencies::lemma_ready_on;
use super::following::{
    lemma_grew_none, lemma_grew_ordered, lemma_grew_own, lemma_grew_part, lemma_grew_widen,
    lemma_pending, lemma_uses, turns, Own,
};
use super::importer::{
    agrees, bit_agrees, lemma_agrees_step, memory_ok, lemma_step_linked, lemma_step_trans, lemma_stops_next,
    lemma_stops_spent, linked, rows_ascend, rows_reached, source_reached, stands_for, step, Import, RegionalWordImporter,
};
use super::pieces::{bit_fn, lemma_bit_stands, lemma_made};
use super::toll::{
    lemma_costs, lemma_costs_on, lemma_few_cost, lemma_nothing_passed, lemma_passed,
    lemma_passed_few,
};
use super::tracing::{
    carried_as, held, imaged, lemma_held_on, lemma_on_path, parts_ready, stems_from,
};
use super::transfer::{
    carried, lemma_bits_transfer, lemma_partner, lemma_typed_transfer, partners, same_types,
    stateless,
};
use crate::error::{Invariant, SynthError, Unsupported};
use crate::planning::dataflow::substitution::{lemma_with_inputs, with_inputs};
use crate::word::module::{KindView, ModuleView, Operation};
use crate::word::semantics::{lemma_eval_pushed, lemma_eval_width, word_of, Env};
use crate::word::types::{op_inputs, operation_inputs, OpId, OpView, SourceSpan, ValueId};
use vstd::prelude::*;

verus! {

/// A bit whose meaning is that of a bit of a value stands for it.
pub proof fn lemma_bit_from(
    x: Import,
    value: ValueId,
    bit: int,
    local: ValueId,
    f: spec_fn(Env) -> bool,
)
    requires
        x.source.has(value),
        0 <= bit < x.source.ty(value).width,
        stands_for(x, local, f),
        forall|outer: Env, inner: Env| #[trigger]
            linked(x, outer, inner) ==> f(outer) == word_of(x.source, outer, value)[bit],
    ensures
        bit_agrees(x, value, bit, local),
{
    assert forall|outer: Env, inner: Env| #[trigger] linked(x, outer, inner) implies word_of(
        x.module,
        inner,
        local,
    ) == seq![word_of(x.source, outer, value)[bit]] by {}
}

/// A bit of a value, as a function of the environment.
pub proof fn lemma_bit_to(x: Import, value: ValueId, bit: int, local: ValueId)
    requires
        bit_agrees(x, value, bit, local),
    ensures
        stands_for(x, local, bit_fn(x.source, value, bit)),
{
    lemma_bit_stands(x, value, bit, local);
}

/// A value of one bit, as a function of the environment.
pub proof fn lemma_whole_to(x: Import, value: ValueId, local: ValueId)
    requires
        x.source.wf(),
        agrees(x, value, local),
        x.source.ty(value).width == 1,
    ensures
        stands_for(x, local, bit_fn(x.source, value, 0)),
{
    assert forall|outer: Env, inner: Env| #[trigger] linked(x, outer, inner) implies word_of(
        x.module,
        inner,
        local,
    ) == seq![word_of(x.source, outer, value)[0]] by {
        lemma_eval_width(x.source, outer, value.raw as int);
        assert(word_of(x.source, outer, value) =~= seq![word_of(x.source, outer, value)[0]]);
    }
}

/// The bit of an operand that a bit of a bitwise operation reads.
pub open spec fn extended_fn(
    source: ModuleView,
    value: ValueId,
    signed: bool,
    bit: int,
) -> spec_fn(Env) -> bool {
    if bit < source.ty(value).width {
        bit_fn(source, value, bit)
    } else if signed && source.ty(value).signed {
        bit_fn(source, value, source.ty(value).width - 1)
    } else {
        |env: Env| false
    }
}

impl<'a> RegionalWordImporter<'a> {
    pub open spec fn in_region(&self, operation: OpId) -> bool {
        &&& operation.raw < self.source@.operations.len()
        &&& self.operation_regions@[operation.raw as int] == Some(self.region)
        &&& stateless(self.source@.operations[operation.raw as int].kind)
        &&& self.source@.kind(self.source@.operations[operation.raw as int].result)
            == KindView::Operation(operation)
    }

    /// An operation on operands that were carried over whole.
    pub fn import_operation(&mut self, operation: OpId, fuel: u128) -> (result: Result<
        ValueId,
        SynthError,
    >)
        requires
            old(self).inv(),
            old(self).within(old(self).source@.operations[operation.raw as int].result),
            old(self).operands_within(operation),
            old(self).in_region(operation),
        ensures
            result is Ok ==> parts_ready(
                final(self).graph(),
                final(self).source_to_local@,
                final(self).visiting@,
                old(self).source@.operations[operation.raw as int].result,
            ),
            result matches Ok(local) ==> imaged(
                final(self).module@,
                final(self).operation_sources@,
                local,
                operation,
            ),
            old(self).costs(final(self), Place::Inside(old(self).source@.operations[operation.raw as int].result)),
            result matches Ok(local) ==> old(self).went_on(final(self)) && agrees(
                final(self).x(),
                old(self).source@.operations[operation.raw as int].result,
                local,
            ),
            result matches Ok(local) ==> old(self).filled(
                final(self),
                old(self).source@.operations[operation.raw as int].result,
                local,
            ),
            old(self).inside(old(self).source@.operations[operation.raw as int].result) ==> old(
                self,
            ).spends(final(self), 2),
            result matches Err(error) ==> old(self).stops(
                final(self),
                Place::Inside(old(self).source@.operations[operation.raw as int].result),
                fuel as int,
                1,
                error,
            ),
        decreases fuel,
    {
        let ghost start = *self;
        let ghost value = self.source@.operations[operation.raw as int].result;
        let ghost place = Place::Inside(value);
        proof {
            lemma_few_cost(&start, self, place);
            lemma_nothing_passed(&start, self, place);
        }
        if fuel == 0 {
            proof {
                lemma_stops_spent(&start, self, Place::Inside(value), 0, 1);
            }
            return Err(SynthError::Invariant(Invariant::CombinationalCycle));
        }
        let carried = self.import_operation_kind(operation, OperandImport::Whole, fuel - 1);
        let ghost next = Place::Operands(operation, true);
        proof {
            assert(leads(start.graph(), start.visiting@, place, start.visiting@, next)) by {
                reveal(leads);
            }
            lemma_passed(&start, &start, self, place, next, 0, 0);
            lemma_costs(&start, self, place, 1, 0);
        }
        let local = match carried {
            Ok(local) => local,
            Err(error) => {
                proof {
                    lemma_stops_next(
                        &start,
                        &start,
                        self,
                        Place::Inside(value),
                        fuel as int,
                        1,
                        next,
                        fuel - 1,
                        error,
                    );
                }
                return Err(error);
            },
        };
        Ok(local)
    }

    fn import_operand(&mut self, value: ValueId, operands: OperandImport, fuel: u128)
        -> (result: Result<ValueId, SynthError>)
        requires
            old(self).inv(),
            old(self).within(value),
            old(self).source@.has(value),
        ensures
            result is Ok && operands is Whole ==> held(
                final(self).source@,
                final(self).source_to_local@,
                final(self).visiting@,
                value,
            ),
            old(self).costs(final(self), operand_place(value, operands is Whole)),
            result matches Ok(local) ==> old(self).went_on(final(self)) && agrees(
                final(self).x(),
                value,
                local,
            ),
            result matches Ok(local) ==> operands is Whole ==> old(self).followed(
                final(self),
                value,
                local,
            ),
            operands is Whole && old(self).ready(value) ==> old(self).spends(final(self), 0),
            result matches Err(error) ==> fuel == 0 && error == circular() || fuel > 0 && old(
                self,
            ).stops(
                final(self),
                operand_place(value, operands is Whole),
                fuel - 1,
                1,
                error,
            ),
        decreases fuel,
    {
        if fuel == 0 {
            proof {
                lemma_few_cost(self, self, operand_place(value, operands is Whole));
            }
            return Err(SynthError::Invariant(Invariant::CombinationalCycle));
        }
        match operands {
            OperandImport::Whole => self.import(value, fuel - 1),
            OperandImport::Bits => self.import_active_value(value, fuel - 1),
        }
    }

    /// An operation on operands that were carried over in one of two ways.
    #[verifier::rlimit(60)]
    fn import_operation_kind(&mut self, operation: OpId, operands: OperandImport, fuel: u128)
        -> (result: Result<ValueId, SynthError>)
        requires
            old(self).inv(),
            operands is Whole ==> old(self).within(
                old(self).source@.operations[operation.raw as int].result,
            ),
            old(self).operands_within(operation),
            old(self).in_region(operation),
        ensures
            result is Ok && operands is Whole ==> parts_ready(
                final(self).graph(),
                final(self).source_to_local@,
                final(self).visiting@,
                old(self).source@.operations[operation.raw as int].result,
            ),
            operands is Whole ==> (result matches Ok(local) ==> imaged(
                final(self).module@,
                final(self).operation_sources@,
                local,
                operation,
            )),
            old(self).costs(final(self), Place::Operands(operation, operands is Whole)),
            result matches Ok(local) ==> old(self).went_on(final(self)) && agrees(
                final(self).x(),
                old(self).source@.operations[operation.raw as int].result,
                local,
            ),
            result matches Ok(local) ==> operands is Whole ==> old(self).filled(
                final(self),
                old(self).source@.operations[operation.raw as int].result,
                local,
            ),
            operands is Whole && old(self).inside(
                old(self).source@.operations[operation.raw as int].result,
            ) ==> old(self).spends(final(self), 2),
            result matches Err(error) ==> old(self).stops(
                final(self),
                Place::Operands(operation, operands is Whole),
                fuel as int,
                2,
                error,
            ),
        decreases fuel,
    {
        let ghost start = *self;
        let ghost place = Place::Operands(operation, operands is Whole);
        proof {
            lemma_few_cost(&start, self, place);
            lemma_nothing_passed(&start, self, place);
        }
        if fuel == 0 {
            proof {
                lemma_stops_spent(&start, self, place, 0, 2);
            }
            return Err(SynthError::Invariant(Invariant::CombinationalCycle));
        }
        let ghost kind = self.source@.operations[operation.raw as int].kind;
        let value = self.source.operations[operation.raw as usize].result;
        let span = self.source.operations[operation.raw as usize].source;
        assert(self.source@.operation_ok(operation.raw as int));
        let ty = self.source.values[value.raw as usize].ty;
        let inputs = operation_inputs(&self.source.operations[operation.raw as usize].kind);
        let mut locals: Vec<ValueId> = Vec::new();
        let mut i: usize = 0;
        proof {
            lemma_made(&start, self);
            if start.inside(value) {
                lemma_grew_none(&start, self, value, Own::Nothing);
            }
        }
        while i < inputs.len()
            invariant
                operands is Whole && start.inside(value) ==> start.spends(self, 0),
                operands is Whole && start.inside(value) ==> if self.acyclic {
                    turns(start.graph())
                } else {
                    start.grew(self, value, Own::Nothing) && forall|k: int|
                        0 <= k < i ==> self.settled(#[trigger] inputs@[k])
                },
                fuel > 0,
                start == *old(self),
                place == Place::Operands(operation, operands is Whole),
                start.inv(),
                start.passed(self, place, i as nat, 0),
                operands is Whole ==> forall|k: int|
                    0 <= k < i ==> held(
                        self.source@,
                        self.source_to_local@,
                        self.visiting@,
                        #[trigger] inputs@[k],
                    ),
                start.in_region(operation),
                start.operands_within(operation),
                operands is Whole ==> start.within(value),
                start.went_on(self),
                kind == start.source@.operations[operation.raw as int].kind,
                value == start.source@.operations[operation.raw as int].result,
                inputs@ == op_inputs(kind),
                i <= inputs@.len(),
                locals@.len() == i,
                forall|k: int|
                    0 <= k < i ==> agrees(self.x(), inputs@[k], #[trigger] locals@[k]),
            decreases inputs.len() - i,
        {
            let ghost before = *self;
            proof {
                assert(start.source@.operation_ok(operation.raw as int));
                assert(op_inputs(kind)[i as int].raw < value.raw);
                if operands is Whole && start.inside(value) && !before.acyclic {
                    let part = inputs@[i as int];
                    assert(made_of(start.graph(), value, part)) by {
                        assert(op_inputs(kind).contains(inputs@[i as int]));
                    }
                    lemma_grew_ordered(&start, &before, value, Own::Nothing);
                    lemma_ready_on(&start, &before, value, part);
                }
            }
            let carried_over = self.import_operand(inputs[i], operands, fuel - 1);
            let ghost next = operand_place(inputs@[i as int], operands is Whole);
            proof {
                assert(leads(start.graph(), start.visiting@, place, start.visiting@, next)) by {
                    reveal(leads);
                    assert(op_inputs(kind)[i as int] == inputs@[i as int]);
                }
                lemma_passed(&start, &before, self, place, next, i as nat, 0);
                lemma_costs(&start, self, place, i as nat + 1, 0);
            }
            let local = match carried_over {
                Ok(local) => local,
                Err(error) => {
                    proof {
                        if fuel == 1 {
                            lemma_stops_spent(&start, self, place, 1, 2);
                        } else {
                            lemma_stops_next(
                                &start,
                                &before,
                                self,
                                place,
                                fuel as int,
                                2,
                                next,
                                fuel - 2,
                                error,
                            );
                        }
                    }
                    return Err(error);
                },
            };
            let ghost row = locals@;
            locals.push(local);
            proof {
                assert(before.source_to_local@.len() == before.source@.values.len()) by {
                    reveal(memory_ok);
                }
                if operands is Whole {
                    assert forall|k: int| 0 <= k < i + 1 implies held(
                        self.source@,
                        self.source_to_local@,
                        self.visiting@,
                        #[trigger] inputs@[k],
                    ) by {
                        if k < i {
                            lemma_held_on(&before, self, inputs@[k]);
                        }
                    }
                }
                lemma_step_trans(start.x(), before.x(), self.x());
                if operands is Whole && start.inside(value) && !before.acyclic {
                    let part = inputs@[i as int];
                    assert(made_of(start.graph(), value, part)) by {
                        assert(op_inputs(kind).contains(inputs@[i as int]));
                    }
                    lemma_grew_ordered(&start, &before, value, Own::Nothing);
                    lemma_ready_on(&start, &before, value, part);
                    if !self.acyclic {
                        lemma_grew_part(&start, &before, self, value, part, Own::Nothing);
                    }
                }
                assert forall|k: int| 0 <= k < locals@.len() implies agrees(
                    self.x(),
                    inputs@[k],
                    #[trigger] locals@[k],
                ) by {
                    if k < row.len() {
                        lemma_agrees_step(before.x(), self.x(), inputs@[k], row[k]);
                    }
                }
            }
            i += 1;
        }
        let ghost middle = *self;
        proof {
            lemma_costs(&start, self, place, i as nat, 0);
        }
        let other = match carried(
            &self.source.operations[operation.raw as usize].kind,
            &inputs,
            &locals,
        ) {
            Some(other) => other,
            None => return Err(SynthError::Unsupported(Unsupported::Operation)),
        };
        let ghost f = partners(inputs@, locals@);
        proof {
            lemma_carried_types(middle.x(), operation.raw as int, inputs@, locals@);
        }
        let added = self.module.add_operation(other, ty, span);
        proof {
            lemma_passed_few(&start, &middle, self, place, i as nat, 0, 2);
            lemma_costs(&start, self, place, i as nat, 2);
            if operands is Whole && start.inside(value) && !middle.acyclic {
                lemma_uses(&start, &middle, self, 0, 2);
            }
        }
        let local = match added {
            Ok(local) => local,
            Err(error) => return Err(error),
        };
        let ghost pushed = *self;
        self.note();
        let ghost noted = *self;
        if let OperandImport::Whole = operands {
            let row: Vec<OpId> = vec![operation];
            let last: usize = self.operation_sources.len() - 1;
            self.operation_sources.set(last, row);
            assert(rows_reached(self.graph(), self.operation_sources@)) by {
                reveal(rows_reached);
                assert(self.graph() == start.graph() && noted.graph() == start.graph());
                assert(rows_reached(noted.graph(), noted.operation_sources@));
                assert forall|k: int, op: OpId|
                    0 <= k < self.operation_sources@.len()
                        && #[trigger] self.operation_sources@[k]@.contains(op) implies source_reached(
                    self.graph(),
                    op,
                ) by {
                    if k != last {
                        assert(noted.operation_sources@[k]@.contains(op));
                    } else {
                        assert(op == operation);
                    }
                }
            }
            assert(rows_ascend(self.operation_sources@)) by {
                assert forall|k: int| 0 <= k < self.operation_sources@.len() implies super::importer::ascends(
                    (#[trigger] self.operation_sources@[k])@,
                ) by {
                    if k != last {
                        assert(super::importer::ascends(noted.operation_sources@[k]@));
                    }
                }
            }
        }
        proof {
            lemma_pending(&pushed, self);
            lemma_costs_on(&start, &start, &pushed, self, place);
            let last = middle.operation_sources@.len() as int;
            let new_kind = with_inputs(kind, f);
            assert(self.module@.operations.len() == last + 1);
            assert(self.module@.operations[last].kind == new_kind);
            assert(self.module@.operations[last].result == local);
            assert(carried_as(kind, new_kind));
            assert(stems_from(start.source@, new_kind, operation));
            lemma_on_path(&middle, operation);
            assert(self.operation_sources@[last]@.contains(operation)) by {
                if operands is Whole {
                    assert(self.operation_sources@[last]@[0] == operation);
                }
            }
            assert(middle.adds_suited(self));
            lemma_made(&middle, self);
            if operands is Whole {
                assert(middle.source_to_local@.len() == middle.source@.values.len()) by {
                    reveal(memory_ok);
                }
                assert forall|part: ValueId| #[trigger]
                    made_of(self.graph(), value, part) implies held(
                    self.source@,
                    self.source_to_local@,
                    self.visiting@,
                    part,
                ) by {
                    let k = choose|k: int| 0 <= k < inputs@.len() && inputs@[k] == part;
                    assert(held(
                        middle.source@,
                        middle.source_to_local@,
                        middle.visiting@,
                        inputs@[k],
                    ));
                }
            }
            lemma_step_trans(start.x(), middle.x(), self.x());
            if operands is Whole && start.inside(value) && !middle.acyclic {
                assert(middle.still(self));
                lemma_grew_widen(&start, &middle, value, Own::Result(local));
                assert(self.graph() == start.graph());
                assert(start.source@.kind(value) == KindView::Operation(operation));
                assert forall|k: int|
                    middle.operation_sources@.len() <= k < self.operation_sources@.len() implies #[trigger] self.made_own(
                    value,
                    Own::Result(local),
                    k,
                ) by {
                    assert(self.operation_sources@[k]@ =~= seq![operation]);
                    assert(self.module@.operations[k].result == local);
                }
                lemma_grew_own(&start, &middle, self, value, Own::Result(local));
                assert(self.made_own(value, Own::Result(local), middle.operation_sources@.len() as int));
                assert forall|part: ValueId| #[trigger]
                    made_of(start.graph(), value, part) implies self.settled(part) by {
                    let k = choose|k: int| 0 <= k < inputs@.len() && inputs@[k] == part;
                    assert(middle.settled(inputs@[k]));
                }
            }
            lemma_carried_word(
                middle.x(),
                self.x(),
                operation.raw as int,
                inputs@,
                locals@,
                local,
                span,
            );
        }
        Ok(local)
    }

    /// A bit of an operand, with its sign where both it and the result have one.
    pub fn import_extended_value_bit(
        &mut self,
        value: ValueId,
        signed: bool,
        bit: u32,
        span: SourceSpan,
        fuel: u128,
    ) -> (result: Result<ValueId, SynthError>)
        requires
            old(self).inv(),
            old(self).within(value),
            old(self).source@.has(value),
        ensures
            old(self).costs(final(self), operand_bit(old(self).source@, value, bit as int)),
            result matches Ok(local) ==> old(self).went_on(final(self)) && stands_for(
                final(self).x(),
                local,
                extended_fn(old(self).source@, value, signed, bit as int),
            ),
            result matches Err(error) ==> fuel == 0 && error == circular() || fuel > 0 && old(
                self,
            ).stops(
                final(self),
                operand_bit(old(self).source@, value, bit as int),
                fuel - 1,
                1,
                error,
            ),
        decreases fuel,
    {
        let ghost start = *self;
        let ghost place = operand_bit(start.source@, value, bit as int);
        proof {
            lemma_few_cost(&start, self, place);
        }
        if fuel == 0 {
            return Err(SynthError::Invariant(Invariant::CombinationalCycle));
        }
        assert(self.source@.value_ok(value.raw as int));
        let ty = self.source.values[value.raw as usize].ty;
        if bit < ty.width {
            let result = self.import_value_bit(value, bit, span, fuel - 1);
            proof {
                if result is Ok {
                    lemma_bit_to(self.x(), value, bit as int, result->Ok_0);
                }
            }
            result
        } else if signed && ty.signed {
            let result = self.import_value_bit(value, ty.width - 1, span, fuel - 1);
            proof {
                if result is Ok {
                    lemma_bit_to(self.x(), value, ty.width - 1, result->Ok_0);
                }
            }
            result
        } else {
            let result = self.constant_bit(false, span);
            proof {
                lemma_few_cost(&start, self, place);
            }
            result
        }
    }

    /// A bit of an operation that is carried over once for all its bits.
    pub fn import_shared_active_operation_bit(
        &mut self,
        operation: OpId,
        bit: u32,
        span: SourceSpan,
        fuel: u128,
    ) -> (result: Result<ValueId, SynthError>)
        requires
            old(self).inv(),
            old(self).operands_within(operation),
            old(self).in_region(operation),
        ensures
            bit_leads(
                old(self).source@,
                operation,
                bit as int,
                Place::Operands(operation, false),
            ) ==> old(self).costs(final(self), Place::OperationBit(operation, bit as int)),
            result matches Ok(local) ==> old(self).went_on(final(self)) && bit_agrees(
                final(self).x(),
                old(self).source@.operations[operation.raw as int].result,
                bit as int,
                local,
            ),
            result matches Err(error) ==> if fuel == 0 {
                error == circular()
            } else {
                ||| bit >= old(self).source@.ty(
                    old(self).source@.operations[operation.raw as int].result,
                ).width && error == SynthError::Invariant(Invariant::MissingBit)
                ||| old(self).stops(
                    final(self),
                    Place::Operands(operation, false),
                    fuel - 1,
                    2,
                    error,
                )
            },
        decreases fuel,
    {
        let ghost start = *self;
        let ghost value = self.source@.operations[operation.raw as int].result;
        let ghost place = Place::OperationBit(operation, bit as int);
        let ghost next = Place::Operands(operation, false);
        proof {
            lemma_few_cost(&start, self, place);
            lemma_nothing_passed(&start, self, place);
            if bit_leads(start.source@, operation, bit as int, next) {
                assert(leads(start.graph(), start.visiting@, place, start.visiting@, next)) by {
                    reveal(leads);
                }
            }
        }
        if fuel == 0 {
            return Err(SynthError::Invariant(Invariant::CombinationalCycle));
        }
        if let Some(local) = self.recall(1, operation.raw as u64, 0, 0) {
            self.extend_sources(local);
            let ghost between = *self;
            let result = self.extract_local_bit(local, bit, span, Ghost(value));
            proof {
                lemma_few_cost(&start, self, place);
                if result is Ok {
                    lemma_step_trans(start.x(), between.x(), self.x());
                }
            }
            return result;
        }
        let carried_over = self.import_operation_kind(operation, OperandImport::Bits, fuel - 1);
        proof {
            if bit_leads(start.source@, operation, bit as int, next) {
                lemma_passed(&start, &start, self, place, next, 0, 0);
                lemma_costs(&start, self, place, 1, 0);
            }
        }
        let local = match carried_over {
            Ok(local) => local,
            Err(error) => return Err(error),
        };
        let ghost made = *self;
        self.remember(1, operation.raw as u64, 0, 0, local);
        let ghost between = *self;
        proof {
            lemma_step_trans(start.x(), made.x(), between.x());
        }
        let result = self.extract_local_bit(local, bit, span, Ghost(value));
        proof {
            if bit_leads(start.source@, operation, bit as int, next) {
                lemma_passed_few(&start, &made, self, place, 1, 0, 2);
                lemma_costs(&start, self, place, 1, 2);
            }
            if result is Ok {
                lemma_step_trans(start.x(), between.x(), self.x());
            }
        }
        result
    }
}

/// What stands for the operands suits the operation.
proof fn lemma_carried_types(
    x: Import,
    operation: int,
    inputs: Seq<ValueId>,
    locals: Seq<ValueId>,
)
    requires
        x.source.wf(),
        0 <= operation < x.source.operations.len(),
        stateless(x.source.operations[operation].kind),
        inputs == op_inputs(x.source.operations[operation].kind),
        locals.len() == inputs.len(),
        forall|k: int| 0 <= k < inputs.len() ==> agrees(x, inputs[k], #[trigger] locals[k]),
    ensures
        ({
            let kind = with_inputs_of(x, operation, inputs, locals);
            let ty = x.source.ty(x.source.operations[operation].result);
            &&& ty.width >= 1
            &&& x.module.inputs_below(kind, x.module.values.len() as int)
            &&& x.module.op_typed(kind, ty)
        }),
{
    let kind = x.source.operations[operation].kind;
    let value = x.source.operations[operation].result;
    let ty = x.source.ty(value);
    let f = partners(inputs, locals);
    assert(x.source.operation_ok(operation));
    assert(x.source.value_ok(value.raw as int));
    assert forall|i: int| 0 <= i < inputs.len() implies agrees(x, #[trigger] inputs[i], f(inputs[i])) by {
        assert(inputs[i] == inputs[i]);
        lemma_partner(inputs, locals, inputs[i], 0);
        let k = choose|k: int|
            0 <= k < inputs.len() && #[trigger] inputs[k] == inputs[i] && locals[k]
                == super::transfer::partner(inputs, locals, inputs[i], 0);
        assert(agrees(x, inputs[k], locals[k]));
    }
    assert(same_types(x.source, x.module, kind, f));
    lemma_typed_transfer(x.source, x.module, kind, f, ty);
    lemma_with_inputs(kind, f);
    let moved = with_inputs_of(x, operation, inputs, locals);
    assert forall|i: int| 0 <= i < op_inputs(moved).len() implies (#[trigger] op_inputs(
        moved,
    )[i]).raw < x.module.values.len() by {
        assert(agrees(x, inputs[i], f(inputs[i])));
    }
}

/// An operation on what stands for its operands stands for the operation.
proof fn lemma_carried_word(
    x: Import,
    y: Import,
    operation: int,
    inputs: Seq<ValueId>,
    locals: Seq<ValueId>,
    local: ValueId,
    span: SourceSpan,
)
    requires
        x.source.wf(),
        step(x, y),
        super::importer::leaves_ok(x),
        y.leaves == x.leaves,
        0 <= operation < x.source.operations.len(),
        stateless(x.source.operations[operation].kind),
        x.source.kind(x.source.operations[operation].result) == KindView::Operation(
            OpId { raw: operation as u32 },
        ),
        inputs == op_inputs(x.source.operations[operation].kind),
        locals.len() == inputs.len(),
        forall|k: int| 0 <= k < inputs.len() ==> agrees(x, inputs[k], #[trigger] locals[k]),
        ({
            let kind = with_inputs_of(x, operation, inputs, locals);
            let ty = x.source.ty(x.source.operations[operation].result);
            &&& !x.module.full()
            &&& ty.width >= 1
            &&& x.module.inputs_below(kind, x.module.values.len() as int)
            &&& x.module.op_typed(kind, ty)
            &&& y.module == x.module.push_operation(kind, ty, span)
            &&& local == x.module.next_value()
        }),
    ensures
        agrees(y, x.source.operations[operation].result, local),
{
    let kind = x.source.operations[operation].kind;
    let value = x.source.operations[operation].result;
    let ty = x.source.ty(value);
    let f = partners(inputs, locals);
    assert(x.source.operation_ok(operation));
    assert forall|i: int| 0 <= i < inputs.len() implies agrees(x, #[trigger] inputs[i], f(inputs[i])) by {
        assert(inputs[i] == inputs[i]);
        lemma_partner(inputs, locals, inputs[i], 0);
        let k = choose|k: int|
            0 <= k < inputs.len() && #[trigger] inputs[k] == inputs[i] && locals[k]
                == super::transfer::partner(inputs, locals, inputs[i], 0);
        assert(agrees(x, inputs[k], locals[k]));
    }
    assert(same_types(x.source, x.module, kind, f));
    lemma_step_linked(x, y);
    assert forall|outer: Env, inner: Env| #[trigger] linked(y, outer, inner) implies word_of(
        y.module,
        inner,
        local,
    ) == word_of(y.source, outer, value) by {
        assert(linked(x, outer, inner));
        lemma_operation_word(x.source, outer, operation);
        let made_kind = with_inputs_of(x, operation, inputs, locals);
        lemma_eval_pushed(x.module, inner, made_kind, ty, span);
        let source_words = |operand: ValueId| word_of(x.source, outer, operand);
        let local_words = |operand: ValueId| word_of(x.module, inner, operand);
        assert forall|i: int| 0 <= i < op_inputs(kind).len() implies local_words(
            f(#[trigger] op_inputs(kind)[i]),
        ) == source_words(op_inputs(kind)[i]) by {
            assert(agrees(x, inputs[i], f(inputs[i])));
        }
        lemma_bits_transfer(
            x.source,
            x.module,
            outer,
            inner,
            value.raw as int,
            x.module.values.len() as int,
            kind,
            f,
            ty,
            source_words,
            local_words,
        );
    }
}

pub open spec fn with_inputs_of(
    x: Import,
    operation: int,
    inputs: Seq<ValueId>,
    locals: Seq<ValueId>,
) -> OpView {
    crate::planning::dataflow::substitution::with_inputs(
        x.source.operations[operation].kind,
        partners(inputs, locals),
    )
}

} // verus!
