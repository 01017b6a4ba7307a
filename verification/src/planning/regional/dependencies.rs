//! Following the dependencies of a value into its region.

use super::failure::{
    driven_by, exhausted, leads, made_of, lemma_next_fails, lemma_stuck, stuck, Place,
};
use super::following::{
    boundary_value, drives_all, lemma_grew_none, lemma_grew_own, lemma_grew_part,
    lemma_grew_settled, lemma_pending, lemma_pending_marked, lemma_pending_settled, lemma_turns,
    lemma_operands_within, lemma_part_reached, lemma_marks_reach, lemma_reaches_itself, reaches, lemma_uses, made_at, pieced, size, takes_at, turns, joins_at, lemma_grew_bits, Own,
    walk_of, weight,
};
use super::importer::{
    agrees, bit_agrees, leaf_ok, lemma_bit_step, lemma_unbound, unbound, lemma_step_linked, lemma_step_trans, lemma_stops_next,
    lemma_stops_spent, linked, marks_reach, memory_ok, path_reached, signals_typed, step, Import, RegionalWordImporter,
};
use super::interface::lemma_leaf_rests;
use super::pieces::lemma_made;
use super::toll::{
    lemma_costs, lemma_costs_on, lemma_entered_keeps, lemma_few_cost, lemma_kept_costs,
    lemma_left_keeps, lemma_nothing_passed, lemma_passed, lemma_passed_few, lemma_passed_more,
    lemma_same_keeps,
};
use super::tracing::{held, lemma_held_on, lemma_traced_entered, parts_ready};
use super::transfer::stateless;
use crate::error::{Invariant, SynthError};
use crate::word::cycle::{loop_error, validate_combinational_acyclic};
use crate::word::drivers::{bit_driver, lemma_folded_driver, ValueBit};
use crate::word::module::{slice_type, KindView, ModuleView, Operation, SignalRef, ValueKind};
use crate::word::semantics::{lemma_eval_width, word_of, Env};
use crate::word::types::{BitVal, ConstBits, OpId, OpKind, OpView, SourceSpan, ValueId, WordType};
use vstd::prelude::*;

verus! {

/// How the operands of an operation are carried over.
#[derive(Clone, Copy)]
pub enum OperandImport {
    Whole,
    Bits,
}

/// A driven read carries the bits of its drivers.
pub proof fn lemma_driven_read(importer: &RegionalWordImporter, value: ValueId, reference: SignalRef, bit: int)
    requires
        importer.inv(),
        importer.source@.has(value),
        importer.source@.kind(value) == KindView::Signal(reference),
        0 <= bit < reference.width,
        importer.drivers.driver_at(reference, bit) is Some,
    ensures
        ({
            let driver = importer.drivers.driver_at(reference, bit)->0;
            &&& importer.source@.has(driver.value)
            &&& driver.bit < importer.source@.ty(driver.value).width
            &&& importer.source@.ty(value).width == reference.width
            &&& forall|outer: Env, inner: Env| #[trigger]
                linked(importer.x(), outer, inner) ==> word_of(importer.source@, outer, value)[bit]
                    == word_of(importer.source@, outer, driver.value)[driver.bit as int]
        }),
{
    let source = importer.source@;
    assert(source.value_ok(value.raw as int));
    let signal = reference.signal;
    let place = reference.lsb + bit;
    assert(importer.drivers.bits@[signal.raw as int]@.len() == source.signals[signal.raw as int].ty.width);
    assert(importer.drivers.bits@[signal.raw as int]@[place] == bit_driver(source, signal, place));
    lemma_folded_driver(source, signal, place, source.connects.len());
    reveal(linked);
    assert forall|outer: Env, inner: Env| #[trigger] linked(importer.x(), outer, inner) implies word_of(
        source,
        outer,
        value,
    )[bit] == word_of(source, outer, importer.drivers.driver_at(reference, bit)->0.value)[
        importer.drivers.driver_at(reference, bit)->0.bit as int
    ] by {
        assert(bit_driver(source, signal, place) is Some);
        assert(word_of(source, outer, value)[bit] == (outer.signal)(signal.raw as int, place));
    }
}

fn copy_bits(bits: &ConstBits) -> (copied: ConstBits)
    ensures
        copied@ == bits@,
{
    let mut row: Vec<BitVal> = Vec::new();
    let mut i: usize = 0;
    while i < bits.bits.len()
        invariant
            i <= bits.bits@.len(),
            row@ == bits.bits@.take(i as int),
        decreases bits.bits.len() - i,
    {
        row.push(bits.bits[i]);
        assert(row@ =~= bits.bits@.take(i + 1));
        i += 1;
    }
    assert(bits.bits@.take(i as int) =~= bits.bits@);
    ConstBits { bits: row }
}

/// Bits are all bits of a value of a type, in order.
pub open spec fn drives_wholly(
    source: ModuleView,
    bits: Seq<ValueBit>,
    ty: WordType,
    value: ValueId,
) -> bool {
    &&& source.has(value)
    &&& source.ty(value) == ty
    &&& bits.len() == ty.width
    &&& forall|i: int|
        0 <= i < bits.len() ==> #[trigger] bits[i] == (ValueBit { value, bit: i as u32 })
}

/// What the inside of a value takes was set aside for it.
proof fn lemma_inner_spends(
    entered: &RegionalWordImporter,
    after: &RegionalWordImporter,
    value: ValueId,
)
    requires
        entered.inside(value),
        entered.uses(after, 6) || entered.spends(after, weight(entered.source@, value.raw as int)),
        weight(entered.source@, value.raw as int) >= 8,
    ensures
        entered.spends(after, weight(entered.source@, value.raw as int)),
{
    if entered.uses(after, 6) {
        lemma_pending(entered, after);
    }
}

/// The path goes on to a value.
proof fn lemma_entered(start: &RegionalWordImporter, entered: &RegionalWordImporter, value: ValueId)
    requires
        start.inv(),
        start.source@.has(value),
        start.ready(value),
        !start.settled(value),
        *entered == (RegionalWordImporter {
            visiting: entered.visiting,
            import_path: entered.import_path,
            ..*start
        }),
        entered.visiting@ == start.visiting@.update(value.raw as int, true),
        entered.import_path@ == start.import_path@.push(value),
    ensures
        entered.inside(value),
{
    let graph = start.graph();
    assert(entered.graph() == graph);
    let path = entered.import_path@;
    assert forall|i: int| 0 <= i < path.len() - 1 implies #[trigger] made_at(graph, path, i) by {
        if i + 1 < path.len() - 1 {
            assert(made_at(graph, start.import_path@, i));
        }
    }
    assert(walk_of(graph, path));
    assert forall|v: ValueId|
        entered.source@.has(v) && #[trigger] entered.visiting@[v.raw as int] implies path.contains(
        v,
    ) by {
        if v == value {
            assert(path[path.len() - 1] == v);
        } else {
            assert(start.visiting@[v.raw as int]);
            let i = choose|i: int| 0 <= i < start.import_path@.len() && start.import_path@[i] == v;
            assert(path[i] == v);
        }
    }
    assert(entered.ordered()) by {
        reveal(RegionalWordImporter::ordered);
        assert(forall|v: ValueId| #[trigger] entered.settled(v) == start.settled(v));
    }
}

/// A value without parts was put next to a local value.
proof fn lemma_leaf_filled(
    start: &RegionalWordImporter,
    after: &RegionalWordImporter,
    value: ValueId,
    local: ValueId,
)
    requires
        start.inv(),
        start.source@.has(value),
        start.border(value),
        !boundary_value(start.graph(), value),
        start.still(after),
        after.operation_sources@.len() == start.operation_sources@.len(),
        after.boundary_bindings@ == start.boundary_bindings@,
    ensures
        start.filled(after, value, local),
{
    if start.inside(value) {
        lemma_grew_none(start, after, value, Own::Result(local));
    }
}

/// A driver of a read is a part of it.
proof fn lemma_driver_part(
    start: &RegionalWordImporter,
    value: ValueId,
    reference: SignalRef,
    bit: int,
)
    requires
        start.inv(),
        start.source@.has(value),
        start.source@.kind(value) == KindView::Signal(reference),
        !start.border(value),
        0 <= bit < reference.width,
        start.drivers.driver_at(reference, bit) is Some,
    ensures
        made_of(start.graph(), value, start.drivers.driver_at(reference, bit)->0.value),
{
    assert(start.graph().drivers.driver_at(reference, bit) is Some);
}

/// After parts of a value were carried over, the next one can be.
pub proof fn lemma_ready_on(
    start: &RegionalWordImporter,
    before: &RegionalWordImporter,
    value: ValueId,
    part: ValueId,
)
    requires
        start.inside(value),
        !before.acyclic,
        start.same_frame(before),
        start.grew(before, value, Own::Bits) || before.ordered(),
        made_of(start.graph(), value, part),
    ensures
        before.ready(part),
{
    reveal(RegionalWordImporter::grew);
    assert(before.graph() == start.graph());
}

/// A read that one value drives wholly is made of that value.
proof fn lemma_exact_filled(
    start: &RegionalWordImporter,
    after: &RegionalWordImporter,
    value: ValueId,
    reference: SignalRef,
    driver: ValueId,
    local: ValueId,
)
    requires
        start.inv(),
        start.source@.has(value),
        start.source@.kind(value) == KindView::Signal(reference),
        !start.border(value),
        start.followed(after, driver, local),
        start.acyclic ==> after.acyclic,
        forall|bit: int|
            0 <= bit < reference.width ==> #[trigger] start.drivers.driver_at(reference, bit)
                == Some(ValueBit { value: driver, bit: bit as u32 }),
    ensures
        start.filled(after, value, local),
{
    if start.inside(value) {
        assert(start.source@.value_ok(value.raw as int));
        lemma_driver_part(start, value, reference, 0);
        lemma_ready_on(start, start, value, driver);
        if !after.acyclic {
            lemma_grew_none(start, start, value, Own::Result(local));
            lemma_grew_part(start, start, after, value, driver, Own::Result(local));
            assert forall|part: ValueId| #[trigger]
                made_of(start.graph(), value, part) implies after.settled(part) by {
                assert(part == driver);
            }
        }
    }
}

/// A read that no value drives wholly is put together.
proof fn lemma_pieced(
    start: &RegionalWordImporter,
    value: ValueId,
    reference: SignalRef,
    bits: Seq<ValueBit>,
    ty: WordType,
)
    requires
        start.inv(),
        start.source@.has(value),
        start.source@.kind(value) == KindView::Signal(reference),
        !start.border(value),
        ty == start.source@.ty(value),
        bits.len() == reference.width == ty.width,
        forall|k: int|
            0 <= k < bits.len() ==> Some(#[trigger] bits[k]) == start.drivers.driver_at(
                reference,
                k,
            ),
        forall|other: ValueId| !(#[trigger] drives_wholly(start.source@, bits, ty, other)),
    ensures
        pieced(start.graph(), value),
{
    assert forall|driver: ValueId| !(#[trigger] drives_all(
        start.graph(),
        value,
        reference,
        driver,
    )) by {
        if drives_all(start.graph(), value, reference, driver) {
            assert forall|i: int| 0 <= i < bits.len() implies #[trigger] bits[i] == (ValueBit {
                value: driver,
                bit: i as u32,
            }) by {
                assert(start.graph().drivers.driver_at(reference, i) == Some(
                    ValueBit { value: driver, bit: i as u32 },
                ));
                assert(Some(bits[i]) == start.drivers.driver_at(reference, i));
            }
            assert(drives_wholly(start.source@, bits, ty, driver));
        }
    }
}

/// Once all pieces of a read were carried over, its parts were.
proof fn lemma_pieces_settled(
    start: &RegionalWordImporter,
    after: &RegionalWordImporter,
    value: ValueId,
    reference: SignalRef,
    bits: Seq<ValueBit>,
)
    requires
        start.source@.kind(value) == KindView::Signal(reference),
        bits.len() == reference.width,
        forall|k: int|
            0 <= k < bits.len() ==> Some(#[trigger] bits[k]) == start.drivers.driver_at(
                reference,
                k,
            ),
        forall|k: int| 0 <= k < bits.len() ==> after.settled((#[trigger] bits[k]).value),
    ensures
        forall|part: ValueId| #[trigger]
            made_of(start.graph(), value, part) ==> after.settled(part),
{
    assert forall|part: ValueId| #[trigger] made_of(start.graph(), value, part) implies after.settled(
        part,
    ) by {
        let bit = choose|bit: int|
            0 <= bit < reference.width && (#[trigger] start.graph().drivers.driver_at(
                reference,
                bit,
            ) matches Some(driver) && driver.value == part);
        assert(Some(bits[bit]) == start.drivers.driver_at(reference, bit));
    }
}

impl<'a> RegionalWordImporter<'a> {
    /// A constant of the source.
    fn import_constant(&mut self, value: ValueId) -> (result: Result<ValueId, SynthError>)
        requires
            old(self).inv(),
            old(self).source@.has(value),
            old(self).source@.kind(value) is Constant,
        ensures
            result matches Ok(local) ==> old(self).went_on(final(self)) && agrees(
                final(self).x(),
                value,
                local,
            ),
            result matches Ok(local) ==> old(self).filled(final(self), value, local),
            old(self).uses(final(self), 1),
            result matches Err(error) ==> exhausted(final(self).module@, error),
    {
        let ghost start = *self;
        assert(self.source@.value_ok(value.raw as int));
        let ty = self.source.values[value.raw as usize].ty;
        let span = self.source.values[value.raw as usize].source;
        if let ValueKind::Constant(bits) = &self.source.values[value.raw as usize].kind {
            let local = match self.module.constant(copy_bits(bits), ty, span) {
                Ok(local) => local,
                Err(error) => return Err(error),
            };
            let ghost made = *self;
            proof {
                lemma_made(&start, self);
            }
            self.put_leaf(value, local);
            proof {
                lemma_step_trans(start.x(), made.x(), self.x());
                assert forall|i: int| 0 <= i < start.leaves@.len() implies (
                #[trigger] start.leaves@[i]).1 != local by {
                    assert(leaf_ok(start.x(), i));
                }
                lemma_leaf_rests(start.interface(), self.interface(), value, local);
                lemma_leaf_filled(&start, self, value, local);
            }
            return Ok(local);
        }
        assert(false);
        Err(SynthError::Invariant(Invariant::UnknownValue))
    }

    /// The local value that stands for a value of the source. `fuel` bounds how
    /// deep dependencies are followed; dependencies that run in a circle use it
    /// up.
    #[verifier::rlimit(40)]
    pub fn import(&mut self, value: ValueId, fuel: u128) -> (result: Result<ValueId, SynthError>)
        requires
            old(self).inv(),
            old(self).within(value),
        ensures
            old(self).costs(final(self), Place::Whole(value)),
            old(self).source@.has(value) ==> !old(self).visiting@[value.raw as int]
                ==> old(self).keeps(final(self)),
            !old(self).source@.has(value) ==> old(self).keeps(final(self)),
            result matches Ok(local) ==> old(self).went_on(final(self)) && agrees(
                final(self).x(),
                value,
                local,
            ),
            result matches Ok(local) ==> old(self).followed(final(self), value, local),
            old(self).ready(value) ==> old(self).spends(final(self), 0),
            result matches Err(error) ==> old(self).whole_stops(
                final(self),
                value,
                fuel as int,
                error,
            ),
            !old(self).source@.has(value) ==> result is Err,
            result is Ok && !old(self).visiting@[value.raw as int] ==> final(self).settled(value),
        decreases fuel,
    {
        let ghost start = *self;
        proof {
            lemma_few_cost(&start, self, Place::Whole(value));
            lemma_nothing_passed(&start, self, Place::Whole(value));
            lemma_same_keeps(&start, self);
        }
        let place: usize = value.raw as usize;
        if fuel == 0 {
            proof {
                lemma_stops_spent(&start, self, Place::Whole(value), 0, 1);
            }
            return Err(SynthError::Invariant(Invariant::CombinationalCycle));
        }
        if place >= self.source.values.len() {
            return Err(SynthError::Invariant(Invariant::UnknownValue));
        }
        proof {
            reveal(memory_ok);
            assert(self.source@.value_ok(value.raw as int));
            lemma_made(&start, self);
        }
        if let Some(local) = self.source_to_local[place] {
            assert(value == ValueId { raw: place as u32 });
            proof {
                if start.ready(value) {
                    lemma_grew_none(&start, self, value, Own::Nothing);
                }
            }
            return Ok(local);
        }
        if self.visiting[place] {
            if let Err(error) = self.validate_once() {
                proof {
                    assert(stuck(start.graph(), start.visiting@, Place::Whole(value), error)) by {
                        reveal(stuck);
                    }
                    lemma_stuck(
                        start.graph(),
                        start.visiting@,
                        Place::Whole(value),
                        fuel as int,
                        1,
                        error,
                    );
                    lemma_pending(&start, self);
                    lemma_few_cost(&start, self, Place::Whole(value));
                }
                return Err(error);
            }
            let ghost checked = *self;
            let result = self.import_active_value(value, fuel - 1);
            proof {
                if start.ready(value) {
                    lemma_turns(start.graph(), start.import_path@, value);
                }
                let next = Place::Bits(value);
                assert(leads(
                    start.graph(),
                    start.visiting@,
                    Place::Whole(value),
                    start.visiting@,
                    next,
                )) by {
                    reveal(leads);
                }
                lemma_nothing_passed(&start, &checked, Place::Whole(value));
                lemma_passed(&start, &checked, self, Place::Whole(value), next, 0, 0);
                lemma_costs(&start, self, Place::Whole(value), 1, 0);
                if result is Err {
                    let error = result->Err_0;
                    lemma_stops_next(
                        &start,
                        &checked,
                        self,
                        Place::Whole(value),
                        fuel as int,
                        1,
                        next,
                        fuel - 1,
                        error,
                    );
                }
            }
            return result;
        }
        self.visiting.set(place, true);
        self.import_path.push(value);
        proof {
            lemma_unbound(
                start.graph(),
                start.source_to_local@,
                start.visiting@,
                start.boundary_bindings@,
                value,
            );
        }
        let ghost entered = *self;
        assert(marks_reach(self.graph(), self.visiting@, value)) by {
            assert(self.graph() == start.graph());
            lemma_reaches_itself(start.graph(), value);
            assert forall|v: ValueId|
                self.source@.has(v) && #[trigger] self.visiting@[v.raw as int] implies reaches(
                self.graph(),
                v,
                value,
            ) by {
                if v != value {
                    assert(start.visiting@[v.raw as int]);
                }
            }
        }
        assert(path_reached(self.graph(), self.import_path@)) by {
            reveal(path_reached);
            assert(self.graph() == start.graph());
        }
        proof {
            lemma_traced_entered(&start, &entered, value);
        }
        assert(entered.inv());
        proof {
            if start.ready(value) {
                lemma_entered(&start, self, value);
                lemma_pending_marked(&start, self, value);
            }
            assert(weight(self.source@, value.raw as int) >= 8);
        }
        proof {
            assert(self.graph() == start.graph());
            if !self.border(value) {
                assert(self.within(value)) by {
                    assert forall|v: ValueId|
                        self.source@.has(v) && #[trigger] self.visiting@[v.raw as int] implies !self.graph().border(
                        v,
                    ) by {
                        if v != value {
                            assert(start.visiting@[v.raw as int]);
                        }
                    }
                    assert(marks_reach(self.graph(), self.visiting@, value));
                }
                if let KindView::Operation(operation) = self.source@.kind(value) {
                    lemma_operands_within(self, operation);
                }
            }
        }
        let kind_of: Result<ValueId, SynthError> = match &self.source.values[place].kind {
            ValueKind::Constant(_) => self.import_constant(value),
            ValueKind::Signal(reference) => self.import_signal(value, *reference, fuel - 1),
            ValueKind::Operation(operation) => {
                if self.is_local(*operation) && !self.operation_is_state(*operation) {
                    self.import_operation(*operation, fuel - 1)
                } else {
                    self.import_boundary(value)
                }
            },
        };
        let ghost next = Place::Inside(value);
        proof {
            assert(leads(
                start.graph(),
                start.visiting@,
                Place::Whole(value),
                entered.visiting@,
                next,
            )) by {
                reveal(leads);
            }
            if entered.uses(self, 6) {
                lemma_few_cost(&entered, self, next);
            }
            assert(entered.costs(self, next));
            lemma_entered_keeps(&start, &entered, self, value);
            lemma_kept_costs(&start, self, Place::Whole(value));
        }
        let local = match kind_of {
            Ok(local) => local,
            Err(error) => {
                proof {
                    assert(entered.stops(self, next, fuel - 1, 1, error));
                    if start.ready(value) {
                        assert(entered.graph() == start.graph());
                        lemma_inner_spends(&entered, self, value);
                    }
                    if !exhausted(self.module@, error) {
                        lemma_next_fails(
                            start.graph(),
                            start.visiting@,
                            Place::Whole(value),
                            fuel as int,
                            1,
                            entered.visiting@,
                            next,
                            fuel - 1,
                            error,
                        );
                    }
                }
                return Err(error);
            },
        };
        let ghost carried_over = *self;
        proof {
            if start.ready(value) {
                lemma_inner_spends(&entered, self, value);
            }
        }
        proof {
            if boundary_value(self.graph(), value) {
                assert(self.boundary_bindings@.last() == (value, local));
                assert(self.boundary_bindings@[self.boundary_bindings@.len() - 1] == (value, local));
            }
        }
        self.leave(value, local);
        proof {
            reveal(memory_ok);
            lemma_left_keeps(&start, &carried_over, self, value);
            lemma_kept_costs(&start, self, Place::Whole(value));
        }
        assert(self.import_path@ =~= start.import_path@);
        assert(self.visiting@ =~= start.visiting@);
        assert(start.went_on(self));
        proof {
            if start.ready(value) && !carried_over.acyclic {
                reveal(memory_ok);
                lemma_grew_settled(&start, &entered, &carried_over, self, value, local);
                lemma_pending_settled(&carried_over, self, value, local);
            }
        }
        Ok(local)
    }

    /// Refuses a source in which some bit is worked out from itself. A source is
    /// looked through once.
    pub fn validate_once(&mut self) -> (result: Result<(), SynthError>)
        requires
            old(self).inv(),
        ensures
            *final(self) == (RegionalWordImporter { acyclic: final(self).acyclic, ..*old(self) }),
            match result {
                Ok(_) => final(self).acyclic && final(self).inv() && final(self).graph().acyclic(),
                Err(error) => !old(self).graph().acyclic() && loop_error(
                    old(self).source@,
                    &old(self).drivers,
                    old(self).source.name@,
                    error,
                ),
            },
    {
        if self.acyclic {
            return Ok(());
        }
        match validate_combinational_acyclic(self.source, &self.drivers) {
            Ok(_) => {
                self.acyclic = true;
                Ok(())
            },
            Err(error) => Err(error),
        }
    }

    pub fn is_local(&self, operation: OpId) -> (local: bool)
        requires
            self.inv(),
            operation.raw < self.source@.operations.len(),
        ensures
            local == (self.operation_regions@[operation.raw as int] == Some(self.region)),
    {
        match self.operation_regions[operation.raw as usize] {
            Some(region) => region == self.region,
            None => false,
        }
    }

    pub fn operation_is_state(&self, operation: OpId) -> (state: bool)
        requires
            self.inv(),
            operation.raw < self.source@.operations.len(),
        ensures
            state == !stateless(self.source@.operations[operation.raw as int].kind),
    {
        match &self.source.operations[operation.raw as usize].kind {
            OpKind::Register(_) => true,
            OpKind::Latch(_) => true,
            _ => false,
        }
    }

    /// A value that is carried over bit by bit.
    pub fn import_active_value(&mut self, value: ValueId, fuel: u128) -> (result: Result<
        ValueId,
        SynthError,
    >)
        requires
            old(self).inv(),
            old(self).within(value),
            old(self).source@.has(value),
        ensures
            old(self).costs(final(self), Place::Bits(value)),
            result matches Ok(local) ==> old(self).went_on(final(self)) && agrees(
                final(self).x(),
                value,
                local,
            ),
            result matches Err(error) ==> old(self).stops(
                final(self),
                Place::Bits(value),
                fuel as int,
                1,
                error,
            ),
        decreases fuel,
    {
        let ghost start = *self;
        let ghost place = Place::Bits(value);
        proof {
            lemma_few_cost(&start, self, place);
            lemma_nothing_passed(&start, self, place);
        }
        if fuel == 0 {
            proof {
                lemma_stops_spent(&start, self, Place::Bits(value), 0, 1);
            }
            return Err(SynthError::Invariant(Invariant::CombinationalCycle));
        }
        let ty = self.source.values[value.raw as usize].ty;
        let span = self.source.values[value.raw as usize].source;
        let mut parts: Vec<ValueId> = Vec::new();
        let mut bit: u32 = 0;
        proof {
            lemma_made(&start, self);
        }
        while bit < ty.width
            invariant
                fuel > 0,
                start == *old(self),
                place == Place::Bits(value),
                start.passed(self, place, bit as nat, 0),
                start.went_on(self),
                start.within(value),
                start.source@.has(value),
                ty == start.source@.ty(value),
                bit <= ty.width,
                parts@.len() == bit,
                forall|i: int|
                    0 <= i < parts@.len() ==> bit_agrees(self.x(), value, i, #[trigger] parts@[i]),
            decreases ty.width - bit,
        {
            let ghost before = *self;
            let carried = self.import_value_bit(value, bit, span, fuel - 1);
            let ghost next = Place::Bit(value, bit as int);
            proof {
                assert(leads(start.graph(), start.visiting@, place, start.visiting@, next)) by {
                    reveal(leads);
                }
                lemma_passed(&start, &before, self, place, next, bit as nat, 0);
                lemma_costs(&start, self, place, bit as nat + 1, 0);
            }
            let part = match carried {
                Ok(part) => part,
                Err(error) => {
                    proof {
                        lemma_stops_next(
                            &start,
                            &before,
                            self,
                            Place::Bits(value),
                            fuel as int,
                            1,
                            next,
                            fuel - 1,
                            error,
                        );
                    }
                    return Err(error);
                },
            };
            let ghost row = parts@;
            parts.push(part);
            proof {
                lemma_step_trans(start.x(), before.x(), self.x());
                assert forall|i: int| 0 <= i < parts@.len() implies bit_agrees(
                    self.x(),
                    value,
                    i,
                    #[trigger] parts@[i],
                ) by {
                    if i < row.len() {
                        lemma_bit_step(before.x(), self.x(), value, i, row[i]);
                    }
                }
            }
            bit += 1;
        }
        let ghost middle = *self;
        let result = self.assemble(&parts, ty, span, Ghost(value));
        proof {
            assert(start.source@.value_ok(value.raw as int));
            lemma_passed_few(&start, &middle, self, place, bit as nat, 0, 4);
            lemma_costs(&start, self, place, bit as nat, 4);
        }
        proof {
            if result is Ok {
                lemma_step_trans(start.x(), middle.x(), self.x());
            }
        }
        result
    }

    /// The value whose bits are exactly those of a read, where there is one.
    fn exact_driver(&self, bits: &Vec<ValueBit>, ty: WordType) -> (driver: Option<ValueId>)
        requires
            self.inv(),
            forall|i: int|
                0 <= i < bits@.len() ==> self.source@.has((#[trigger] bits@[i]).value),
        ensures
            match driver {
                Some(value) => drives_wholly(self.source@, bits@, ty, value),
                None => forall|value: ValueId| !(#[trigger] drives_wholly(
                    self.source@,
                    bits@,
                    ty,
                    value,
                )),
            },
    {
        if bits.len() == 0 {
            proof {
                assert forall|value: ValueId| !(#[trigger] drives_wholly(
                    self.source@,
                    bits@,
                    ty,
                    value,
                )) by {
                    assert(self.source@.has(value) ==> self.source@.value_ok(value.raw as int));
                }
            }
            return None;
        }
        let value = bits[0].value;
        assert(self.source@.has(bits@[0].value));
        assert forall|other: ValueId| #[trigger] drives_wholly(
            self.source@,
            bits@,
            ty,
            other,
        ) implies other == value by {
            assert(bits@[0] == (ValueBit { value: other, bit: 0 }));
        }
        if self.source.values[value.raw as usize].ty != ty || bits.len() != ty.width as usize {
            return None;
        }
        let mut i: usize = 0;
        while i < bits.len()
            invariant
                bits@.len() == ty.width,
                forall|other: ValueId| #[trigger]
                    drives_wholly(self.source@, bits@, ty, other) ==> other == value,
                i <= bits@.len(),
                forall|k: int|
                    0 <= k < i ==> #[trigger] bits@[k] == (ValueBit { value, bit: k as u32 }),
            decreases bits.len() - i,
        {
            if bits[i].value.raw != value.raw || bits[i].bit as usize != i {
                assert(bits@[i as int] != (ValueBit { value, bit: i as u32 }));
                return None;
            }
            i += 1;
        }
        Some(value)
    }

    /// A read of a signal: of memory, of what drives it, or of the border.
    #[verifier::rlimit(40)]
    fn import_signal(&mut self, value: ValueId, reference: SignalRef, fuel: u128) -> (result: Result<
        ValueId,
        SynthError,
    >)
        requires
            old(self).inv(),
            old(self).border(value) ==> unbound(old(self).boundary_bindings@, value),
            old(self).visiting@[value.raw as int],
            old(self).source_to_local@[value.raw as int] is None,
            old(self).border(value) || old(self).within(value),
            old(self).source@.has(value),
            old(self).source@.kind(value) == KindView::Signal(reference),
        ensures
            result is Ok ==> parts_ready(
                final(self).graph(),
                final(self).source_to_local@,
                final(self).visiting@,
                value,
            ),
            old(self).costs(final(self), Place::Inside(value)),
            result matches Ok(local) ==> old(self).went_on(final(self)) && agrees(
                final(self).x(),
                value,
                local,
            ),
            result matches Ok(local) ==> old(self).filled(final(self), value, local),
            result matches Ok(local) ==> boundary_value(old(self).graph(), value) ==>
                final(self).boundary_bindings@ == old(self).boundary_bindings@.push((value, local)),
            old(self).inside(value) ==> old(self).spends(
                final(self),
                weight(old(self).source@, value.raw as int),
            ),
            result matches Err(error) ==> old(self).stops(
                final(self),
                Place::Inside(value),
                fuel as int,
                1,
                error,
            ),
        decreases fuel,
    {
        let ghost start = *self;
        let ghost place = Place::Inside(value);
        proof {
            lemma_few_cost(&start, self, place);
            lemma_nothing_passed(&start, self, place);
        }
        if fuel == 0 {
            proof {
                lemma_stops_spent(&start, self, Place::Inside(value), 0, 1);
            }
            return Err(SynthError::Invariant(Invariant::CombinationalCycle));
        }
        assert(self.source@.value_ok(value.raw as int));
        let ty = self.source.values[value.raw as usize].ty;
        let span = self.source.values[value.raw as usize].source;
        if let Some(signal) = self.memory_signals[reference.signal.raw as usize] {
            proof {
                reveal(signals_typed);
                assert(self.memory_signals@[reference.signal.raw as int] == Some(signal));
                assert(self.module@.signals[signal.raw as int].ty
                    == self.source@.signals[reference.signal.raw as int].ty);
            }
            let made_read = self.module.read_signal_slice(
                signal,
                reference.lsb,
                reference.width,
                span,
            );
            proof {
                lemma_pending(&start, self);
                lemma_few_cost(&start, self, place);
            }
            let local = match made_read {
                Ok(local) => local,
                Err(error) => return Err(error),
            };
            let made_type = self.module.values[local.raw as usize].ty;
            if made_type != ty {
                proof {
                    let error = SynthError::Invariant(Invariant::WidthMismatch);
                    assert(made_type == self.module@.ty(local));
                    assert(made_type == slice_type(
                        start.source@.signals[reference.signal.raw as int].ty,
                        reference.width,
                    ));
                    assert(stuck(start.graph(), start.visiting@, Place::Inside(value), error)) by {
                        reveal(stuck);
                    }
                    lemma_stuck(
                        start.graph(),
                        start.visiting@,
                        Place::Inside(value),
                        fuel as int,
                        1,
                        error,
                    );
                }
                return Err(SynthError::Invariant(Invariant::WidthMismatch));
            }
            let ghost made = *self;
            proof {
                lemma_made(&start, self);
            }
            self.put_leaf(value, local);
            proof {
                lemma_pending(&start, self);
                lemma_few_cost(&start, self, place);
                lemma_step_trans(start.x(), made.x(), self.x());
                lemma_leaf_rests(start.interface(), self.interface(), value, local);
                lemma_leaf_filled(&start, self, value, local);
            }
            return Ok(local);
        }
        if self.cut[value.raw as usize] {
            let result = self.import_boundary(value);
            proof {
                lemma_pending(&start, self);
                lemma_few_cost(&start, self, place);
            }
            return result;
        }
        assert(self.drivers.bits@[reference.signal.raw as int]@.len()
            == self.source@.signals[reference.signal.raw as int].ty.width);
        let bits = match self.drivers.resolve_reference(reference) {
            Some(bits) => bits,
            None => {
                let result = self.import_boundary(value);
                proof {
                    lemma_pending(&start, self);
                    lemma_few_cost(&start, self, place);
                }
                return result;
            },
        };
        proof {
            lemma_made(&start, self);
            assert forall|i: int| 0 <= i < bits@.len() implies self.source@.has(
                (#[trigger] bits@[i]).value,
            ) && bits@[i].bit < self.source@.ty(bits@[i].value).width by {
                lemma_driven_read(&start, value, reference, i);
            }
        }
        if let Some(driver) = self.exact_driver(&bits, ty) {
            proof {
                assert(start.source@.value_ok(value.raw as int));
                assert(bits@[0] == (ValueBit { value: driver, bit: 0 }));
                lemma_driver_part(&start, value, reference, 0);
                lemma_part_reached(start.graph(), value, driver);
                lemma_marks_reach(start.graph(), start.visiting@, value, driver);
            }
            let result = self.import(driver, fuel - 1);
            proof {
                assert(forall|bit: int|
                    0 <= bit < reference.width ==> (#[trigger] start.drivers.driver_at(
                        reference,
                        bit,
                    )) == Some(bits@[bit]));
                if result is Ok {
                    assert forall|part: ValueId| #[trigger]
                        made_of(self.graph(), value, part) implies held(
                        self.source@,
                        self.source_to_local@,
                        self.visiting@,
                        part,
                    ) by {
                        let bit = choose|bit: int|
                            0 <= bit < reference.width && (#[trigger] start.drivers.driver_at(
                                reference,
                                bit,
                            ) matches Some(found) && found.value == part);
                        assert(bits@[bit] == (ValueBit { value: driver, bit: bit as u32 }));
                    }
                }
                lemma_driver_leads(&start, value, reference, 0, Place::Whole(driver));
                lemma_passed(&start, &start, self, place, Place::Whole(driver), 0, 0);
                lemma_costs(&start, self, place, 1, 0);
                if start.inside(value) {
                    assert(start.source@.value_ok(value.raw as int));
                    assert(bits@[0] == (ValueBit { value: driver, bit: 0 }));
                    lemma_driver_part(&start, value, reference, 0);
                    lemma_ready_on(&start, &start, value, driver);
                }
                if result is Err {
                    let error = result->Err_0;
                    assert(start.source@.value_ok(value.raw as int));
                    assert(bits@[0] == (ValueBit { value: driver, bit: 0 }));
                    lemma_driver_stops(
                        &start,
                        &start,
                        self,
                        value,
                        reference,
                        0,
                        Place::Whole(driver),
                        fuel as int,
                        error,
                    );
                }
                if result is Ok {
                    let y = self.x();
                    assert forall|bit: int| 0 <= bit < reference.width implies #[trigger] start.drivers.driver_at(
                        reference,
                        bit,
                    ) == Some(ValueBit { value: driver, bit: bit as u32 }) by {
                        assert(bits@[bit] == (ValueBit { value: driver, bit: bit as u32 }));
                    }
                    lemma_exact_filled(&start, self, value, reference, driver, result->Ok_0);
                    lemma_step_linked(start.x(), y);
                    assert forall|outer: Env, inner: Env| #[trigger]
                        linked(y, outer, inner) implies word_of(y.source, outer, driver)
                        == word_of(y.source, outer, value) by {
                        assert(linked(start.x(), outer, inner));
                        lemma_eval_width(y.source, outer, value.raw as int);
                        lemma_eval_width(y.source, outer, driver.raw as int);
                        assert forall|i: int| 0 <= i < ty.width implies word_of(
                            y.source,
                            outer,
                            driver,
                        )[i] == word_of(y.source, outer, value)[i] by {
                            lemma_driven_read(&start, value, reference, i);
                            assert(bits@[i] == (ValueBit { value: driver, bit: i as u32 }));
                        }
                        assert(word_of(y.source, outer, driver) =~= word_of(
                            y.source,
                            outer,
                            value,
                        ));
                    }
                }
            }
            return result;
        }
        let mut parts: Vec<ValueId> = Vec::new();
        let mut i: usize = 0;
        proof {
            lemma_pieced(&start, value, reference, bits@, ty);
            if start.inside(value) {
                lemma_grew_none(&start, self, value, Own::Bits);
            }
        }
        while i < bits.len()
            invariant
                pieced(start.graph(), value),
                start.inside(value) ==> start.spends(self, 2 * i as nat),
                start.inside(value) ==> if self.acyclic {
                    turns(start.graph())
                } else {
                    start.grew(self, value, Own::Bits) && forall|k: int|
                        0 <= k < i ==> self.settled((#[trigger] bits@[k]).value)
                },
                fuel > 0,
                start == *old(self),
                place == Place::Inside(value),
                forall|k: int|
                    0 <= k < i ==> held(
                        self.source@,
                        self.source_to_local@,
                        self.visiting@,
                        (#[trigger] bits@[k]).value,
                    ),
                start.passed(self, place, i as nat, 2 * i as nat),
                start.inv(),
                !start.border(value),
                start.within(value),
                start.went_on(self),
                start.source@.has(value),
                start.source@.kind(value) == KindView::Signal(reference),
                ty == start.source@.ty(value),
                bits@.len() == reference.width == ty.width,
                forall|k: int|
                    0 <= k < bits@.len() ==> Some(#[trigger] bits@[k]) == start.drivers.driver_at(
                        reference,
                        k,
                    ),
                forall|k: int|
                    0 <= k < bits@.len() ==> start.source@.has((#[trigger] bits@[k]).value)
                        && bits@[k].bit < start.source@.ty(bits@[k].value).width,
                i <= bits@.len(),
                parts@.len() == i,
                forall|k: int|
                    0 <= k < parts@.len() ==> bit_agrees(self.x(), value, k, #[trigger] parts@[k]),
            decreases bits.len() - i,
        {
            let ghost before = *self;
            proof {
                lemma_driver_part(&start, value, reference, i as int);
                lemma_part_reached(start.graph(), value, bits@[i as int].value);
                lemma_marks_reach(start.graph(), start.visiting@, value, bits@[i as int].value);
                if start.inside(value) && !before.acyclic {
                    lemma_driver_part(&start, value, reference, i as int);
                    lemma_ready_on(&start, &before, value, bits@[i as int].value);
                }
            }
            let driver = bits[i].value;
            let at: u32 = bits[i].bit;
            let part: ValueId = if self.visiting[driver.raw as usize] {
                if let Err(error) = self.validate_once() {
                    proof {
                        lemma_pending(&before, self);
                        lemma_passed_few(&start, &before, self, place, i as nat, 2 * i as nat, 0);
                        lemma_costs(&start, self, place, i as nat, 2 * i as nat);
                        assert(stuck(
                            start.graph(),
                            start.visiting@,
                            Place::Whole(driver),
                            error,
                        )) by {
                            reveal(stuck);
                        }
                        lemma_stuck(
                            start.graph(),
                            start.visiting@,
                            Place::Whole(driver),
                            fuel - 1,
                            1,
                            error,
                        );
                        lemma_driver_stops(
                            &start,
                            &before,
                            self,
                            value,
                            reference,
                            i as int,
                            Place::Whole(driver),
                            fuel as int,
                            error,
                        );
                    }
                    return Err(error);
                }
                let ghost checked = *self;
                proof {
                    if start.inside(value) && !before.acyclic {
                        lemma_driver_part(&start, value, reference, i as int);
                        lemma_turns(start.graph(), start.import_path@, driver);
                    }
                }
                let carried = self.import_value_bit(driver, at, span, fuel - 1);
                proof {
                    let next = Place::Bit(driver, at as int);
                    lemma_driver_leads(&start, value, reference, i as int, next);
                    assert(size(checked.module@) <= size(before.module@));
                    lemma_passed_few(&start, &before, &checked, place, i as nat, 2 * i as nat, 0);
                    lemma_passed(&start, &checked, self, place, next, i as nat, 2 * i as nat);
                    lemma_costs(&start, self, place, i as nat + 1, 2 * i as nat);
                    lemma_passed_more(
                        &start,
                        self,
                        place,
                        i as nat + 1,
                        2 * i as nat,
                        i as nat + 1,
                        2 * (i + 1) as nat,
                    );
                }
                match carried {
                    Ok(part) => part,
                    Err(error) => {
                        proof {
                            lemma_driver_stops(
                                &start,
                                &checked,
                                self,
                                value,
                                reference,
                                i as int,
                                Place::Bit(driver, at as int),
                                fuel as int,
                                error,
                            );
                        }
                        return Err(error);
                    },
                }
            } else {
                let carried = self.import(driver, fuel - 1);
                proof {
                    let next = Place::Whole(driver);
                    lemma_driver_leads(&start, value, reference, i as int, next);
                    lemma_passed(&start, &before, self, place, next, i as nat, 2 * i as nat);
                    lemma_costs(&start, self, place, i as nat + 1, 2 * i as nat);
                }
                let whole = match carried {
                    Ok(whole) => whole,
                    Err(error) => {
                        proof {
                            lemma_driver_stops(
                                &start,
                                &before,
                                self,
                                value,
                                reference,
                                i as int,
                                Place::Whole(driver),
                                fuel as int,
                                error,
                            );
                        }
                        return Err(error);
                    },
                };
                let ghost between = *self;
                let extracted = self.extract_local_bit(whole, at, span, Ghost(driver));
                proof {
                    lemma_passed_few(
                        &start,
                        &between,
                        self,
                        place,
                        i as nat + 1,
                        2 * i as nat,
                        2,
                    );
                    lemma_costs(&start, self, place, i as nat + 1, 2 * i as nat + 2);
                    if start.inside(value) && !between.acyclic {
                        lemma_uses(&start, &between, self, 2 * i as nat, 2);
                    }
                }
                let part = match extracted {
                    Ok(part) => part,
                    Err(error) => return Err(error),
                };
                proof {
                    lemma_step_trans(before.x(), between.x(), self.x());
                    if start.inside(value) && !before.acyclic {
                        lemma_driver_part(&start, value, reference, i as int);
                        lemma_ready_on(&start, &before, value, driver);
                        if !between.acyclic {
                            lemma_grew_part(&start, &before, &between, value, driver, Own::Bits);
                            assert forall|k: int|
                                between.operation_sources@.len() <= k
                                    < self.operation_sources@.len() implies #[trigger] self.made_own(
                                value,
                                Own::Bits,
                                k,
                            ) by {
                                assert(self.module@.operations[k].kind == (OpView::Extract {
                                    value: whole,
                                    lsb: at,
                                    width: 1,
                                }));
                                assert(self.graph() == start.graph());
                                assert(takes_at(
                                    self.graph(),
                                    self.module@,
                                    self.source_to_local@,
                                    reference,
                                    k,
                                    i as int,
                                ));
                            }
                            lemma_grew_own(&start, &between, self, value, Own::Bits);
                        }
                    }
                }
                part
            };
            let ghost row = parts@;
            parts.push(part);
            proof {
                assert(before.source_to_local@.len() == before.source@.values.len()) by {
                    reveal(memory_ok);
                }
                assert forall|k: int| 0 <= k < i + 1 implies held(
                    self.source@,
                    self.source_to_local@,
                    self.visiting@,
                    (#[trigger] bits@[k]).value,
                ) by {
                    if k < i {
                        lemma_held_on(&before, self, bits@[k].value);
                    }
                }
                lemma_step_trans(start.x(), before.x(), self.x());
                if start.inside(value) && self.acyclic && !before.acyclic && start.visiting@[driver.raw as int] {
                    lemma_driver_part(&start, value, reference, i as int);
                    lemma_turns(start.graph(), start.import_path@, driver);
                }
                lemma_driver_bit(&start, self.x(), value, reference, i as int, part);
                assert forall|k: int| 0 <= k < parts@.len() implies bit_agrees(
                    self.x(),
                    value,
                    k,
                    #[trigger] parts@[k],
                ) by {
                    if k < row.len() {
                        lemma_bit_step(before.x(), self.x(), value, k, row[k]);
                    }
                }
            }
            i += 1;
        }
        let ghost middle = *self;
        let result = self.assemble(&parts, ty, span, Ghost(value));
        proof {
            if result is Ok {
                assert forall|part: ValueId| #[trigger]
                    made_of(self.graph(), value, part) implies held(
                    self.source@,
                    self.source_to_local@,
                    self.visiting@,
                    part,
                ) by {
                    let bit = choose|bit: int|
                        0 <= bit < reference.width && (#[trigger] start.drivers.driver_at(
                            reference,
                            bit,
                        ) matches Some(found) && found.value == part);
                    assert(bits@[bit].value == part);
                    assert(middle.source_to_local@.len() == middle.source@.values.len()) by {
                        reveal(memory_ok);
                    }
                    lemma_held_on(&middle, self, part);
                }
            }
            assert(start.source@.value_ok(value.raw as int));
            lemma_passed_few(&start, &middle, self, place, i as nat, 2 * i as nat, 4);
            lemma_costs(&start, self, place, i as nat, 2 * i as nat + 4);
            if start.inside(value) && !middle.acyclic {
                lemma_uses(&start, &middle, self, 2 * i as nat, 4);
            }
            if result is Ok {
                lemma_step_trans(start.x(), middle.x(), self.x());
                if start.inside(value) && !middle.acyclic {
                    let local = result->Ok_0;
                    lemma_grew_bits(&start, &middle, value, local);
                    assert(self.graph() == start.graph());
                    assert forall|k: int|
                        middle.operation_sources@.len() <= k < self.operation_sources@.len() implies #[trigger] self.made_own(
                        value,
                        Own::Result(local),
                        k,
                    ) by {
                        assert(joins_at(self.module@, k, local));
                    }
                    lemma_grew_own(&start, &middle, self, value, Own::Result(local));
                    lemma_pieces_settled(&start, self, value, reference, bits@);
                }
            }
        }
        result
    }

    /// One bit of a value.
    pub fn import_value_bit(&mut self, value: ValueId, bit: u32, span: SourceSpan, fuel: u128)
        -> (result: Result<ValueId, SynthError>)
        requires
            old(self).inv(),
            old(self).within(value),
        ensures
            old(self).costs(final(self), Place::Bit(value, bit as int)),
            result matches Ok(local) ==> old(self).went_on(final(self)) && bit_agrees(
                final(self).x(),
                value,
                bit as int,
                local,
            ),
            result matches Err(error) ==> old(self).bit_stops(
                final(self),
                value,
                bit as int,
                fuel as int,
                error,
            ),
        decreases fuel,
    {
        let ghost start = *self;
        let ghost place = Place::Bit(value, bit as int);
        proof {
            lemma_few_cost(&start, self, place);
            lemma_nothing_passed(&start, self, place);
        }
        if fuel == 0 {
            proof {
                lemma_stops_spent(&start, self, Place::Bit(value, bit as int), 0, 1);
            }
            return Err(SynthError::Invariant(Invariant::CombinationalCycle));
        }
        if let Some(local) = self.recall(0, value.raw as u64, bit as u64, 0) {
            assert(ValueId { raw: value.raw as u64 as u32 } == value);
            self.extend_sources(local);
            proof {
                lemma_few_cost(&start, self, place);
            }
            return Ok(local);
        }
        if value.raw as usize >= self.source.values.len() {
            return Err(SynthError::Invariant(Invariant::UnknownValue));
        }
        if bit >= self.source.values[value.raw as usize].ty.width {
            return Err(SynthError::Invariant(Invariant::MissingBit));
        }
        let local: ValueId = if self.visiting[value.raw as usize] {
            let carried = self.import_active_value_bit(value, bit, span, fuel - 1);
            let ghost next = Place::Active(value, bit as int);
            proof {
                assert(leads(start.graph(), start.visiting@, place, start.visiting@, next)) by {
                    reveal(leads);
                }
                lemma_passed(&start, &start, self, place, next, 0, 0);
                lemma_costs(&start, self, place, 1, 0);
            }
            match carried {
                Ok(local) => local,
                Err(error) => {
                    proof {
                        lemma_stops_next(
                            &start,
                            &start,
                            self,
                            Place::Bit(value, bit as int),
                            fuel as int,
                            1,
                            next,
                            fuel - 1,
                            error,
                        );
                    }
                    return Err(error);
                },
            }
        } else {
            let carried = self.import(value, fuel - 1);
            let ghost next = Place::Whole(value);
            proof {
                assert(leads(start.graph(), start.visiting@, place, start.visiting@, next)) by {
                    reveal(leads);
                }
                lemma_passed(&start, &start, self, place, next, 0, 0);
                lemma_costs(&start, self, place, 1, 0);
            }
            let whole = match carried {
                Ok(whole) => whole,
                Err(error) => {
                    proof {
                        lemma_stops_next(
                            &start,
                            &start,
                            self,
                            Place::Bit(value, bit as int),
                            fuel as int,
                            1,
                            next,
                            fuel - 1,
                            error,
                        );
                    }
                    return Err(error);
                },
            };
            let ghost between = *self;
            let extracted = self.extract_local_bit(whole, bit, span, Ghost(value));
            proof {
                lemma_passed_few(&start, &between, self, place, 1, 0, 2);
                lemma_costs(&start, self, place, 1, 2);
            }
            let part = match extracted {
                Ok(part) => part,
                Err(error) => return Err(error),
            };
            proof {
                lemma_step_trans(start.x(), between.x(), self.x());
            }
            part
        };
        let ghost made = *self;
        assert(ValueId { raw: value.raw as u64 as u32 } == value);
        self.remember(0, value.raw as u64, bit as u64, 0, local);
        proof {
            lemma_step_trans(start.x(), made.x(), self.x());
            lemma_costs_on(&start, &start, &made, self, place);
        }
        Ok(local)
    }

    /// One bit of a value that is being carried over.
    fn import_active_value_bit(&mut self, value: ValueId, bit: u32, span: SourceSpan, fuel: u128)
        -> (result: Result<ValueId, SynthError>)
        requires
            old(self).inv(),
            old(self).within(value),
            old(self).visiting@[value.raw as int],
            old(self).source@.has(value),
            bit < old(self).source@.ty(value).width,
        ensures
            old(self).costs(final(self), Place::Active(value, bit as int)),
            result matches Ok(local) ==> old(self).went_on(final(self)) && bit_agrees(
                final(self).x(),
                value,
                bit as int,
                local,
            ),
            result matches Err(error) ==> old(self).stops(
                final(self),
                Place::Active(value, bit as int),
                fuel as int,
                1,
                error,
            ),
        decreases fuel,
    {
        let ghost start = *self;
        let ghost place = Place::Active(value, bit as int);
        proof {
            lemma_few_cost(&start, self, place);
            lemma_nothing_passed(&start, self, place);
        }
        if fuel == 0 {
            proof {
                lemma_stops_spent(&start, self, Place::Active(value, bit as int), 0, 1);
            }
            return Err(SynthError::Invariant(Invariant::CombinationalCycle));
        }
        assert(self.source@.value_ok(value.raw as int));
        let whole: ValueId = match &self.source.values[value.raw as usize].kind {
            ValueKind::Signal(found) => {
                let reference = *found;
                assert(self.drivers.bits@[reference.signal.raw as int]@.len()
                    == self.source@.signals[reference.signal.raw as int].ty.width);
                let bits = match self.drivers.resolve_reference(reference) {
                    Some(bits) => bits,
                    None => {
                        proof {
                            let error = SynthError::Invariant(Invariant::BrokenSource);
                            assert(stuck(start.graph(), start.visiting@, place, error)) by {
                                reveal(stuck);
                            }
                            lemma_stuck(
                                start.graph(),
                                start.visiting@,
                                place,
                                fuel as int,
                                1,
                                error,
                            );
                        }
                        return Err(SynthError::Invariant(Invariant::BrokenSource));
                    },
                };
                let driver = bits[bit as usize];
                proof {
                    lemma_driver_part(&start, value, reference, bit as int);
                    lemma_part_reached(start.graph(), value, driver.value);
                    lemma_marks_reach(start.graph(), start.visiting@, value, driver.value);
                }
                let result = self.import_value_bit(driver.value, driver.bit, span, fuel - 1);
                proof {
                    lemma_driven_read(&start, value, reference, bit as int);
                    let next = Place::Bit(driver.value, driver.bit as int);
                    assert(leads(start.graph(), start.visiting@, place, start.visiting@, next)) by {
                        reveal(leads);
                    }
                    lemma_passed(&start, &start, self, place, next, 0, 0);
                    lemma_costs(&start, self, place, 1, 0);
                    if result is Err {
                        let error = result->Err_0;
                            lemma_stops_next(
                                &start,
                                &start,
                                self,
                                Place::Active(value, bit as int),
                                fuel as int,
                                1,
                                next,
                                fuel - 1,
                                error,
                            );
                    }
                    if result is Ok {
                        lemma_driver_bit(
                            &start,
                            self.x(),
                            value,
                            reference,
                            bit as int,
                            result->Ok_0,
                        );
                    }
                }
                return result;
            },
            ValueKind::Operation(found) => {
                let operation = *found;
                if self.is_local(operation) && !self.operation_is_state(operation) {
                    proof {
                        lemma_operands_within(self, operation);
                    }
                    let result = self.import_active_operation_bit(operation, bit, span, fuel - 1);
                    proof {
                        let next = Place::OperationBit(operation, bit as int);
                        assert(leads(start.graph(), start.visiting@, place, start.visiting@, next)) by {
                            reveal(leads);
                        }
                        lemma_passed(&start, &start, self, place, next, 0, 0);
                        lemma_costs(&start, self, place, 1, 0);
                        if result is Err {
                            let error = result->Err_0;
                            lemma_stops_next(
                                &start,
                                &start,
                                self,
                                Place::Active(value, bit as int),
                                fuel as int,
                                1,
                                next,
                                fuel - 1,
                                error,
                            );
                        }
                    }
                    return result;
                }
                assert(false);
                match self.import_boundary(value) {
                    Ok(whole) => whole,
                    Err(error) => return Err(error),
                }
            },
            ValueKind::Constant(_) => {
                let made = self.import_constant(value);
                proof {
                    lemma_few_cost(&start, self, place);
                }
                match made {
                    Ok(whole) => whole,
                    Err(error) => return Err(error),
                }
            },
        };
        let ghost between = *self;
        let extracted = self.extract_local_bit(whole, bit, span, Ghost(value));
        proof {
            lemma_few_cost(&start, self, place);
        }
        let part = match extracted {
            Ok(part) => part,
            Err(error) => return Err(error),
        };
        proof {
            lemma_step_trans(start.x(), between.x(), self.x());
        }
        Ok(part)
    }
}

/// A read leads to what drives it.
proof fn lemma_driver_leads(
    start: &RegionalWordImporter,
    value: ValueId,
    reference: SignalRef,
    bit: int,
    next: Place,
)
    requires
        start.source@.kind(value) == KindView::Signal(reference),
        !start.border(value),
        driven_by(start.graph(), start.visiting@, reference, bit, next),
    ensures
        leads(start.graph(), start.visiting@, Place::Inside(value), start.visiting@, next),
{
    reveal(leads);
}

/// Carrying a driver of a read over stopped, so carrying the read over does.
proof fn lemma_driver_stops(
    start: &RegionalWordImporter,
    before: &RegionalWordImporter,
    after: &RegionalWordImporter,
    value: ValueId,
    reference: SignalRef,
    bit: int,
    next: Place,
    fuel: int,
    error: SynthError,
)
    requires
        start.same_frame(before),
        start.source@.kind(value) == KindView::Signal(reference),
        !start.border(value),
        driven_by(start.graph(), start.visiting@, reference, bit, next),
        before.stops(after, next, fuel - 1, 1, error),
    ensures
        start.stops(after, Place::Inside(value), fuel, 1, error),
{
    assert(leads(start.graph(), start.visiting@, Place::Inside(value), start.visiting@, next)) by {
        reveal(leads);
    }
    lemma_stops_next(start, before, after, Place::Inside(value), fuel, 1, next, fuel - 1, error);
}

/// A bit that stands for a driver stands for what it drives.
pub proof fn lemma_driver_bit(
    start: &RegionalWordImporter,
    y: Import,
    value: ValueId,
    reference: SignalRef,
    bit: int,
    local: ValueId,
)
    requires
        start.inv(),
        step(start.x(), y),
        start.source@.has(value),
        start.source@.kind(value) == KindView::Signal(reference),
        0 <= bit < reference.width,
        start.drivers.driver_at(reference, bit) is Some,
        bit_agrees(
            y,
            start.drivers.driver_at(reference, bit)->0.value,
            start.drivers.driver_at(reference, bit)->0.bit as int,
            local,
        ),
    ensures
        bit_agrees(y, value, bit, local),
{
    lemma_driven_read(start, value, reference, bit);
    lemma_step_linked(start.x(), y);
    let driver = start.drivers.driver_at(reference, bit)->0;
    assert forall|outer: Env, inner: Env| #[trigger] linked(y, outer, inner) implies word_of(
        y.module,
        inner,
        local,
    ) == seq![word_of(y.source, outer, value)[bit]] by {
        assert(linked(start.x(), outer, inner));
    }
}

} // verus!
