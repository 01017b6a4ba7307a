//! How many identifiers carrying a place over takes.
//!
//! A value is carried over once. What it takes is counted along what its inside leads to,
//! as far as that is being carried over itself: every place that is passed multiplies
//! what is taken by how often it goes on from there.

use super::failure::{
    cost, deep, driven_by, leads, lemma_inside_ends, operand_bit, operand_place, part_bit, Graph,
    Place, ENOUGH_FUEL,
};
use super::following::{from_wanted, reaches, size};
use super::importer::{marks_reach, memory_ok, select_stages, RegionalWordImporter};
use crate::word::cycle::part_place;
use crate::word::module::{KindView, ModuleView};
use crate::word::types::{op_inputs, OpId, OpView, ValueId};
use vstd::prelude::*;

verus! {

/// How many identifiers are taken at most besides for each time that it goes on from a
/// place.
pub open spec fn fee() -> nat {
    8
}

/// How often the steps of a dynamic extraction go on, at most.
pub open spec fn barrel_breadth(stage: nat) -> nat
    decreases stage,
{
    if stage == 0 {
        1
    } else {
        2 * barrel_breadth((stage - 1) as nat) + 1
    }
}

/// How often it goes on from a place, at most.
pub open spec fn breadth(source: ModuleView, place: Place) -> nat {
    match place {
        Place::Inside(value) => match source.kind(value) {
            KindView::Signal(reference) => at_least_once(reference.width as nat),
            _ => 1,
        },
        Place::Operands(operation, _) => at_least_once(
            op_inputs(source.operations[operation.raw as int].kind).len(),
        ),
        Place::Bits(value) => at_least_once(source.ty(value).width as nat),
        Place::OperationBit(operation, _) => match source.operations[operation.raw as int].kind {
            OpView::Binary { op, left, right } => 2,
            OpView::Mux { cond, then_value, else_value } => 3,
            _ => 1,
        },
        Place::Extraction(operation) => match source.operations[operation.raw as int].kind {
            OpView::DynamicExtract { value, offset, width } => barrel_breadth(
                select_stages(source.ty(offset).width as nat, source.ty(value).width as nat),
            ) + source.ty(offset).width as nat,
            _ => 1,
        },
        _ => 1,
    }
}

pub open spec fn at_least_once(count: nat) -> nat {
    if count == 0 {
        1
    } else {
        count
    }
}

/// What is taken at a place stays within a limit where all that it leads to takes no
/// more than a share.
pub open spec fn affords(source: ModuleView, place: Place, share: nat, limit: nat) -> bool {
    breadth(source, place) * (share + fee()) <= limit
}

/// Carrying a place over takes no more identifiers than a limit, besides what values take
/// that are not being carried over: dependencies end after some steps, and what is taken
/// on the way stays within the limit.
pub open spec fn fits(
    graph: Graph,
    visiting: Seq<bool>,
    place: Place,
    steps: nat,
    limit: nat,
) -> bool
    decreases steps,
{
    steps > 0 && exists|share: nat| #[trigger]
        affords(graph.source, place, share, limit) && forall|next: Place| #[trigger]
            leads(graph, visiting, place, visiting, next) ==> fits(
                graph,
                visiting,
                next,
                (steps - 1) as nat,
                share,
            )
}

/// Whatever a place leads to takes no more than a share.
pub open spec fn pays(
    graph: Graph,
    visiting: Seq<bool>,
    place: Place,
    steps: nat,
    share: nat,
) -> bool {
    steps > 0 && forall|next: Place| #[trigger]
        leads(graph, visiting, place, visiting, next) ==> fits(
            graph,
            visiting,
            next,
            (steps - 1) as nat,
            share,
        )
}

impl<'a> RegionalWordImporter<'a> {
    /// Carrying a place over took no more than what it takes.
    #[verifier::opaque]
    pub open spec fn costs(&self, after: &Self, place: Place) -> bool {
        forall|steps: nat, limit: nat| #[trigger]
            fits(self.graph(), self.visiting@, place, steps, limit) && toll(self.graph()) is Some
                ==> after.volume() <= self.volume() + limit
    }

    /// It went on from a place so many times, and so many identifiers were taken besides.
    #[verifier::opaque]
    pub open spec fn passed(&self, after: &Self, place: Place, count: nat, used: nat) -> bool {
        forall|steps: nat, share: nat| #[trigger]
            pays(self.graph(), self.visiting@, place, steps, share) && toll(self.graph()) is Some
                ==> after.volume() <= self.volume() + count * share + used
    }
}

/// Nothing was taken yet.
pub proof fn lemma_nothing_passed(
    start: &RegionalWordImporter,
    after: &RegionalWordImporter,
    place: Place,
)
    requires
        start.stands_still(after, 0),
    ensures
        start.passed(after, place, 0, 0),
{
    reveal(RegionalWordImporter::passed);
    lemma_open(start, after);
    assert forall|steps: nat, share: nat| #[trigger]
        pays(start.graph(), start.visiting@, place, steps, share)
        && toll(start.graph()) is Some implies after.volume() <= start.volume() + 0 * share + 0 by {
        assert(0 * share == 0);
    }
}

/// It went on once more, to what the place leads to.
pub proof fn lemma_passed(
    start: &RegionalWordImporter,
    before: &RegionalWordImporter,
    after: &RegionalWordImporter,
    place: Place,
    next: Place,
    count: nat,
    used: nat,
)
    requires
        start.passed(before, place, count, used),
        leads(start.graph(), start.visiting@, place, start.visiting@, next),
        before.graph() == start.graph(),
        before.visiting@ == start.visiting@,
        before.costs(after, next),
    ensures
        start.passed(after, place, count + 1, used),
{
    reveal(RegionalWordImporter::passed);
    reveal(RegionalWordImporter::costs);
    assert forall|steps: nat, share: nat| #[trigger]
        pays(start.graph(), start.visiting@, place, steps, share)
        && toll(start.graph()) is Some implies after.volume() <= start.volume() + (count + 1) * share + used by {
        assert(fits(before.graph(), before.visiting@, next, (steps - 1) as nat, share));
        assert((count + 1) * share == count * share + share) by (nonlinear_arith);
    }
}

/// A few identifiers were taken besides.
pub proof fn lemma_passed_few(
    start: &RegionalWordImporter,
    before: &RegionalWordImporter,
    after: &RegionalWordImporter,
    place: Place,
    count: nat,
    used: nat,
    more: nat,
)
    requires
        start.passed(before, place, count, used),
        before.stands_still(after, more),
    ensures
        start.passed(after, place, count, used + more),
{
    reveal(RegionalWordImporter::passed);
    lemma_open(before, after);
}

/// Two parts of what goes on from one place.
pub proof fn lemma_passed_both(
    start: &RegionalWordImporter,
    before: &RegionalWordImporter,
    after: &RegionalWordImporter,
    place: Place,
    first: nat,
    first_used: nat,
    second: nat,
    second_used: nat,
)
    requires
        start.passed(before, place, first, first_used),
        before.passed(after, place, second, second_used),
        before.graph() == start.graph(),
        before.visiting@ == start.visiting@,
    ensures
        start.passed(after, place, first + second, first_used + second_used),
{
    reveal(RegionalWordImporter::passed);
    assert forall|steps: nat, share: nat| #[trigger]
        pays(start.graph(), start.visiting@, place, steps, share)
        && toll(start.graph()) is Some implies after.volume() <= start.volume() + (first + second) * share + first_used + second_used by {
        assert(pays(before.graph(), before.visiting@, place, steps, share));
        assert((first + second) * share == first * share + second * share) by (nonlinear_arith);
    }
}

/// More room is room enough.
pub proof fn lemma_passed_more(
    start: &RegionalWordImporter,
    after: &RegionalWordImporter,
    place: Place,
    count: nat,
    used: nat,
    more: nat,
    more_used: nat,
)
    requires
        start.passed(after, place, count, used),
        count <= more,
        used <= more_used,
    ensures
        start.passed(after, place, more, more_used),
{
    reveal(RegionalWordImporter::passed);
    assert forall|steps: nat, share: nat| #[trigger]
        pays(start.graph(), start.visiting@, place, steps, share)
        && toll(start.graph()) is Some implies after.volume() <= start.volume() + more * share + more_used by {
        assert(count * share <= more * share) by (nonlinear_arith)
            requires
                count <= more,
        ;
    }
}

/// A place was carried over.
pub proof fn lemma_costs(
    start: &RegionalWordImporter,
    after: &RegionalWordImporter,
    place: Place,
    count: nat,
    used: nat,
)
    requires
        start.passed(after, place, count, used),
        count <= breadth(start.source@, place),
        used <= fee() * breadth(start.source@, place),
    ensures
        start.costs(after, place),
{
    reveal(RegionalWordImporter::passed);
    reveal(RegionalWordImporter::costs);
    assert forall|steps: nat, limit: nat| #[trigger]
        fits(start.graph(), start.visiting@, place, steps, limit)
        && toll(start.graph()) is Some implies after.volume() <= start.volume() + limit by {
        let share = choose|share: nat| #[trigger]
            affords(start.graph().source, place, share, limit) && forall|next: Place| #[trigger]
                leads(start.graph(), start.visiting@, place, start.visiting@, next) ==> fits(
                    start.graph(),
                    start.visiting@,
                    next,
                    (steps - 1) as nat,
                    share,
                );
        assert(pays(start.graph(), start.visiting@, place, steps, share));
        let wide = breadth(start.graph().source, place);
        assert(count * share + fee() * wide <= wide * (share + fee())) by (nonlinear_arith)
            requires
                count <= wide,
        ;
    }
}

proof fn lemma_breadth(source: ModuleView, place: Place)
    ensures
        breadth(source, place) >= 1,
{
    if let Place::Extraction(operation) = place {
        if let OpView::DynamicExtract { value, offset, width } = source.operations[operation.raw as int].kind {
            let stages = select_stages(
                source.ty(offset).width as nat,
                source.ty(value).width as nat,
            );
            assert(barrel_breadth(stages) >= 1);
        }
    }
}

/// A few identifiers are room enough for every place.
pub proof fn lemma_few_cost(
    start: &RegionalWordImporter,
    after: &RegionalWordImporter,
    place: Place,
)
    requires
        start.stands_still(after, fee()),
    ensures
        start.costs(after, place),
{
    lemma_nothing_passed(start, start, place);
    lemma_passed_few(start, start, after, place, 0, 0, fee());
    assert(breadth(start.source@, place) >= 1) by {
        lemma_breadth(start.source@, place);
    }
    lemma_costs(start, after, place, 0, fee());
}

/// What comes after what took nothing.
pub proof fn lemma_costs_on(
    start: &RegionalWordImporter,
    before: &RegionalWordImporter,
    after: &RegionalWordImporter,
    last: &RegionalWordImporter,
    place: Place,
)
    requires
        start.stands_still(before, 0),
        before.costs(after, place),
        after.stands_still(last, 0),
    ensures
        start.costs(last, place),
{
    reveal(RegionalWordImporter::costs);
    lemma_open(start, before);
    lemma_open(after, last);
    assert forall|steps: nat, limit: nat| #[trigger]
        fits(start.graph(), start.visiting@, place, steps, limit)
        && toll(start.graph()) is Some implies last.volume() <= start.volume() + limit by {
        assert(fits(before.graph(), before.visiting@, place, steps, limit));
    }
}

/// How many flags are set.
pub open spec fn tally(flags: Seq<bool>) -> nat
    decreases flags.len(),
{
    if flags.len() == 0 {
        0
    } else {
        tally(flags.drop_last()) + if flags.last() {
            1nat
        } else {
            0nat
        }
    }
}

/// Fewer flags count less.
pub proof fn lemma_tally_less(fewer: Seq<bool>, flags: Seq<bool>)
    requires
        fewer.len() == flags.len(),
        forall|v: int| 0 <= v < flags.len() && #[trigger] fewer[v] ==> flags[v],
    ensures
        tally(fewer) <= tally(flags),
    decreases flags.len(),
{
    if flags.len() > 0 {
        assert forall|v: int| 0 <= v < flags.drop_last().len() && #[trigger] fewer.drop_last()[v] implies
            flags.drop_last()[v] by {
            assert(fewer[v]);
        }
        lemma_tally_less(fewer.drop_last(), flags.drop_last());
        assert(fewer[flags.len() - 1] ==> flags[flags.len() - 1]);
    }
}

/// A flag that was cleared counts no more.
pub proof fn lemma_tally_cleared(fewer: Seq<bool>, flags: Seq<bool>, i: int)
    requires
        fewer.len() == flags.len(),
        forall|v: int| 0 <= v < flags.len() && #[trigger] fewer[v] ==> flags[v],
        0 <= i < flags.len(),
        flags[i],
        !fewer[i],
    ensures
        tally(fewer) + 1 <= tally(flags),
    decreases flags.len(),
{
    assert forall|v: int| 0 <= v < flags.drop_last().len() && #[trigger] fewer.drop_last()[v] implies
        flags.drop_last()[v] by {
        assert(fewer[v]);
    }
    assert(fewer[flags.len() - 1] ==> flags[flags.len() - 1]);
    if i == flags.len() - 1 {
        lemma_tally_less(fewer.drop_last(), flags.drop_last());
    } else {
        lemma_tally_cleared(fewer.drop_last(), flags.drop_last(), i);
    }
}

/// All that leads to a value.
pub open spec fn back_marks(graph: Graph, value: ValueId) -> Seq<bool> {
    Seq::new(
        graph.source.values.len(),
        |v: int| reaches(graph, ValueId { raw: v as u32 }, value),
    )
}

/// The values that are reached from wanted ones.
pub open spec fn reached_marks(graph: Graph) -> Seq<bool> {
    Seq::new(graph.source.values.len(), |v: int| from_wanted(graph, ValueId { raw: v as u32 }))
}

/// How many values are reached from wanted ones.
pub open spec fn reached_count(graph: Graph) -> nat {
    tally(reached_marks(graph))
}

/// Every value fits within a limit and so many steps, whatever leads to it is being carried
/// over.
pub open spec fn all_fit(graph: Graph, steps: nat, limit: nat) -> bool {
    forall|value: ValueId|
        graph.source.has(value) && from_wanted(graph, value) ==> #[trigger] fits(
            graph,
            back_marks(graph, value),
            Place::Inside(value),
            steps,
            limit,
        )
}

/// Every value fits within a limit.
pub open spec fn roomy(graph: Graph, limit: nat) -> bool {
    exists|steps: nat| #[trigger] all_fit(graph, steps, limit)
}

/// The least limit within which every value fits, if there is one.
pub open spec fn toll(graph: Graph) -> Option<nat> {
    if exists|limit: nat| #[trigger] roomy(graph, limit) {
        Some(
            choose|limit: nat| #[trigger]
                roomy(graph, limit) && forall|less: nat| less < limit ==> !(#[trigger] roomy(
                    graph,
                    less,
                )),
        )
    } else {
        None
    }
}

proof fn lemma_least(graph: Graph, limit: nat)
    requires
        roomy(graph, limit),
    ensures
        exists|least: nat| #[trigger]
            roomy(graph, least) && least <= limit && forall|less: nat|
                less < least ==> !(#[trigger] roomy(graph, less)),
    decreases limit,
{
    if exists|less: nat| less < limit && #[trigger] roomy(graph, less) {
        let less = choose|less: nat| less < limit && #[trigger] roomy(graph, less);
        lemma_least(graph, less);
    }
}

/// Where every value fits within a limit, the least such limit is no more.
pub proof fn lemma_toll(graph: Graph, limit: nat)
    requires
        roomy(graph, limit),
    ensures
        toll(graph) matches Some(least) && least <= limit && roomy(graph, least),
{
    lemma_least(graph, limit);
    let least = choose|limit: nat| #[trigger]
        roomy(graph, limit) && forall|less: nat| less < limit ==> !(#[trigger] roomy(graph, less));
    assert(toll(graph) == Some(least));
    if limit < least {
        assert(!roomy(graph, limit));
    }
}

/// How many places a place leads to, at most.
spec fn fan(source: ModuleView, place: Place) -> nat {
    match place {
        Place::Inside(value) => match source.kind(value) {
            KindView::Signal(reference) => 2 * reference.width as nat,
            _ => 1,
        },
        Place::Operands(operation, _) => op_inputs(
            source.operations[operation.raw as int].kind,
        ).len(),
        Place::Bits(value) => source.ty(value).width as nat,
        Place::OperationBit(operation, _) => match source.operations[operation.raw as int].kind {
            OpView::Concat { parts } => parts.len(),
            _ => 5,
        },
        Place::Extraction(operation) => match source.operations[operation.raw as int].kind {
            OpView::DynamicExtract { value, offset, width } => (source.ty(value).width
                + source.ty(offset).width) as nat,
            _ => 0,
        },
        _ => 1,
    }
}

/// The places that a bit of an operation leads to, listed.
spec fn bit_step(source: ModuleView, operation: OpId, bit: int, i: int) -> Place {
    match source.operations[operation.raw as int].kind {
        OpView::Unary { op, arg } => if i == 0 {
            Place::Operands(operation, false)
        } else if i == 1 {
            Place::Bit(arg, bit)
        } else {
            Place::Bit(arg, 0)
        },
        OpView::Binary { op, left, right } => if i == 0 {
            Place::Operands(operation, false)
        } else if i == 1 {
            operand_bit(source, left, bit)
        } else if i == 2 {
            operand_bit(source, right, bit)
        } else if i == 3 {
            Place::Bit(left, 0)
        } else {
            Place::Bit(right, 0)
        },
        OpView::Mux { cond, then_value, else_value } => if i == 0 {
            Place::Whole(cond)
        } else if i == 1 {
            Place::Bit(then_value, bit)
        } else {
            Place::Bit(else_value, bit)
        },
        OpView::Concat { parts } => Place::Bit(parts[i], part_place(source, parts, i, bit)),
        OpView::Extract { value, lsb, width } => Place::Bit(value, lsb + bit),
        OpView::Cast { kind, value, target } => operand_bit(source, value, bit),
        OpView::DynamicExtract { value, offset, width } => Place::Extraction(operation),
        _ => Place::Operands(operation, false),
    }
}

/// The places that a place leads to, listed.
spec fn step_at(graph: Graph, visiting: Seq<bool>, place: Place, i: int) -> (Seq<bool>, Place) {
    let source = graph.source;
    match place {
        Place::Whole(value) => if visiting[value.raw as int] {
            (visiting, Place::Bits(value))
        } else {
            (visiting.update(value.raw as int, true), Place::Inside(value))
        },
        Place::Inside(value) => match source.kind(value) {
            KindView::Signal(reference) => if i < reference.width {
                (visiting, Place::Whole(graph.drivers.driver_at(reference, i)->0.value))
            } else {
                let driver = graph.drivers.driver_at(reference, i - reference.width)->0;
                (visiting, Place::Bit(driver.value, driver.bit as int))
            },
            KindView::Operation(operation) => (visiting, Place::Operands(operation, true)),
            _ => (visiting, place),
        },
        Place::Operands(operation, whole) => (
            visiting,
            operand_place(op_inputs(source.operations[operation.raw as int].kind)[i], whole),
        ),
        Place::Bits(value) => (visiting, Place::Bit(value, i)),
        Place::Bit(value, bit) => if visiting[value.raw as int] {
            (visiting, Place::Active(value, bit))
        } else {
            (visiting, Place::Whole(value))
        },
        Place::Active(value, bit) => match source.kind(value) {
            KindView::Signal(reference) => {
                let driver = graph.drivers.driver_at(reference, bit)->0;
                (visiting, Place::Bit(driver.value, driver.bit as int))
            },
            KindView::Operation(operation) => (visiting, Place::OperationBit(operation, bit)),
            _ => (visiting, place),
        },
        Place::OperationBit(operation, bit) => (visiting, bit_step(source, operation, bit, i)),
        Place::Extraction(operation) => match source.operations[operation.raw as int].kind {
            OpView::DynamicExtract { value, offset, width } => if i < source.ty(value).width {
                (visiting, Place::Bit(value, i))
            } else {
                (visiting, Place::Bit(offset, i - source.ty(value).width))
            },
            _ => (visiting, place),
        },
    }
}

/// Whatever a place leads to is listed.
proof fn lemma_listed(
    graph: Graph,
    visiting: Seq<bool>,
    place: Place,
    marked: Seq<bool>,
    next: Place,
)
    requires
        leads(graph, visiting, place, marked, next),
    ensures
        exists|i: int|
            0 <= i < fan(graph.source, place) && #[trigger] step_at(graph, visiting, place, i) == (
                marked,
                next,
            ),
{
    reveal(leads);
    let source = graph.source;
    let found = (marked, next);
    match place {
        Place::Inside(value) => match source.kind(value) {
            KindView::Signal(reference) => {
                let bit = choose|bit: int| #[trigger]
                    driven_by(graph, visiting, reference, bit, next);
                let driver = graph.drivers.driver_at(reference, bit)->0;
                if next == Place::Whole(driver.value) {
                    assert(step_at(graph, visiting, place, bit) == found);
                } else {
                    assert(step_at(graph, visiting, place, bit + reference.width) == found);
                }
            },
            _ => {
                assert(step_at(graph, visiting, place, 0) == found);
            },
        },
        Place::Operands(operation, whole) => {
            let inputs = op_inputs(source.operations[operation.raw as int].kind);
            let i = choose|i: int|
                0 <= i < inputs.len() && next == operand_place(#[trigger] inputs[i], whole);
            assert(step_at(graph, visiting, place, i) == found);
        },
        Place::Bits(value) => {
            let bit = next->Bit_1;
            assert(step_at(graph, visiting, place, bit) == found);
        },
        Place::OperationBit(operation, bit) => match source.operations[operation.raw as int].kind {
            OpView::Concat { parts } => {
                let part = choose|part: int| #[trigger] part_bit(source, parts, part, bit, next);
                assert(step_at(graph, visiting, place, part) == found);
            },
            _ => {
                assert(step_at(graph, visiting, place, 0) == found || step_at(
                    graph,
                    visiting,
                    place,
                    1,
                ) == found || step_at(graph, visiting, place, 2) == found || step_at(
                    graph,
                    visiting,
                    place,
                    3,
                ) == found || step_at(graph, visiting, place, 4) == found);
            },
        },
        Place::Extraction(operation) => match source.operations[operation.raw as int].kind {
            OpView::DynamicExtract { value, offset, width } => {
                let bit = next->Bit_1;
                if next->Bit_0 == value {
                    assert(step_at(graph, visiting, place, bit) == found);
                } else {
                    assert(step_at(graph, visiting, place, bit + source.ty(value).width) == found);
                }
            },
            _ => {},
        },
        _ => {
            assert(step_at(graph, visiting, place, 0) == found);
        },
    }
}

/// More room is room enough.
proof fn lemma_fits_more(
    graph: Graph,
    visiting: Seq<bool>,
    place: Place,
    steps: nat,
    limit: nat,
    more: nat,
)
    requires
        fits(graph, visiting, place, steps, limit),
        limit <= more,
    ensures
        fits(graph, visiting, place, steps, more),
{
    let share = choose|share: nat| #[trigger]
        affords(graph.source, place, share, limit) && forall|next: Place| #[trigger]
            leads(graph, visiting, place, visiting, next) ==> fits(
                graph,
                visiting,
                next,
                (steps - 1) as nat,
                share,
            );
    assert(affords(graph.source, place, share, more));
}

/// More steps are steps enough.
proof fn lemma_fits_longer(
    graph: Graph,
    visiting: Seq<bool>,
    place: Place,
    steps: nat,
    longer: nat,
    limit: nat,
)
    requires
        fits(graph, visiting, place, steps, limit),
        steps <= longer,
    ensures
        fits(graph, visiting, place, longer, limit),
    decreases steps,
{
    let share = choose|share: nat| #[trigger]
        affords(graph.source, place, share, limit) && forall|next: Place| #[trigger]
            leads(graph, visiting, place, visiting, next) ==> fits(
                graph,
                visiting,
                next,
                (steps - 1) as nat,
                share,
            );
    assert forall|next: Place| #[trigger]
        leads(graph, visiting, place, visiting, next) implies fits(
        graph,
        visiting,
        next,
        (longer - 1) as nat,
        share,
    ) by {
        lemma_fits_longer(graph, visiting, next, (steps - 1) as nat, (longer - 1) as nat, share);
    }
    assert(affords(graph.source, place, share, limit));
}

/// A place fits within some limit.
spec fn ends(graph: Graph, visiting: Seq<bool>, place: Place, steps: nat) -> bool {
    exists|limit: nat| #[trigger] fits(graph, visiting, place, steps, limit)
}

/// The first places that a place leads to have a share in common.
proof fn lemma_common_share(
    graph: Graph,
    visiting: Seq<bool>,
    place: Place,
    steps: nat,
    count: nat,
) -> (share: nat)
    requires
        forall|next: Place| #[trigger]
            leads(graph, visiting, place, visiting, next) ==> ends(graph, visiting, next, steps),
    ensures
        forall|i: int|
            0 <= i < count ==> {
                let next = (#[trigger] step_at(graph, visiting, place, i)).1;
                leads(graph, visiting, place, visiting, next) ==> fits(
                    graph,
                    visiting,
                    next,
                    steps,
                    share,
                )
            },
    decreases count,
{
    if count == 0 {
        0
    } else {
        let below = lemma_common_share(graph, visiting, place, steps, (count - 1) as nat);
        let last = step_at(graph, visiting, place, count - 1).1;
        let own = if leads(graph, visiting, place, visiting, last) {
            assert(ends(graph, visiting, last, steps));
            choose|limit: nat| #[trigger] fits(graph, visiting, last, steps, limit)
        } else {
            0
        };
        let share = if own <= below {
            below
        } else {
            own
        };
        assert forall|i: int| 0 <= i < count implies {
            let next = (#[trigger] step_at(graph, visiting, place, i)).1;
            leads(graph, visiting, place, visiting, next) ==> fits(
                graph,
                visiting,
                next,
                steps,
                share,
            )
        } by {
            let next = step_at(graph, visiting, place, i).1;
            if leads(graph, visiting, place, visiting, next) {
                if i < count - 1 {
                    assert(fits(graph, visiting, next, steps, below));
                    lemma_fits_more(graph, visiting, next, steps, below, share);
                } else {
                    assert(fits(graph, visiting, next, steps, own));
                    lemma_fits_more(graph, visiting, next, steps, own, share);
                }
            }
        }
        share
    }
}

/// Where dependencies do not use the fuel up, a place fits within some limit.
proof fn lemma_ends(graph: Graph, visiting: Seq<bool>, place: Place, fuel: int)
    requires
        !deep(graph, visiting, place, fuel),
    ensures
        fuel >= 1,
        ends(graph, visiting, place, fuel as nat),
    decreases fuel,
{
    assert(fuel >= cost(place));
    let steps = (fuel - 1) as nat;
    assert forall|next: Place| #[trigger]
        leads(graph, visiting, place, visiting, next) implies ends(graph, visiting, next, steps) by {
        assert(!deep(graph, visiting, next, fuel - cost(place)));
        lemma_ends(graph, visiting, next, fuel - cost(place));
        let limit = choose|limit: nat| #[trigger]
            fits(graph, visiting, next, (fuel - cost(place)) as nat, limit);
        lemma_fits_longer(graph, visiting, next, (fuel - cost(place)) as nat, steps, limit);
    }
    let share = lemma_common_share(graph, visiting, place, steps, fan(graph.source, place));
    assert forall|next: Place| #[trigger]
        leads(graph, visiting, place, visiting, next) implies fits(
        graph,
        visiting,
        next,
        steps,
        share,
    ) by {
        lemma_listed(graph, visiting, place, visiting, next);
        let i = choose|i: int|
            0 <= i < fan(graph.source, place) && #[trigger] step_at(graph, visiting, place, i) == (
                visiting,
                next,
            );
        assert(step_at(graph, visiting, place, i).1 == next);
    }
    let limit = breadth(graph.source, place) * (share + fee());
    assert(affords(graph.source, place, share, limit));
    assert(fits(graph, visiting, place, fuel as nat, limit));
}

/// The first values fit within a limit in common.
proof fn lemma_common_limit(graph: Graph, steps: nat, count: nat) -> (limit: nat)
    requires
        forall|value: ValueId|
            graph.source.has(value) ==> #[trigger] ends(
                graph,
                back_marks(graph, value),
                Place::Inside(value),
                steps,
            ),
    ensures
        forall|value: ValueId|
            graph.source.has(value) && value.raw < count ==> #[trigger] fits(
                graph,
                back_marks(graph, value),
                Place::Inside(value),
                steps,
                limit,
            ),
    decreases count,
{
    if count == 0 {
        0
    } else {
        let below = lemma_common_limit(graph, steps, (count - 1) as nat);
        let last = ValueId { raw: (count - 1) as u32 };
        let place = Place::Inside(last);
        let own = if graph.source.has(last) {
            assert(ends(graph, back_marks(graph, last), place, steps));
            choose|limit: nat| #[trigger]
                fits(graph, back_marks(graph, last), place, steps, limit)
        } else {
            0
        };
        let limit = if own <= below {
            below
        } else {
            own
        };
        assert forall|value: ValueId|
            graph.source.has(value) && value.raw < count implies #[trigger] fits(
            graph,
            back_marks(graph, value),
            Place::Inside(value),
            steps,
            limit,
        ) by {
            let marks = back_marks(graph, value);
            if value.raw < count - 1 {
                lemma_fits_more(graph, marks, Place::Inside(value), steps, below, limit);
            } else {
                assert(value == last);
                lemma_fits_more(graph, marks, place, steps, own, limit);
            }
        }
        limit
    }
}

/// What carrying a value of a source over takes is bounded: dependencies end, whether or
/// not values lead back to themselves.
pub proof fn every_graph_has_a_toll(graph: Graph)
    requires
        graph.source.wf(),
    ensures
        toll(graph) matches Some(limit) && roomy(graph, limit),
{
    let steps = ENOUGH_FUEL as nat;
    assert forall|value: ValueId| graph.source.has(value) implies #[trigger] ends(
        graph,
        back_marks(graph, value),
        Place::Inside(value),
        steps,
    ) by {
        lemma_inside_ends(graph, back_marks(graph, value), value);
        lemma_ends(graph, back_marks(graph, value), Place::Inside(value), ENOUGH_FUEL as int);
    }
    let limit = lemma_common_limit(graph, steps, graph.source.values.len());
    assert(all_fit(graph, steps, limit));
    assert(roomy(graph, limit));
    lemma_toll(graph, limit);
}

/// Where less is being carried over, what fits still does.
proof fn lemma_fewer_marks(
    graph: Graph,
    fewer: Seq<bool>,
    marks: Seq<bool>,
    place: Place,
    steps: nat,
    limit: nat,
)
    requires
        fits(graph, marks, place, steps, limit),
        fewer.len() == graph.source.values.len(),
        marks.len() == fewer.len(),
        graph.source.wf(),
        forall|v: int| 0 <= v < fewer.len() && #[trigger] fewer[v] ==> marks[v],
    ensures
        fits(graph, fewer, place, steps, limit),
    decreases steps,
{
    let share = choose|share: nat| #[trigger]
        affords(graph.source, place, share, limit) && forall|next: Place| #[trigger]
            leads(graph, marks, place, marks, next) ==> fits(
                graph,
                marks,
                next,
                (steps - 1) as nat,
                share,
            );
    assert forall|next: Place| #[trigger] leads(graph, fewer, place, fewer, next) implies fits(
        graph,
        fewer,
        next,
        (steps - 1) as nat,
        share,
    ) by {
        if leads(graph, marks, place, marks, next) {
            lemma_fewer_marks(graph, fewer, marks, next, (steps - 1) as nat, share);
        } else {
            lemma_unmarked_ends(graph, fewer, marks, place, steps, share, next);
        }
    }
    assert(affords(graph.source, place, share, limit));
}

/// A step that is none where more is being carried over leads to a value that is not being
/// carried over.
proof fn lemma_unmarked_ends(
    graph: Graph,
    fewer: Seq<bool>,
    marks: Seq<bool>,
    place: Place,
    steps: nat,
    share: nat,
    next: Place,
)
    requires
        fewer.len() == graph.source.values.len(),
        marks.len() == fewer.len(),
        graph.source.wf(),
        forall|v: int| 0 <= v < fewer.len() && #[trigger] fewer[v] ==> marks[v],
        leads(graph, fewer, place, fewer, next),
        !leads(graph, marks, place, marks, next),
        forall|other: Place| #[trigger]
            leads(graph, marks, place, marks, other) ==> fits(
                graph,
                marks,
                other,
                (steps - 1) as nat,
                share,
            ),
    ensures
        fits(graph, fewer, next, (steps - 1) as nat, share),
{
    assert(place is Bit && next == Place::Whole(place->Bit_0)) by {
        reveal(leads);
        match place {
            Place::Whole(value) => {
                if !fewer[value.raw as int] {
                    assert(fewer.update(value.raw as int, true)[value.raw as int]);
                }
            },
            Place::Inside(value) => {
                if let KindView::Signal(reference) = graph.source.kind(value) {
                    let bit = choose|bit: int| #[trigger]
                        driven_by(graph, fewer, reference, bit, next);
                    assert(driven_by(graph, marks, reference, bit, next));
                }
            },
            _ => {},
        }
    }
    let value = place->Bit_0;
    let bit = place->Bit_1;
    assert(leads(graph, marks, place, marks, Place::Active(value, bit))) by {
        reveal(leads);
    }
    assert(!fewer[value.raw as int]) by {
        reveal(leads);
    }
    let active = Place::Active(value, bit);
    assert(fits(graph, marks, active, (steps - 1) as nat, share));
    let under = choose|under: nat| #[trigger]
        affords(graph.source, active, under, share) && forall|other: Place| #[trigger]
            leads(graph, marks, active, marks, other) ==> fits(
                graph,
                marks,
                other,
                (steps - 2) as nat,
                under,
            );
    assert(affords(graph.source, next, 0, share));
    assert forall|other: Place| #[trigger] leads(graph, fewer, next, fewer, other) implies false by {
        reveal(leads);
        assert(fewer.update(value.raw as int, true)[value.raw as int]);
    }
}

impl<'a> RegionalWordImporter<'a> {
    /// The reached values that were neither carried over nor are being so.
    pub open spec fn open(&self) -> Seq<bool> {
        Seq::new(
            self.source@.values.len(),
            |v: int|
                self.source_to_local@[v] is None && !self.visiting@[v] && from_wanted(
                    self.graph(),
                    ValueId { raw: v as u32 },
                ),
        )
    }

    /// How many identifiers are used up once everything is carried over, at most.
    pub open spec fn volume(&self) -> nat {
        size(self.module@) + toll(self.graph())->0 * tally(self.open())
    }

    /// What is still to be carried over has its room.
    pub open spec fn keeps(&self, after: &Self) -> bool {
        toll(self.graph()) is Some ==> after.volume() <= self.volume()
    }

    /// Nothing was carried over, and no more than so many identifiers were used up.
    pub open spec fn stands_still(&self, after: &Self, more: nat) -> bool {
        &&& after.graph() == self.graph()
        &&& after.source_to_local@ == self.source_to_local@
        &&& after.visiting@ == self.visiting@
        &&& size(after.module@) <= size(self.module@) + more
    }
}

/// What is open depends on what was carried over and on the marks.
pub proof fn lemma_open(before: &RegionalWordImporter, after: &RegionalWordImporter)
    requires
        after.graph() == before.graph(),
        after.source_to_local@ == before.source_to_local@,
        after.visiting@ == before.visiting@,
    ensures
        after.open() == before.open(),
        after.volume() + size(before.module@) == before.volume() + size(after.module@),
{
    assert(after.open() =~= before.open());
}

/// Where nothing was carried over and nothing used up, the room stays.
pub proof fn lemma_same_keeps(before: &RegionalWordImporter, after: &RegionalWordImporter)
    requires
        before.stands_still(after, 0),
    ensures
        before.keeps(after),
{
    lemma_open(before, after);
}

/// At first all reached values are open.
pub proof fn lemma_open_blank(importer: &RegionalWordImporter)
    requires
        importer.inv(),
        importer.blank(),
    ensures
        importer.volume() == size(importer.module@) + toll(importer.graph())->0 * reached_count(
            importer.graph(),
        ),
{
    assert(importer.source_to_local@.len() == importer.source@.values.len()) by {
        reveal(memory_ok);
    }
    assert(importer.source@.values.len() <= u32::MAX);
    assert forall|v: int| 0 <= v < importer.open().len() implies importer.open()[v]
        == reached_marks(importer.graph())[v] by {
        let value = ValueId { raw: v as u32 };
        assert(importer.source@.has(value));
        assert(!importer.settled(value));
        assert(!importer.visiting@[value.raw as int]);
    }
    assert(importer.open() =~= reached_marks(importer.graph()));
}

/// Whatever keeps its room takes no more than it may.
pub proof fn lemma_kept_costs(
    start: &RegionalWordImporter,
    after: &RegionalWordImporter,
    place: Place,
)
    requires
        start.keeps(after),
    ensures
        start.costs(after, place),
{
    reveal(RegionalWordImporter::costs);
}

/// The inside of a value fits where no more is being carried over than what leads to it.
proof fn lemma_inside_fits(graph: Graph, visiting: Seq<bool>, value: ValueId) -> (steps: nat)
    requires
        graph.source.wf(),
        graph.source.has(value),
        visiting.len() == graph.source.values.len(),
        from_wanted(graph, value),
        marks_reach(graph, visiting, value),
        toll(graph) is Some,
    ensures
        fits(graph, visiting, Place::Inside(value), steps, toll(graph)->0),
{
    let limit = toll(graph)->0;
    let any = choose|limit: nat| #[trigger] roomy(graph, limit);
    lemma_toll(graph, any);
    let steps = choose|steps: nat| #[trigger] all_fit(graph, steps, limit);
    let marks = back_marks(graph, value);
    let place = Place::Inside(value);
    assert(fits(graph, marks, place, steps, limit));
    assert forall|v: int| 0 <= v < visiting.len() && #[trigger] visiting[v] implies marks[v] by {
        let other = ValueId { raw: v as u32 };
        assert(graph.source.has(other));
        assert(visiting[other.raw as int]);
    }
    lemma_fewer_marks(graph, visiting, marks, place, steps, limit);
    steps
}

/// A value that is entered is no longer open.
proof fn lemma_entered_open(
    start: &RegionalWordImporter,
    entered: &RegionalWordImporter,
    value: ValueId,
)
    requires
        start.source@.has(value),
        start.source_to_local@[value.raw as int] is None,
        !start.visiting@[value.raw as int],
        start.visiting@.len() == start.source@.values.len(),
        from_wanted(start.graph(), value),
        entered.graph() == start.graph(),
        entered.source_to_local@ == start.source_to_local@,
        entered.visiting@ == start.visiting@.update(value.raw as int, true),
    ensures
        tally(entered.open()) + 1 <= tally(start.open()),
{
    let at = value.raw as int;
    assert(ValueId { raw: at as u32 } == value);
    assert(start.open()[at]);
    assert(!entered.open()[at]);
    assert forall|v: int| 0 <= v < start.open().len() && #[trigger] entered.open()[v] implies
        start.open()[v] by {}
    lemma_tally_cleared(entered.open(), start.open(), at);
}

/// The inside of a value takes no more than what was set aside for it.
pub proof fn lemma_entered_keeps(
    start: &RegionalWordImporter,
    entered: &RegionalWordImporter,
    after: &RegionalWordImporter,
    value: ValueId,
)
    requires
        start.source@.wf(),
        start.source@.has(value),
        start.source_to_local@[value.raw as int] is None,
        !start.visiting@[value.raw as int],
        start.visiting@.len() == start.source@.values.len(),
        from_wanted(start.graph(), value),
        entered.graph() == start.graph(),
        entered.module == start.module,
        entered.source_to_local@ == start.source_to_local@,
        entered.visiting@ == start.visiting@.update(value.raw as int, true),
        marks_reach(entered.graph(), entered.visiting@, value),
        entered.costs(after, Place::Inside(value)),
    ensures
        start.keeps(after),
{
    let graph = start.graph();
    if toll(graph) is Some {
        let limit = toll(graph)->0;
        assert(after.volume() <= entered.volume() + limit) by {
            let steps = lemma_inside_fits(graph, entered.visiting@, value);
            reveal(RegionalWordImporter::costs);
        }
        lemma_entered_open(start, entered, value);
        let before = tally(start.open());
        let later = tally(entered.open());
        assert(limit * later + limit <= limit * before) by (nonlinear_arith)
            requires
                later + 1 <= before,
        ;
    }
}

/// A value that was carried over is not open, as it was not while it was being so.
pub proof fn lemma_left_keeps(
    start: &RegionalWordImporter,
    filled: &RegionalWordImporter,
    after: &RegionalWordImporter,
    value: ValueId,
)
    requires
        start.keeps(filled),
        filled.source@.has(value),
        filled.visiting@[value.raw as int],
        filled.visiting@.len() == filled.source@.values.len(),
        filled.source_to_local@.len() == filled.source@.values.len(),
        after.graph() == filled.graph(),
        after.module == filled.module,
        after.visiting@ == filled.visiting@.update(value.raw as int, false),
        after.source_to_local@.len() == filled.source_to_local@.len(),
        after.source_to_local@[value.raw as int] is Some,
        forall|v: int|
            0 <= v < filled.source_to_local@.len() && v != value.raw
                ==> #[trigger] after.source_to_local@[v] == filled.source_to_local@[v],
    ensures
        start.keeps(after),
{
    assert(after.open() =~= filled.open());
}

/// Carrying a wanted value over where nothing is being carried over keeps the room of the
/// others.
pub proof fn lemma_covered_keeps(
    before: &RegionalWordImporter,
    after: &RegionalWordImporter,
    value: ValueId,
    wanted: Set<ValueId>,
)
    requires
        before.covered(wanted),
        before.source@.has(value) ==> !before.visiting@[value.raw as int] ==> before.keeps(after),
        !before.source@.has(value) ==> before.keeps(after),
    ensures
        before.keeps(after),
{
    reveal(RegionalWordImporter::covered);
}

} // verus!
