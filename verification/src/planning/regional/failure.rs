//! Why carrying a value over stops.
//!
//! It stops where the local module has no identifier left, where dependencies are
//! deeper than the fuel that was given, or at a place that cannot be carried over.

use super::importer::at_border;
use super::transfer::stateless;
use crate::error::{Invariant, SynthError};
pub use crate::word::emit::exhausted;
use crate::word::cycle::{
    bit_depends, bits_acyclic, bits_ranked, loop_error, operation_depends, part_place,
};
use crate::word::drivers::{bit_driver, lemma_folded_driver, SignalDriverIndex, ValueBit};
use crate::word::module::{slice_type, KindView, ModuleView, SignalRef};
use crate::word::types::{op_inputs, OpId, OpView, SignalId, ValueId};
use vstd::prelude::*;

verus! {

/// The error where fuel is used up.
pub open spec fn circular() -> SynthError {
    SynthError::Invariant(Invariant::CombinationalCycle)
}

/// What dependencies are followed in, and the values that they are followed from.
pub ghost struct Graph {
    pub source: ModuleView,
    pub drivers: SignalDriverIndex,
    pub regions: Seq<Option<u32>>,
    pub region: u32,
    pub memory_signals: Seq<Option<SignalId>>,
    pub cut: Seq<bool>,
    pub name: Seq<char>,
    pub wanted: Set<ValueId>,
}

/// What is being carried over: a value, what it is made of once it is marked, the
/// operands of an operation, whole or bit by bit, all bits of a value, one of
/// them, one of a value that is being carried over, one of an operation, or the
/// bits that an extraction chooses from.
pub ghost enum Place {
    Whole(ValueId),
    Inside(ValueId),
    Operands(OpId, bool),
    Bits(ValueId),
    Bit(ValueId, int),
    Active(ValueId, int),
    OperationBit(OpId, int),
    Extraction(OpId),
}

/// How much fuel it takes at most to get on from a place.
pub open spec fn cost(place: Place) -> int {
    match place {
        Place::Whole(_) => 1,
        Place::Inside(_) => 1,
        Place::Operands(_, _) => 2,
        Place::Bits(_) => 1,
        Place::Bit(_, _) => 1,
        Place::Active(_, _) => 1,
        Place::OperationBit(_, _) => 3,
        Place::Extraction(_) => 67,
    }
}

impl Graph {
    /// A value that is put at the border.
    pub open spec fn border(self, value: ValueId) -> bool {
        at_border(
            self.source,
            self.drivers,
            self.regions,
            self.region,
            self.memory_signals,
            self.cut,
            value,
        )
    }

    /// No bit is worked out from itself.
    pub open spec fn acyclic(self) -> bool {
        bits_acyclic(self.source, &self.drivers)
    }
}

/// A driver of a read, whole, or the bit of it where it is being carried over.
pub open spec fn driven_by(
    graph: Graph,
    visiting: Seq<bool>,
    reference: SignalRef,
    bit: int,
    next: Place,
) -> bool {
    &&& 0 <= bit < reference.width
    &&& graph.drivers.driver_at(reference, bit) matches Some(driver)
    &&& next == Place::Whole(driver.value) || graph.acyclic() && graph.source.has(driver.value)
        && visiting[driver.value.raw as int] && next == Place::Bit(driver.value, driver.bit as int)
}

/// The bit of an operand that a bit of a bitwise operation reads.
pub open spec fn operand_bit(source: ModuleView, value: ValueId, bit: int) -> Place {
    if bit < source.ty(value).width {
        Place::Bit(value, bit)
    } else {
        Place::Bit(value, source.ty(value).width - 1)
    }
}

/// The bit of a part that is a bit of a concatenation.
pub open spec fn part_bit(
    source: ModuleView,
    parts: Seq<ValueId>,
    part: int,
    bit: int,
    next: Place,
) -> bool {
    &&& 0 <= part < parts.len()
    &&& next == Place::Bit(parts[part], part_place(source, parts, part, bit))
}

/// What a bit of an operation is made of.
pub open spec fn bit_leads(source: ModuleView, operation: OpId, bit: int, next: Place) -> bool {
    let shared = next == Place::Operands(operation, false);
    match source.operations[operation.raw as int].kind {
        OpView::Unary { op, arg } => if op is BitNot {
            next == Place::Bit(arg, bit)
        } else if op is LogicalNot && bit == 0 && source.ty(arg).width == 1 {
            next == Place::Bit(arg, 0)
        } else {
            shared
        },
        OpView::Binary { op, left, right } => if op is BitAnd || op is BitOr || op is BitXor {
            next == operand_bit(source, left, bit) || next == operand_bit(source, right, bit)
        } else if (op is LogicalAnd || op is LogicalOr) && bit == 0 && source.ty(left).width == 1
            && source.ty(right).width == 1 {
            next == Place::Bit(left, 0) || next == Place::Bit(right, 0)
        } else {
            shared
        },
        OpView::Mux { cond, then_value, else_value } => next == Place::Whole(cond) || next
            == Place::Bit(then_value, bit) || next == Place::Bit(else_value, bit),
        OpView::Concat { parts } => exists|part: int| #[trigger]
            part_bit(source, parts, part, bit, next),
        OpView::Extract { value, lsb, width } => next == Place::Bit(value, lsb + bit),
        OpView::Cast { kind, value, target } => next == operand_bit(source, value, bit),
        OpView::DynamicExtract { value, offset, width } => next == Place::Extraction(operation),
        _ => shared,
    }
}

/// What has to be carried over for a place, and what is marked meanwhile.
#[verifier::opaque]
pub open spec fn leads(
    graph: Graph,
    visiting: Seq<bool>,
    place: Place,
    marked: Seq<bool>,
    next: Place,
) -> bool {
    let source = graph.source;
    match place {
        Place::Whole(value) => source.has(value) && if visiting[value.raw as int] {
            marked == visiting && graph.acyclic() && next == Place::Bits(value)
        } else {
            marked == visiting.update(value.raw as int, true) && next == Place::Inside(value)
        },
        Place::Inside(value) => marked == visiting && !graph.border(value) && match source.kind(
            value,
        ) {
            KindView::Constant(_) => false,
            KindView::Signal(reference) => exists|bit: int| #[trigger]
                driven_by(graph, visiting, reference, bit, next),
            KindView::Operation(operation) => next == Place::Operands(operation, true),
        },
        Place::Operands(operation, whole) => marked == visiting && exists|i: int|
            0 <= i < op_inputs(source.operations[operation.raw as int].kind).len() && next == operand_place(
                #[trigger] op_inputs(source.operations[operation.raw as int].kind)[i],
                whole,
            ),
        Place::Bits(value) => marked == visiting && (next matches Place::Bit(other, bit) && other
            == value && 0 <= bit < source.ty(value).width),
        Place::Bit(value, bit) => marked == visiting && source.has(value) && 0 <= bit
            < source.ty(value).width && if visiting[value.raw as int] {
            next == Place::Active(value, bit)
        } else {
            next == Place::Whole(value)
        },
        Place::Active(value, bit) => marked == visiting && match source.kind(value) {
            KindView::Constant(_) => false,
            KindView::Signal(reference) => graph.drivers.resolves(reference) && (
            graph.drivers.driver_at(reference, bit) matches Some(driver) && next == Place::Bit(
                driver.value,
                driver.bit as int,
            )),
            KindView::Operation(operation) => !graph.border(value) && next == Place::OperationBit(
                operation,
                bit,
            ),
        },
        Place::OperationBit(operation, bit) => marked == visiting && bit_leads(
            source,
            operation,
            bit,
            next,
        ),
        Place::Extraction(operation) => marked == visiting && match source.operations[operation.raw as int].kind {
            OpView::DynamicExtract { value, offset, width } => next matches Place::Bit(other, bit)
                && (other == value || other == offset) && 0 <= bit < source.ty(other).width,
            _ => false,
        },
    }
}

/// An operand, whole or bit by bit.
pub open spec fn operand_place(value: ValueId, whole: bool) -> Place {
    if whole {
        Place::Whole(value)
    } else {
        Place::Bits(value)
    }
}

/// A value that is being carried over is reached again in a source that has a loop.
pub open spec fn looped(graph: Graph, visiting: Seq<bool>, value: ValueId, error: SynthError) -> bool {
    &&& visiting[value.raw as int]
    &&& !graph.acyclic()
    &&& loop_error(graph.source, &graph.drivers, graph.name, error)
}

/// A place that cannot be carried over: a value that is being carried over where the
/// source has a loop, a read of a memory whose type is not that of what it reads, or
/// a bit of a read that is being carried over though nothing drives it.
#[verifier::opaque]
pub open spec fn stuck(graph: Graph, visiting: Seq<bool>, place: Place, error: SynthError) -> bool {
    let source = graph.source;
    match place {
        Place::Whole(value) => looped(graph, visiting, value, error),
        Place::Inside(value) => match source.kind(value) {
            KindView::Signal(reference) => {
                &&& graph.memory_signals[reference.signal.raw as int] is Some
                &&& source.ty(value) != slice_type(
                    source.signals[reference.signal.raw as int].ty,
                    reference.width,
                )
                &&& error == SynthError::Invariant(Invariant::WidthMismatch)
            },
            _ => false,
        },
        Place::Active(value, bit) => match source.kind(value) {
            KindView::Signal(reference) => {
                &&& !graph.drivers.resolves(reference)
                &&& error == SynthError::Invariant(Invariant::BrokenSource)
            },
            _ => false,
        },
        _ => false,
    }
}

/// Dependencies use all of the fuel up.
pub open spec fn deep(graph: Graph, visiting: Seq<bool>, place: Place, fuel: int) -> bool
    decreases fuel,
{
    fuel < cost(place) || exists|marked: Seq<bool>, next: Place| #[trigger]
        leads(graph, visiting, place, marked, next) && deep(
            graph,
            marked,
            next,
            fuel - cost(place),
        )
}

/// Dependencies lead to a place that cannot be carried over.
pub open spec fn meets(
    graph: Graph,
    visiting: Seq<bool>,
    place: Place,
    error: SynthError,
    steps: nat,
) -> bool
    decreases steps,
{
    stuck(graph, visiting, place, error) || steps > 0 && exists|marked: Seq<bool>, next: Place|
        #[trigger] leads(graph, visiting, place, marked, next) && meets(
            graph,
            marked,
            next,
            error,
            (steps - 1) as nat,
        )
}

/// A place cannot be carried over where so much fuel is left and it takes so much
/// to get on.
#[verifier::opaque]
pub open spec fn fails_within(
    graph: Graph,
    visiting: Seq<bool>,
    place: Place,
    fuel: int,
    slack: int,
    error: SynthError,
) -> bool {
    ||| error == circular() && (fuel < slack || exists|marked: Seq<bool>, next: Place| #[trigger]
        leads(graph, visiting, place, marked, next) && deep(graph, marked, next, fuel - slack))
    ||| exists|steps: nat| #[trigger] meets(graph, visiting, place, error, steps)
}

/// A place cannot be carried over with so much fuel.
pub open spec fn fails(
    graph: Graph,
    visiting: Seq<bool>,
    place: Place,
    fuel: int,
    error: SynthError,
) -> bool {
    fails_within(graph, visiting, place, fuel, cost(place), error)
}

/// With less fuel, dependencies still use it up.
pub proof fn lemma_deep_less(graph: Graph, visiting: Seq<bool>, place: Place, fuel: int, less: int)
    requires
        deep(graph, visiting, place, fuel),
        less <= fuel,
    ensures
        deep(graph, visiting, place, less),
    decreases fuel,
{
    if less >= cost(place) {
        let (marked, next) = choose|marked: Seq<bool>, next: Place| #[trigger]
            leads(graph, visiting, place, marked, next) && deep(
                graph,
                marked,
                next,
                fuel - cost(place),
            );
        lemma_deep_less(graph, marked, next, fuel - cost(place), less - cost(place));
        assert(leads(graph, visiting, place, marked, next) && deep(
            graph,
            marked,
            next,
            less - cost(place),
        ));
    }
}

/// What a place leads to fails, so the place does.
pub proof fn lemma_next_fails(
    graph: Graph,
    visiting: Seq<bool>,
    place: Place,
    fuel: int,
    slack: int,
    marked: Seq<bool>,
    next: Place,
    left: int,
    error: SynthError,
)
    requires
        leads(graph, visiting, place, marked, next),
        fails(graph, marked, next, left, error),
        left >= fuel - slack,
    ensures
        fails_within(graph, visiting, place, fuel, slack, error),
{
    reveal(fails_within);
    if exists|steps: nat| #[trigger] meets(graph, marked, next, error, steps) {
        let steps = choose|steps: nat| #[trigger] meets(graph, marked, next, error, steps);
        assert(leads(graph, visiting, place, marked, next) && meets(
            graph,
            marked,
            next,
            error,
            ((steps + 1) - 1) as nat,
        ));
        assert(meets(graph, visiting, place, error, steps + 1));
    } else {
        assert(deep(graph, marked, next, left));
        if fuel >= slack {
            lemma_deep_less(graph, marked, next, left, fuel - slack);
        }
    }
}

/// What takes less to get on fails within more.
pub proof fn lemma_layer(
    graph: Graph,
    visiting: Seq<bool>,
    place: Place,
    fuel: int,
    slack: int,
    left: int,
    rest: int,
    error: SynthError,
)
    requires
        fails_within(graph, visiting, place, left, rest, error),
        left - rest >= fuel - slack,
    ensures
        fails_within(graph, visiting, place, fuel, slack, error),
{
    reveal(fails_within);
    if !(exists|steps: nat| #[trigger] meets(graph, visiting, place, error, steps)) {
        if fuel >= slack {
            let (marked, next) = choose|marked: Seq<bool>, next: Place| #[trigger]
                leads(graph, visiting, place, marked, next) && deep(
                    graph,
                    marked,
                    next,
                    left - rest,
                );
            lemma_deep_less(graph, marked, next, left - rest, fuel - slack);
        }
    }
}

/// Fuel that does not suffice to get on.
pub proof fn lemma_spent(graph: Graph, visiting: Seq<bool>, place: Place, fuel: int, slack: int)
    requires
        fuel < slack,
    ensures
        fails_within(graph, visiting, place, fuel, slack, circular()),
{
    reveal(fails_within);
}

pub proof fn lemma_stuck(
    graph: Graph,
    visiting: Seq<bool>,
    place: Place,
    fuel: int,
    slack: int,
    error: SynthError,
)
    requires
        stuck(graph, visiting, place, error),
    ensures
        fails_within(graph, visiting, place, fuel, slack, error),
{
    reveal(fails_within);
    assert(meets(graph, visiting, place, error, 0));
}

/// The bits of a place have ranks below a bound.
pub open spec fn ranks_below(
    graph: Graph,
    visiting: Seq<bool>,
    rank: spec_fn(ValueBit) -> nat,
    place: Place,
    bound: nat,
) -> bool {
    match place {
        Place::Whole(value) => visiting[value.raw as int] && graph.acyclic() ==> word_below(
            graph,
            rank,
            value,
            bound,
        ),
        Place::Inside(_) => true,
        Place::Operands(operation, whole) => whole || inputs_below(graph, rank, operation, bound),
        Place::Bits(value) => graph.acyclic() && word_below(graph, rank, value, bound),
        Place::Bit(value, bit) => graph.acyclic() && bit_below(graph, rank, value, bit, bound),
        Place::Active(value, bit) => graph.acyclic() && bit_below(graph, rank, value, bit, bound)
            && 0 <= bit < graph.source.ty(value).width && graph.source.has(value),
        Place::OperationBit(operation, bit) => graph.acyclic() && operation.raw
            < graph.source.operations.len() && {
            let value = graph.source.operations[operation.raw as int].result;
            &&& graph.source.kind(value) == KindView::Operation(operation)
            &&& graph.source.has(value)
            &&& stateless(graph.source.operations[operation.raw as int].kind)
            &&& 0 <= bit < graph.source.ty(value).width
            &&& bit_below(graph, rank, value, bit, bound)
        },
        Place::Extraction(operation) => inputs_below(graph, rank, operation, bound),
    }
}

pub open spec fn bit_below(
    graph: Graph,
    rank: spec_fn(ValueBit) -> nat,
    value: ValueId,
    bit: int,
    bound: nat,
) -> bool {
    graph.source.has(value) && 0 <= bit < graph.source.ty(value).width ==> rank(
        ValueBit { value, bit: bit as u32 },
    ) < bound
}

pub open spec fn word_below(
    graph: Graph,
    rank: spec_fn(ValueBit) -> nat,
    value: ValueId,
    bound: nat,
) -> bool {
    forall|bit: int|
        0 <= bit < graph.source.ty(value).width ==> #[trigger] bit_below(
            graph,
            rank,
            value,
            bit,
            bound,
        )
}

pub open spec fn inputs_below(
    graph: Graph,
    rank: spec_fn(ValueBit) -> nat,
    operation: OpId,
    bound: nat,
) -> bool {
    &&& graph.acyclic()
    &&& forall|i: int|
        0 <= i < op_inputs(graph.source.operations[operation.raw as int].kind).len() ==> word_below(
            graph,
            rank,
            #[trigger] op_inputs(graph.source.operations[operation.raw as int].kind)[i],
            bound,
        )
}

/// How much fuel getting on from a place takes at most before another value is
/// marked.
pub open spec fn allowance(visiting: Seq<bool>, place: Place, bound: nat) -> int {
    match place {
        Place::Whole(value) => if visiting[value.raw as int] {
            80int * bound + 10
        } else {
            0
        },
        Place::Inside(_) => 80int * RANKS + 20,
        Place::Operands(_, whole) => if whole {
            80int * RANKS + 15
        } else {
            80int * bound + 7
        },
        Place::Bits(_) => 80int * bound + 5,
        Place::Bit(_, _) => 80int * bound + 1,
        Place::Active(_, _) => 80int * bound,
        Place::OperationBit(_, _) => 80int * bound - 1,
        Place::Extraction(_) => 80int * bound + 70,
    }
}

/// How many values are not being carried over.
pub open spec fn unmarked(visiting: Seq<bool>) -> nat
    decreases visiting.len(),
{
    if visiting.len() == 0 {
        0
    } else {
        unmarked(visiting.drop_last()) + if visiting.last() {
            0nat
        } else {
            1nat
        }
    }
}

proof fn lemma_marked(visiting: Seq<bool>, i: int)
    requires
        0 <= i < visiting.len(),
        !visiting[i],
    ensures
        unmarked(visiting) == unmarked(visiting.update(i, true)) + 1,
    decreases visiting.len(),
{
    let marked = visiting.update(i, true);
    if i == visiting.len() - 1 {
        assert(marked.drop_last() =~= visiting.drop_last());
    } else {
        lemma_marked(visiting.drop_last(), i);
        assert(marked.drop_last() =~= visiting.drop_last().update(i, true));
    }
}

proof fn lemma_unmarked(visiting: Seq<bool>)
    ensures
        unmarked(visiting) <= visiting.len(),
    decreases visiting.len(),
{
    if visiting.len() > 0 {
        lemma_unmarked(visiting.drop_last());
    }
}

/// What a bit of an operation reads has a lower rank.
proof fn lemma_bit_leads_below(
    graph: Graph,
    visiting: Seq<bool>,
    rank: spec_fn(ValueBit) -> nat,
    operation: OpId,
    bit: int,
    next: Place,
    bound: nat,
)
    requires
        graph.source.wf(),
        bits_ranked(graph.source, &graph.drivers, rank),
        ranks_below(graph, visiting, rank, Place::OperationBit(operation, bit), bound),
        bit_leads(graph.source, operation, bit, next),
    ensures
        bound > 0,
        ranks_below(graph, visiting, rank, next, (bound - 1) as nat),
        next is Bit || next is Whole || next is Extraction || next == Place::Operands(
            operation,
            false,
        ),
{
    let source = graph.source;
    let value = source.operations[operation.raw as int].result;
    let node = ValueBit { value, bit: bit as u32 };
    let kind = source.operations[operation.raw as int].kind;
    assert(bit_below(graph, rank, value, bit, bound));
    assert forall|part: ValueId, place: int|
        source.has(part) && 0 <= place < source.ty(part).width && #[trigger] operation_depends(
            source,
            operation,
            bit,
            part,
            place,
        ) implies bit_below(graph, rank, part, place, (bound - 1) as nat) by {
        assert(bit_depends(
            source,
            &graph.drivers,
            node,
            ValueBit { value: part, bit: place as u32 },
        ));
    }
    let lower = (bound - 1) as nat;
    if next == Place::Operands(operation, false) || next == Place::Extraction(operation) {
        assert forall|i: int| 0 <= i < op_inputs(kind).len() implies word_below(
            graph,
            rank,
            #[trigger] op_inputs(kind)[i],
            lower,
        ) by {
            let part = op_inputs(kind)[i];
            assert forall|place: int| 0 <= place < source.ty(part).width implies #[trigger] bit_below(
                graph,
                rank,
                part,
                place,
                lower,
            ) by {
                if source.has(part) {
                    assert(operation_depends(source, operation, bit, part, place));
                }
            }
        }
    }
    if let Place::Whole(part) = next {
        assert forall|place: int| 0 <= place < source.ty(part).width implies #[trigger] bit_below(
            graph,
            rank,
            part,
            place,
            lower,
        ) by {
            if source.has(part) {
                assert(operation_depends(source, operation, bit, part, place));
            }
        }
    }
    if let Place::Bit(part, place) = next {
        if source.has(part) && 0 <= place < source.ty(part).width {
            if let OpView::Concat { parts } = kind {
                let k = choose|k: int| #[trigger] part_bit(source, parts, k, bit, next);
                assert(parts[k] == part);
            }
            assert(operation_depends(source, operation, bit, part, place));
        }
    }
}

/// A step from a place takes of its allowance, or marks another value.
proof fn lemma_step_allowed(
    graph: Graph,
    visiting: Seq<bool>,
    rank: spec_fn(ValueBit) -> nat,
    place: Place,
    bound: nat,
    marked: Seq<bool>,
    next: Place,
) -> (lower: nat)
    requires
        graph.source.wf(),
        visiting.len() == graph.source.values.len(),
        graph.acyclic() ==> bits_ranked(graph.source, &graph.drivers, rank),
        forall|node: ValueBit| #[trigger] rank(node) < RANKS,
        bound <= RANKS,
        ranks_below(graph, visiting, rank, place, bound),
        leads(graph, visiting, place, marked, next),
    ensures
        lower <= RANKS,
        marked.len() == visiting.len(),
        ranks_below(graph, marked, rank, next, lower),
        marked == visiting && allowance(visiting, place, bound) >= cost(place) + allowance(
            visiting,
            next,
            lower,
        ) || unmarked(visiting) == unmarked(marked) + 1 && next is Inside && place is Whole
            && allowance(visiting, place, bound) == 0,
{
    reveal(leads);
    let source = graph.source;
    let top = RANKS as nat;
    match place {
        Place::Whole(value) => {
            if visiting[value.raw as int] {
                bound
            } else {
                lemma_marked(visiting, value.raw as int);
                top
            }
        },
        Place::Inside(value) => {
            top
        },
        Place::Operands(operation, whole) => {
            if whole {
                top
            } else {
                bound
            }
        },
        Place::Bits(value) => {
            if let Place::Bit(other, bit) = next {
                assert(bit_below(graph, rank, value, bit, bound));
            }
            bound
        },
        Place::Bit(value, bit) => {
            if visiting[value.raw as int] {
                bound
            } else {
                top
            }
        },
        Place::Active(value, bit) => {
            assert(source.value_ok(value.raw as int));
            match source.kind(value) {
                KindView::Signal(reference) => {
                    let driver = graph.drivers.driver_at(reference, bit)->0;
                    if source.has(driver.value) && driver.bit < source.ty(driver.value).width {
                        assert(bit_depends(
                            source,
                            &graph.drivers,
                            ValueBit { value, bit: bit as u32 },
                            driver,
                        ));
                        assert(driver == (ValueBit { value: driver.value, bit: driver.bit as int as u32 }));
                    }
                    assert(rank(ValueBit { value, bit: bit as u32 }) < bound);
                    (bound - 1) as nat
                },
                _ => bound,
            }
        },
        Place::OperationBit(operation, bit) => {
            lemma_bit_leads_below(graph, visiting, rank, operation, bit, next, bound);
            (bound - 1) as nat
        },
        Place::Extraction(operation) => {
            if let Place::Bit(other, bit) = next {
                let inputs = op_inputs(source.operations[operation.raw as int].kind);
                if other == inputs[0] {
                    assert(word_below(graph, rank, inputs[0], bound));
                } else {
                    assert(word_below(graph, rank, inputs[1], bound));
                }
                assert(bit_below(graph, rank, other, bit, bound));
            }
            bound
        },
    }
}

/// Fuel for so many steps at each value that is not being carried over is never
/// used up.
proof fn lemma_never_deep(
    graph: Graph,
    visiting: Seq<bool>,
    rank: spec_fn(ValueBit) -> nat,
    place: Place,
    bound: nat,
    fuel: int,
)
    requires
        graph.source.wf(),
        visiting.len() == graph.source.values.len(),
        graph.acyclic() ==> bits_ranked(graph.source, &graph.drivers, rank),
        forall|node: ValueBit| #[trigger] rank(node) < RANKS,
        bound <= RANKS,
        ranks_below(graph, visiting, rank, place, bound),
        fuel >= unmarked(visiting) * LEVEL + allowance(visiting, place, bound) + 1,
    ensures
        !deep(graph, visiting, place, fuel),
    decreases fuel,
{
    if deep(graph, visiting, place, fuel) {
        let (marked, next) = choose|marked: Seq<bool>, next: Place| #[trigger]
            leads(graph, visiting, place, marked, next) && deep(
                graph,
                marked,
                next,
                fuel - cost(place),
            );
        let lower = lemma_step_allowed(graph, visiting, rank, place, bound, marked, next);
        if marked != visiting {
            assert(unmarked(visiting) * LEVEL == unmarked(marked) * LEVEL + LEVEL)
                by (nonlinear_arith)
                requires
                    unmarked(visiting) == unmarked(marked) + 1,
            ;
        }
        lemma_never_deep(graph, marked, rank, next, lower, fuel - cost(place));
    }
}

/// Fuel that is never used up.
pub const ENOUGH_FUEL: u128 = 0x1_0000_0000_0000_0000_0000_0000_0000;

/// One more than any rank of a bit.
pub const RANKS: u128 = 0x1_0000_0000_0000_0000;

/// The allowance of a value that is marked.
pub const LEVEL: u128 = 0x51_0000_0000_0000_0000;

/// Dependencies do not use enough fuel up.
pub proof fn lemma_never_exhausted(graph: Graph, visiting: Seq<bool>, value: ValueId)
    requires
        graph.source.wf(),
        graph.source.has(value),
        visiting.len() == graph.source.values.len(),
        !visiting[value.raw as int],
    ensures
        !deep(graph, visiting, Place::Whole(value), ENOUGH_FUEL as int),
{
    reveal(bits_acyclic);
    let rank = if graph.acyclic() {
        choose|rank: spec_fn(ValueBit) -> nat| #[trigger]
            bits_ranked(graph.source, &graph.drivers, rank)
    } else {
        |node: ValueBit| 0nat
    };
    lemma_unmarked(visiting);
    assert(unmarked(visiting) * LEVEL <= 0xffff_ffff * LEVEL) by (nonlinear_arith)
        requires
            unmarked(visiting) <= 0xffff_ffff,
    ;
    lemma_never_deep(graph, visiting, rank, Place::Whole(value), 0, ENOUGH_FUEL as int);
}

/// Dependencies of the inside of a value do not use enough fuel up.
pub proof fn lemma_inside_ends(graph: Graph, visiting: Seq<bool>, value: ValueId)
    requires
        graph.source.wf(),
        graph.source.has(value),
        visiting.len() == graph.source.values.len(),
    ensures
        !deep(graph, visiting, Place::Inside(value), ENOUGH_FUEL as int),
{
    reveal(bits_acyclic);
    let rank = if graph.acyclic() {
        choose|rank: spec_fn(ValueBit) -> nat| #[trigger]
            bits_ranked(graph.source, &graph.drivers, rank)
    } else {
        |node: ValueBit| 0nat
    };
    lemma_unmarked(visiting);
    assert(unmarked(visiting) * LEVEL <= 0xffff_ffff * LEVEL) by (nonlinear_arith)
        requires
            unmarked(visiting) <= 0xffff_ffff,
    ;
    lemma_never_deep(
        graph,
        visiting,
        rank,
        Place::Inside(value),
        RANKS as nat,
        ENOUGH_FUEL as int,
    );
}

/// With enough fuel, only a place that cannot be carried over stops.
pub proof fn lemma_enough_fuel(graph: Graph, visiting: Seq<bool>, value: ValueId, error: SynthError)
    requires
        graph.source.wf(),
        graph.source.has(value),
        visiting.len() == graph.source.values.len(),
        !visiting[value.raw as int],
        fails(graph, visiting, Place::Whole(value), ENOUGH_FUEL as int, error),
    ensures
        exists|steps: nat| #[trigger] meets(graph, visiting, Place::Whole(value), error, steps),
{
    reveal(fails_within);
    lemma_never_exhausted(graph, visiting, value);
    if !(exists|steps: nat| #[trigger] meets(graph, visiting, Place::Whole(value), error, steps)) {
        let place = Place::Whole(value);
        let fuel = ENOUGH_FUEL as int;
        let (marked, next) = choose|marked: Seq<bool>, next: Place| #[trigger]
            leads(graph, visiting, place, marked, next) && deep(graph, marked, next, fuel - 1);
        assert(deep(graph, visiting, place, fuel));
    }
}

/// A value of the region is made of another: it reads the other's driving bits, or
/// its operation reads the other.
pub open spec fn made_of(graph: Graph, value: ValueId, part: ValueId) -> bool {
    &&& graph.source.has(value)
    &&& !graph.border(value)
    &&& match graph.source.kind(value) {
        KindView::Constant(_) => false,
        KindView::Signal(reference) => exists|bit: int|
            0 <= bit < reference.width && (#[trigger] graph.drivers.driver_at(
                reference,
                bit,
            ) matches Some(driver) && driver.value == part),
        KindView::Operation(operation) => op_inputs(
            graph.source.operations[operation.raw as int].kind,
        ).contains(part),
    }
}

/// Every value has a rank above those of the values that it is made of.
pub open spec fn ranked(graph: Graph, rank: spec_fn(ValueId) -> nat) -> bool {
    forall|value: ValueId, part: ValueId| #[trigger]
        made_of(graph, value, part) ==> rank(part) < rank(value)
}

/// Reads of memories have the types of what they read.
pub open spec fn memory_reads_typed(graph: Graph) -> bool {
    forall|value: ValueId|
        graph.source.has(value) ==> match #[trigger] graph.source.kind(value) {
            KindView::Signal(reference) => graph.memory_signals[reference.signal.raw as int] is Some
                ==> graph.source.ty(value) == slice_type(
                graph.source.signals[reference.signal.raw as int].ty,
                reference.width,
            ),
            _ => true,
        }
}

/// An error tells of a loop of the source, or of a read of a memory that has not the
/// type of what it reads.
pub open spec fn told(graph: Graph, error: SynthError) -> bool {
    ||| !graph.acyclic() && loop_error(graph.source, &graph.drivers, graph.name, error)
    ||| !memory_reads_typed(graph) && error == SynthError::Invariant(Invariant::WidthMismatch)
}

/// What is being carried over is inside of the region, but for the place itself.
pub open spec fn marks_inside(graph: Graph, visiting: Seq<bool>, place: Place) -> bool {
    &&& visiting.len() == graph.source.values.len()
    &&& forall|value: ValueId|
        graph.source.has(value) && #[trigger] visiting[value.raw as int] ==> !graph.border(value)
            || place == Place::Inside(value)
    &&& place matches Place::Active(value, _) ==> graph.source.has(value)
        && visiting[value.raw as int]
    &&& place matches Place::Inside(value) ==> graph.source.has(value)
}

/// Where a place leads stops for one of two reasons.
pub proof fn lemma_told(
    graph: Graph,
    visiting: Seq<bool>,
    place: Place,
    error: SynthError,
    steps: nat,
)
    requires
        meets(graph, visiting, place, error, steps),
        marks_inside(graph, visiting, place),
    ensures
        told(graph, error),
    decreases steps,
{
    if stuck(graph, visiting, place, error) {
        reveal(stuck);
        match place {
            Place::Inside(value) => {
                assert(!memory_reads_typed(graph)) by {
                    assert(graph.source.has(value));
                    assert(graph.source.kind(value) is Signal);
                }
            },
            Place::Active(value, _) => {
                assert(!graph.border(value));
            },
            _ => {},
        }
    } else {
        let (marked, next) = choose|marked: Seq<bool>, next: Place| #[trigger]
            leads(graph, visiting, place, marked, next) && meets(
                graph,
                marked,
                next,
                error,
                (steps - 1) as nat,
            );
        assert(marks_inside(graph, marked, next)) by {
            reveal(leads);
            assert forall|value: ValueId|
                graph.source.has(value) && #[trigger] marked[value.raw as int] implies !graph.border(
                value,
            ) || next == Place::Inside(value) by {
                if visiting[value.raw as int] {
                } else {
                    assert(place == Place::Whole(value));
                }
            }
        }
        lemma_told(graph, marked, next, error, (steps - 1) as nat);
    }
}

/// No value up to a rank is being carried over.
pub open spec fn unmarked_up_to(
    graph: Graph,
    visiting: Seq<bool>,
    rank: spec_fn(ValueId) -> nat,
    value: ValueId,
) -> bool {
    &&& visiting.len() == graph.source.values.len()
    &&& forall|other: ValueId|
        graph.source.has(other) && rank(other) <= rank(value) ==> !(
        #[trigger] visiting[other.raw as int])
}

/// What a value is made of is a value, whole, that is not being carried over.
proof fn lemma_part_of(
    graph: Graph,
    visiting: Seq<bool>,
    rank: spec_fn(ValueId) -> nat,
    value: ValueId,
    part: ValueId,
)
    requires
        graph.source.wf(),
        graph.drivers.describes(graph.source),
        graph.source.has(value),
        ranked(graph, rank),
        unmarked_up_to(graph, visiting, rank, value),
        made_of(graph, value, part),
    ensures
        graph.source.has(part),
        rank(part) < rank(value),
        unmarked_up_to(graph, visiting.update(value.raw as int, true), rank, part),
{
    let source = graph.source;
    assert(source.value_ok(value.raw as int));
    match source.kind(value) {
        KindView::Constant(_) => {},
        KindView::Signal(reference) => {
            let bit = choose|bit: int|
                0 <= bit < reference.width && (#[trigger] graph.drivers.driver_at(
                    reference,
                    bit,
                ) matches Some(driver) && driver.value == part);
            let signal = reference.signal;
            let place = reference.lsb + bit;
            assert(graph.drivers.bits@[signal.raw as int]@.len()
                == source.signals[signal.raw as int].ty.width);
            assert(graph.drivers.bits@[signal.raw as int]@[place] == bit_driver(
                source,
                signal,
                place,
            ));
            lemma_folded_driver(source, signal, place, source.connects.len());
        },
        KindView::Operation(operation) => {
            let inputs = op_inputs(source.operations[operation.raw as int].kind);
            assert(source.operation_ok(operation.raw as int));
            let i = choose|i: int| 0 <= i < inputs.len() && inputs[i] == part;
            assert(inputs[i].raw < source.values.len());
        },
    }
    let marked = visiting.update(value.raw as int, true);
    assert forall|other: ValueId| source.has(other) && rank(other) <= rank(part) implies !(
    #[trigger] marked[other.raw as int]) by {
        assert(other != value);
        assert(!visiting[other.raw as int]);
    }
}

/// What a value that is not being carried over leads to.
proof fn lemma_whole_leads(
    graph: Graph,
    visiting: Seq<bool>,
    rank: spec_fn(ValueId) -> nat,
    value: ValueId,
    marked: Seq<bool>,
    next: Place,
    later: Seq<bool>,
    after: Place,
)
    requires
        graph.source.wf(),
        graph.drivers.describes(graph.source),
        graph.source.has(value),
        ranked(graph, rank),
        unmarked_up_to(graph, visiting, rank, value),
        leads(graph, visiting, Place::Whole(value), marked, next),
        leads(graph, marked, next, later, after),
    ensures
        next == Place::Inside(value),
        marked == visiting.update(value.raw as int, true),
        later == marked,
        match after {
            Place::Whole(part) => made_of(graph, value, part),
            Place::Operands(operation, whole) => {
                &&& whole
                &&& !graph.border(value)
                &&& graph.source.kind(value) == KindView::Operation(operation)
            },
            _ => false,
        },
{
    reveal(leads);
    let source = graph.source;
    assert(!visiting[value.raw as int]);
    match source.kind(value) {
        KindView::Signal(reference) => {
            let bit = choose|bit: int| #[trigger]
                driven_by(graph, marked, reference, bit, after);
            let driver = graph.drivers.driver_at(reference, bit)->0;
            assert(made_of(graph, value, driver.value));
            lemma_part_of(graph, visiting, rank, value, driver.value);
            assert(!marked[driver.value.raw as int]);
        },
        _ => {},
    }
}

/// What the operands of a value lead to.
proof fn lemma_operands_lead(
    graph: Graph,
    visiting: Seq<bool>,
    value: ValueId,
    operation: OpId,
    marked: Seq<bool>,
    next: Place,
)
    requires
        graph.source.has(value),
        !graph.border(value),
        graph.source.kind(value) == KindView::Operation(operation),
        leads(graph, visiting, Place::Operands(operation, true), marked, next),
    ensures
        marked == visiting,
        next matches Place::Whole(part) && made_of(graph, value, part),
{
    reveal(leads);
    let inputs = op_inputs(graph.source.operations[operation.raw as int].kind);
    let i = choose|i: int|
        0 <= i < inputs.len() && next == operand_place(#[trigger] inputs[i], true);
    assert(inputs.contains(inputs[i]));
}

proof fn lemma_not_stuck(
    graph: Graph,
    visiting: Seq<bool>,
    value: ValueId,
    place: Place,
    error: SynthError,
)
    requires
        graph.source.has(value),
        memory_reads_typed(graph),
        place == Place::Whole(value) && !visiting[value.raw as int] || place == Place::Inside(value)
            || place is Operands,
    ensures
        !stuck(graph, visiting, place, error),
{
    reveal(stuck);
    assert(graph.source.kind(value) == graph.source.kind(value));
}

proof fn lemma_not_met(
    graph: Graph,
    visiting: Seq<bool>,
    rank: spec_fn(ValueId) -> nat,
    value: ValueId,
    error: SynthError,
    steps: nat,
)
    requires
        graph.source.wf(),
        graph.drivers.describes(graph.source),
        graph.source.has(value),
        ranked(graph, rank),
        memory_reads_typed(graph),
        unmarked_up_to(graph, visiting, rank, value),
    ensures
        !meets(graph, visiting, Place::Whole(value), error, steps),
    decreases rank(value),
{
    assert(!visiting[value.raw as int]);
    lemma_not_stuck(graph, visiting, value, Place::Whole(value), error);
    lemma_not_stuck(
        graph,
        visiting.update(value.raw as int, true),
        value,
        Place::Inside(value),
        error,
    );
    if meets(graph, visiting, Place::Whole(value), error, steps) {
        let (marked, next) = choose|marked: Seq<bool>, next: Place| #[trigger]
            leads(graph, visiting, Place::Whole(value), marked, next) && meets(
                graph,
                marked,
                next,
                error,
                (steps - 1) as nat,
            );
        assert(next == Place::Inside(value) && marked == visiting.update(value.raw as int, true)) by {
            reveal(leads);
            assert(!visiting[value.raw as int]);
        }
        let (later, after) = choose|later: Seq<bool>, after: Place| #[trigger]
            leads(graph, marked, next, later, after) && meets(
                graph,
                later,
                after,
                error,
                ((steps - 1) as nat - 1) as nat,
            );
        lemma_whole_leads(graph, visiting, rank, value, marked, next, later, after);
        if let Place::Whole(part) = after {
            lemma_part_of(graph, visiting, rank, value, part);
            lemma_not_met(graph, marked, rank, part, error, ((steps - 1) as nat - 1) as nat);
        } else if let Place::Operands(operation, _) = after {
            lemma_not_stuck(graph, later, value, after, error);
            let left = ((((steps - 1) as nat - 1) as nat) - 1) as nat;
            let (last, end) = choose|last: Seq<bool>, end: Place| #[trigger]
                leads(graph, later, after, last, end) && meets(graph, last, end, error, left);
            lemma_operands_lead(graph, later, value, operation, last, end);
            if let Place::Whole(part) = end {
                lemma_part_of(graph, visiting, rank, value, part);
                lemma_not_met(graph, marked, rank, part, error, left);
            }
        }
    }
}

/// Where dependencies run in no circle and reads of memories have the types of
/// what they read, no value leads to a place that cannot be carried over, as long as
/// nothing up to its rank is being carried over.
pub proof fn ranked_dependencies_carry_over(
    graph: Graph,
    visiting: Seq<bool>,
    rank: spec_fn(ValueId) -> nat,
    value: ValueId,
    error: SynthError,
    steps: nat,
)
    requires
        graph.source.wf(),
        graph.drivers.describes(graph.source),
        graph.source.has(value),
        ranked(graph, rank),
        memory_reads_typed(graph),
        unmarked_up_to(graph, visiting, rank, value),
    ensures
        !meets(graph, visiting, Place::Whole(value), error, steps),
{
    lemma_not_met(graph, visiting, rank, value, error, steps);
}

} // verus!
