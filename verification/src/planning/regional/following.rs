//! What carrying a value over adds, as long as no value is reached again.

use super::failure::{made_of, Graph};
use super::importer::{
    lemma_step_trans, marks_reach, memory_ok, step, RegionalWordImporter,
};
use crate::word::drivers::ValueBit;
use crate::word::module::{slice_type, KindView, ModuleView, SignalRef};
use crate::word::types::{OpView, op_inputs, OpId, ValueId};
use vstd::prelude::*;

verus! {

/// A value on a walk is made of the next one.
pub open spec fn made_at(graph: Graph, walk: Seq<ValueId>, i: int) -> bool {
    made_of(graph, walk[i], walk[i + 1])
}

/// A walk along what values are made of.
pub open spec fn walk_of(graph: Graph, walk: Seq<ValueId>) -> bool {
    &&& walk.len() > 0
    &&& forall|i: int| 0 <= i < walk.len() - 1 ==> #[trigger] made_at(graph, walk, i)
}

/// A value is another one, or is made of it at some remove.
pub open spec fn reaches(graph: Graph, value: ValueId, other: ValueId) -> bool {
    exists|walk: Seq<ValueId>| #[trigger]
        walk_of(graph, walk) && walk[0] == value && walk.last() == other
}

/// A value is reached from a wanted one.
pub open spec fn from_wanted(graph: Graph, value: ValueId) -> bool {
    exists|start: ValueId| #[trigger]
        graph.wanted.contains(start) && reaches(graph, start, value)
}

/// A circle of values that is reached from a wanted one.
pub open spec fn circle_of(graph: Graph, circle: Seq<ValueId>) -> bool {
    &&& walk_of(graph, circle)
    &&& circle.len() > 1
    &&& circle[0] == circle.last()
    &&& from_wanted(graph, circle[0])
}

/// No bit is worked out from itself, but what a value is made of that is reached from a
/// wanted one leads back to it.
pub open spec fn turns(graph: Graph) -> bool {
    &&& graph.acyclic()
    &&& exists|circle: Seq<ValueId>| #[trigger] circle_of(graph, circle)
}

/// A value that is put at the border as an input.
pub open spec fn boundary_value(graph: Graph, value: ValueId) -> bool {
    &&& graph.border(value)
    &&& match graph.source.kind(value) {
        KindView::Constant(_) => false,
        KindView::Signal(reference) => graph.memory_signals[reference.signal.raw as int] is None,
        KindView::Operation(_) => true,
    }
}

/// A value that an operation of the region works out.
pub open spec fn computed(graph: Graph, value: ValueId) -> bool {
    graph.source.kind(value) is Operation && !graph.border(value)
}

/// A value drives all bits of a read, in order and with its type.
pub open spec fn drives_all(graph: Graph, value: ValueId, reference: SignalRef, driver: ValueId) -> bool {
    &&& graph.source.has(driver)
    &&& graph.source.ty(driver) == graph.source.ty(value)
    &&& forall|bit: int|
        0 <= bit < reference.width ==> #[trigger] graph.drivers.driver_at(reference, bit) == Some(
            ValueBit { value: driver, bit: bit as u32 },
        )
}

/// A read that is put together from several pieces.
pub open spec fn pieced(graph: Graph, value: ValueId) -> bool {
    &&& !graph.border(value)
    &&& match graph.source.kind(value) {
        KindView::Signal(reference) => forall|driver: ValueId| !(#[trigger] drives_all(
            graph,
            value,
            reference,
            driver,
        )),
        _ => false,
    }
}

/// What was made for a value that is being carried over: nothing, bits that it is put
/// together from, or what stands for it.
pub ghost enum Own {
    Nothing,
    Bits,
    Result(ValueId),
}

/// An operation takes the driver of a bit of a read out of what stands for it.
pub open spec fn takes_at(
    graph: Graph,
    module: ModuleView,
    mapped: Seq<Option<ValueId>>,
    reference: SignalRef,
    k: int,
    bit: int,
) -> bool {
    &&& 0 <= bit < reference.width
    &&& graph.drivers.driver_at(reference, bit) matches Some(driver)
    &&& graph.source.has(driver.value)
    &&& mapped[driver.value.raw as int] matches Some(inner)
    &&& module.operations[k].kind == (OpView::Extract { value: inner, lsb: driver.bit, width: 1 })
}

/// An operation takes one of the bits that a read is put together from.
pub open spec fn takes_bit(
    graph: Graph,
    module: ModuleView,
    mapped: Seq<Option<ValueId>>,
    reference: SignalRef,
    k: int,
) -> bool {
    exists|bit: int| #[trigger] takes_at(graph, module, mapped, reference, k, bit)
}

/// An operation gives a value its type.
pub open spec fn retypes(module: ModuleView, k: int, local: ValueId) -> bool {
    &&& module.has(local)
    &&& module.operations[k].kind is Cast
    &&& module.operations[k].result == local
}

/// An operation puts the bits of a value together or gives them their type.
pub open spec fn joins_at(module: ModuleView, k: int, local: ValueId) -> bool {
    ||| retypes(module, k, local)
    ||| {
        &&& module.has(local)
        &&& module.operations[k].kind is Concat
        &&& module.operations[k].result == local || (module.op_of(local) matches Some(
            OpView::Cast { kind, value, target },
        ) && value == module.operations[k].result)
    }
}

/// A read at the border whose type is not that of the signal.
pub open spec fn retyped(graph: Graph, value: ValueId) -> bool {
    &&& graph.border(value)
    &&& match graph.source.kind(value) {
        KindView::Signal(reference) => graph.source.ty(value) != slice_type(
            graph.source.signals[reference.signal.raw as int].ty,
            reference.width,
        ),
        _ => false,
    }
}

pub proof fn lemma_reaches_itself(graph: Graph, value: ValueId)
    ensures
        reaches(graph, value, value),
{
    let walk = seq![value];
    assert(walk_of(graph, walk));
    assert(walk[0] == value && walk.last() == value);
}

pub proof fn lemma_reaches_on(graph: Graph, value: ValueId, part: ValueId, other: ValueId)
    requires
        made_of(graph, value, part),
        reaches(graph, part, other),
    ensures
        reaches(graph, value, other),
{
    let rest = choose|walk: Seq<ValueId>| #[trigger]
        walk_of(graph, walk) && walk[0] == part && walk.last() == other;
    let walk = seq![value] + rest;
    assert forall|i: int| 0 <= i < walk.len() - 1 implies #[trigger] made_at(graph, walk, i) by {
        if i > 0 {
            assert(made_at(graph, rest, i - 1));
        }
    }
    assert(walk_of(graph, walk));
    assert(walk[0] == value && walk.last() == other);
}

/// What a reached value is made of is reached.
pub proof fn lemma_part_reached(graph: Graph, value: ValueId, part: ValueId)
    requires
        from_wanted(graph, value),
        made_of(graph, value, part),
    ensures
        from_wanted(graph, part),
{
    let start = choose|start: ValueId| #[trigger]
        graph.wanted.contains(start) && reaches(graph, start, value);
    let walk = choose|walk: Seq<ValueId>| #[trigger]
        walk_of(graph, walk) && walk[0] == start && walk.last() == value;
    let longer = walk.push(part);
    assert forall|i: int| 0 <= i < longer.len() - 1 implies #[trigger] made_at(graph, longer, i) by {
        if i + 1 < walk.len() {
            assert(made_at(graph, walk, i));
        }
    }
    assert(walk_of(graph, longer) && longer[0] == start && longer.last() == part);
    assert(reaches(graph, start, part));
}

/// What a value is made of is reached from all that the value is reached from.
pub proof fn lemma_marks_reach(
    graph: Graph,
    visiting: Seq<bool>,
    value: ValueId,
    part: ValueId,
)
    requires
        marks_reach(graph, visiting, value),
        made_of(graph, value, part),
    ensures
        marks_reach(graph, visiting, part),
{
    assert forall|other: ValueId|
        graph.source.has(other) && #[trigger] visiting[other.raw as int] implies reaches(
        graph,
        other,
        part,
    ) by {
        let walk = choose|walk: Seq<ValueId>| #[trigger]
            walk_of(graph, walk) && walk[0] == other && walk.last() == value;
        let longer = walk.push(part);
        assert forall|i: int| 0 <= i < longer.len() - 1 implies #[trigger] made_at(
            graph,
            longer,
            i,
        ) by {
            if i + 1 < walk.len() {
                assert(made_at(graph, walk, i));
            }
        }
        assert(walk_of(graph, longer) && longer[0] == other && longer.last() == part);
    }
}

/// The operands of an operation of the region are reached with it.
pub proof fn lemma_operands_within(importer: &RegionalWordImporter, operation: OpId)
    requires
        importer.inv(),
        importer.in_region(operation),
        importer.within(importer.source@.operations[operation.raw as int].result),
        importer.visiting@[importer.source@.operations[operation.raw as int].result.raw as int],
    ensures
        importer.operands_within(operation),
{
    let graph = importer.graph();
    let value = importer.source@.operations[operation.raw as int].result;
    let inputs = op_inputs(importer.source@.operations[operation.raw as int].kind);
    assert(importer.source@.operation_ok(operation.raw as int));
    assert forall|i: int| 0 <= i < inputs.len() implies from_wanted(graph, #[trigger] inputs[i])
        && marks_reach(graph, importer.visiting@, inputs[i]) by {
        assert(inputs.contains(inputs[i]));
        assert(made_of(graph, value, inputs[i]));
        lemma_part_reached(graph, value, inputs[i]);
        lemma_marks_reach(graph, importer.visiting@, value, inputs[i]);
    }
}

/// What was carried over stays.
pub proof fn lemma_settled_kept(before: &RegionalWordImporter, after: &RegionalWordImporter)
    requires
        before.inv(),
        before.went_on(after),
    ensures
        forall|v: ValueId| #[trigger]
            before.settled(v) ==> after.settled(v) && after.local_of(v) == before.local_of(v),
{
    reveal(memory_ok);
}

/// A wanted value can be carried over where nothing is being carried over.
pub proof fn lemma_covered_within(
    importer: &RegionalWordImporter,
    value: ValueId,
    wanted: Set<ValueId>,
)
    requires
        importer.covered(wanted),
        wanted.contains(value),
    ensures
        importer.within(value),
        importer.source@.has(value) ==> !importer.visiting@[value.raw as int],
{
    reveal(RegionalWordImporter::covered);
    lemma_reaches_itself(importer.graph(), value);
    assert(importer.graph().wanted.contains(value) && reaches(importer.graph(), value, value));
}

/// A value on a path that the last one is made of closes a walk.
pub proof fn lemma_turns(graph: Graph, path: Seq<ValueId>, value: ValueId)
    requires
        walk_of(graph, path),
        path.contains(value),
        made_of(graph, path.last(), value),
        graph.wanted.contains(path[0]),
        graph.acyclic(),
    ensures
        turns(graph),
{
    let at = choose|i: int| 0 <= i < path.len() && path[i] == value;
    let walk = path.skip(at).push(value);
    assert forall|i: int| 0 <= i < walk.len() - 1 implies #[trigger] made_at(graph, walk, i) by {
        if i + 1 < walk.len() - 1 {
            assert(made_at(graph, path, at + i));
        }
    }
    assert(walk_of(graph, walk) && walk.len() > 1 && walk[0] == walk.last());
    let first = path.take(at + 1);
    assert forall|i: int| 0 <= i < first.len() - 1 implies #[trigger] made_at(graph, first, i) by {
        assert(made_at(graph, path, i));
    }
    assert(walk_of(graph, first) && first[0] == path[0] && first.last() == value);
    assert(reaches(graph, path[0], value));
    assert(circle_of(graph, walk));
}

impl<'a> RegionalWordImporter<'a> {
    /// A value was carried over.
    pub open spec fn settled(&self, value: ValueId) -> bool {
        self.source@.has(value) && self.source_to_local@[value.raw as int] is Some
    }

    pub open spec fn local_of(&self, value: ValueId) -> ValueId {
        self.source_to_local@[value.raw as int]->0
    }

    /// What is being carried over is a walk along what values are made of.
    pub open spec fn chained(&self) -> bool {
        &&& self.import_path@.len() > 0 ==> walk_of(self.graph(), self.import_path@)
            && self.wanted@.contains(self.import_path@[0])
        &&& forall|value: ValueId|
            self.source@.has(value) && #[trigger] self.visiting@[value.raw as int]
                ==> self.import_path@.contains(value)
    }

    /// Whatever was carried over is made of what was carried over before it.
    #[verifier::opaque]
    pub open spec fn ordered(&self) -> bool {
        &&& forall|value: ValueId, part: ValueId|
            self.settled(value) && #[trigger] made_of(self.graph(), value, part) ==> self.settled(
                part,
            ) && self.order@.0[part] < self.order@.0[value]
        &&& forall|value: ValueId| #[trigger]
            self.settled(value) ==> self.order@.0[value] < self.order@.1
    }

    /// A value can be followed: nothing was reached again, and the value is what the
    /// path leads to.
    pub open spec fn ready(&self, value: ValueId) -> bool {
        &&& !self.acyclic
        &&& self.chained()
        &&& self.ordered()
        &&& if self.import_path@.len() > 0 {
            made_of(self.graph(), self.import_path@.last(), value)
        } else {
            self.wanted@.contains(value)
        }
    }

    /// The inside of a value can be followed.
    pub open spec fn inside(&self, value: ValueId) -> bool {
        &&& !self.acyclic
        &&& self.chained()
        &&& self.ordered()
        &&& self.import_path@.len() > 0
        &&& self.import_path@.last() == value
        &&& self.visiting@[value.raw as int]
        &&& !self.settled(value)
    }

    /// An operation of the local module was made for a value: it is the operation of
    /// the value, and the value's operation is its one source; or it puts a read
    /// together or gives it its type.
    pub open spec fn owns(&self, value: ValueId, k: int) -> bool {
        match self.source@.kind(value) {
            KindView::Constant(_) => false,
            KindView::Signal(reference) => {
                ||| pieced(self.graph(), value) && (takes_bit(
                    self.graph(),
                    self.module@,
                    self.source_to_local@,
                    reference,
                    k,
                ) || joins_at(self.module@, k, self.local_of(value)))
                ||| retyped(self.graph(), value) && retypes(self.module@, k, self.local_of(value))
            },
            KindView::Operation(operation) => {
                &&& !self.graph().border(value)
                &&& self.module@.operations[k].result == self.local_of(value)
                &&& self.operation_sources@[k]@ == seq![operation]
            },
        }
    }

    pub open spec fn added(&self, after: &Self, value: ValueId) -> bool {
        after.settled(value) && !self.settled(value)
    }

    /// An operation was made for the value that is being carried over.
    pub open spec fn made_own(&self, value: ValueId, own: Own, k: int) -> bool {
        &&& !(own is Nothing)
        &&& match self.source@.kind(value) {
            KindView::Constant(_) => false,
            KindView::Signal(reference) => pieced(self.graph(), value) && (takes_bit(
                self.graph(),
                self.module@,
                self.source_to_local@,
                reference,
                k,
            ) || (own matches Own::Result(local) && joins_at(self.module@, k, local))),
            KindView::Operation(operation) => {
                &&& !self.graph().border(value)
                &&& own == Own::Result(self.module@.operations[k].result)
                &&& self.operation_sources@[k]@ == seq![operation]
            },
        }
    }

    pub open spec fn made_for(
        &self,
        after: &Self,
        value: ValueId,
        own: Own,
        k: int,
    ) -> bool {
        ||| exists|other: ValueId| #[trigger] self.added(after, other) && after.owns(other, k)
        ||| after.made_own(value, own, k)
    }

    /// Some operation of the local module is that of a value.
    pub open spec fn has_image(&self, value: ValueId) -> bool {
        exists|k: int| 0 <= k < self.operation_sources@.len() && #[trigger] self.owns(value, k)
    }

    pub open spec fn has_own(&self, value: ValueId, local: ValueId) -> bool {
        exists|k: int|
            0 <= k < self.operation_sources@.len() && #[trigger] self.made_own(
                value,
                Own::Result(local),
                k,
            )
    }

    pub open spec fn listed(&self, after: &Self, value: ValueId) -> bool {
        exists|k: int|
            self.boundary_bindings@.len() <= k < after.boundary_bindings@.len() && (
            #[trigger] after.boundary_bindings@[k]) == (value, after.local_of(value))
    }

    /// What was carried over besides was reached from a value. New operations were
    /// made for it, and new bindings list what of it was put at the border, each once.
    #[verifier::opaque]
    pub open spec fn grew(&self, after: &Self, value: ValueId, own: Own) -> bool {
        let rows = self.operation_sources@.len() as int;
        let bindings = self.boundary_bindings@.len() as int;
        &&& self.same_frame(after)
        &&& step(self.x(), after.x())
        &&& self.operation_sources@.len() == self.module@.operations.len()
        &&& after.operation_sources@.len() == after.module@.operations.len()
        &&& forall|v: ValueId| #[trigger]
            self.settled(v) ==> after.settled(v) && after.local_of(v) == self.local_of(v)
        &&& forall|v: ValueId| #[trigger]
            self.added(after, v) ==> reaches(self.graph(), value, v)
                && !self.visiting@[v.raw as int]
        &&& rows <= after.operation_sources@.len()
        &&& forall|k: int|
            0 <= k < rows ==> #[trigger] after.operation_sources@[k] == self.operation_sources@[k]
        &&& forall|k: int|
            rows <= k < after.operation_sources@.len() ==> #[trigger] self.made_for(
                after,
                value,
                own,
                k,
            )
        &&& forall|v: ValueId| #[trigger]
            self.added(after, v) && computed(self.graph(), v) ==> after.has_image(v)
        &&& bindings <= after.boundary_bindings@.len()
        &&& forall|k: int|
            0 <= k < bindings ==> #[trigger] after.boundary_bindings@[k]
                == self.boundary_bindings@[k]
        &&& forall|k: int|
            bindings <= k < after.boundary_bindings@.len() ==> self.added(
                after,
                (#[trigger] after.boundary_bindings@[k]).0,
            ) && after.boundary_bindings@[k].1 == after.local_of(after.boundary_bindings@[k].0)
                && boundary_value(self.graph(), after.boundary_bindings@[k].0)
        &&& forall|j: int, k: int|
            bindings <= j < k < after.boundary_bindings@.len() ==> (
            #[trigger] after.boundary_bindings@[j]).0 != (#[trigger] after.boundary_bindings@[k]).0
        &&& forall|v: ValueId|
            #[trigger] self.added(after, v) && boundary_value(self.graph(), v) ==> self.listed(
                after,
                v,
            )
        &&& after.ordered()
    }

    /// Nothing was carried over besides.
    pub open spec fn still(&self, after: &Self) -> bool {
        &&& self.same_frame(after)
        &&& step(self.x(), after.x())
        &&& after.source_to_local@ == self.source_to_local@
        &&& after.order == self.order
        &&& after.acyclic == self.acyclic
        &&& self.operation_sources@.len() == self.module@.operations.len()
        &&& after.operation_sources@.len() == after.module@.operations.len()
        &&& forall|k: int|
            0 <= k < self.operation_sources@.len() ==> #[trigger] after.operation_sources@[k]
                == self.operation_sources@[k]
    }

    /// Carrying a value over added what it reaches, or some value was reached again.
    pub open spec fn followed(&self, after: &Self, value: ValueId, local: ValueId) -> bool {
        self.ready(value) ==> if after.acyclic {
            turns(self.graph())
        } else {
            after.settled(value) && after.local_of(value) == local && self.grew(
                after,
                value,
                Own::Nothing,
            )
        }
    }

    /// What was made for the inside of a value.
    pub open spec fn filled(&self, after: &Self, value: ValueId, local: ValueId) -> bool {
        self.inside(value) ==> if after.acyclic {
            turns(self.graph())
        } else if boundary_value(self.graph(), value) {
            &&& self.still(after)
            &&& after.boundary_bindings@ == self.boundary_bindings@.push((value, local))
            &&& after.operation_sources@.len() > self.operation_sources@.len() ==> retyped(
                self.graph(),
                value,
            )
            &&& forall|k: int|
                self.operation_sources@.len() <= k < after.operation_sources@.len()
                    ==> #[trigger] retypes(after.module@, k, local)
        } else {
            &&& self.grew(after, value, Own::Result(local))
            &&& forall|part: ValueId| #[trigger]
                made_of(self.graph(), value, part) ==> after.settled(part)
            &&& computed(self.graph(), value) ==> after.has_own(value, local)
        }
    }
}

/// Nothing changed.
pub proof fn lemma_grew_none(
    before: &RegionalWordImporter,
    after: &RegionalWordImporter,
    value: ValueId,
    own: Own,
)
    requires
        before.inv(),
        before.ordered(),
        before.still(after),
        after.operation_sources@.len() == before.operation_sources@.len(),
        after.boundary_bindings@ == before.boundary_bindings@,
    ensures
        before.grew(after, value, own),
{
    reveal(RegionalWordImporter::grew);
    lemma_ordered_still(before, after);
    assert(forall|v: ValueId| !(#[trigger] before.added(after, v)));
}

pub proof fn lemma_ordered_still(before: &RegionalWordImporter, after: &RegionalWordImporter)
    requires
        before.ordered(),
        before.still(after),
    ensures
        after.ordered(),
{
    reveal(RegionalWordImporter::ordered);
    assert(forall|v: ValueId| #[trigger] after.settled(v) == before.settled(v));
    assert(after.graph() == before.graph());
}

/// What was made for a value stays so.
proof fn lemma_owns_on(
    middle: &RegionalWordImporter,
    after: &RegionalWordImporter,
    value: ValueId,
    k: int,
)
    requires
        middle.settled(value),
        middle.owns(value, k),
        after.source == middle.source,
        after.graph() == middle.graph(),
        middle.module@.wf(),
        middle.module@.widens_to(after.module@),
        forall|v: ValueId| #[trigger]
            middle.settled(v) ==> after.settled(v) && after.local_of(v) == middle.local_of(v),
        0 <= k < middle.operation_sources@.len(),
        middle.operation_sources@.len() == middle.module@.operations.len(),
        after.operation_sources@[k] == middle.operation_sources@[k],
    ensures
        after.owns(value, k),
{
    assert(after.module@.operations[k] == middle.module@.operations[k]);
    if let KindView::Signal(reference) = middle.source@.kind(value) {
        lemma_takes_on(middle, after, reference, k);
        lemma_joins_on(middle.module@, after.module@, k, middle.local_of(value));
    }
}

/// What puts a value together stays so.
proof fn lemma_joins_on(before: ModuleView, after: ModuleView, k: int, local: ValueId)
    requires
        before.wf(),
        before.widens_to(after),
        0 <= k < before.operations.len(),
    ensures
        joins_at(before, k, local) ==> joins_at(after, k, local),
        retypes(before, k, local) ==> retypes(after, k, local),
{
    assert(after.operations[k] == before.operations[k]);
    if before.has(local) {
        assert(before.value_ok(local.raw as int));
        assert(after.values[local.raw as int] == before.values[local.raw as int]);
        if let KindView::Operation(operation) = before.kind(local) {
            assert(after.operations[operation.raw as int] == before.operations[operation.raw as int]);
        }
    }
}

/// Bits of drivers that were taken out stay so.
proof fn lemma_takes_on(
    middle: &RegionalWordImporter,
    after: &RegionalWordImporter,
    reference: SignalRef,
    k: int,
)
    requires
        after.source == middle.source,
        after.graph() == middle.graph(),
        middle.module@.wf(),
        middle.module@.widens_to(after.module@),
        forall|v: ValueId| #[trigger]
            middle.settled(v) ==> after.settled(v) && after.local_of(v) == middle.local_of(v),
        0 <= k < middle.module@.operations.len(),
    ensures
        takes_bit(middle.graph(), middle.module@, middle.source_to_local@, reference, k)
            ==> takes_bit(after.graph(), after.module@, after.source_to_local@, reference, k),
{
    let graph = middle.graph();
    assert(after.module@.operations[k] == middle.module@.operations[k]);
    if takes_bit(graph, middle.module@, middle.source_to_local@, reference, k) {
        let bit = choose|bit: int| #[trigger]
            takes_at(graph, middle.module@, middle.source_to_local@, reference, k, bit);
        let driver = graph.drivers.driver_at(reference, bit)->0;
        assert(middle.settled(driver.value));
        assert(after.settled(driver.value));
        assert(takes_at(graph, after.module@, after.source_to_local@, reference, k, bit));
    }
}

/// What was made for the value that is being carried over stays so.
proof fn lemma_made_own_on(
    middle: &RegionalWordImporter,
    after: &RegionalWordImporter,
    value: ValueId,
    own: Own,
    k: int,
)
    requires
        middle.made_own(value, own, k),
        after.source == middle.source,
        after.graph() == middle.graph(),
        middle.module@.wf(),
        middle.module@.widens_to(after.module@),
        forall|v: ValueId| #[trigger]
            middle.settled(v) ==> after.settled(v) && after.local_of(v) == middle.local_of(v),
        0 <= k < middle.operation_sources@.len(),
        middle.operation_sources@.len() == middle.module@.operations.len(),
        after.operation_sources@[k] == middle.operation_sources@[k],
    ensures
        after.made_own(value, own, k),
{
    assert(after.module@.operations[k] == middle.module@.operations[k]);
    if let KindView::Signal(reference) = middle.source@.kind(value) {
        lemma_takes_on(middle, after, reference, k);
        if let Own::Result(local) = own {
            lemma_joins_on(middle.module@, after.module@, k, local);
        }
    }
}

/// A part was carried over after other parts of a value.
pub proof fn lemma_grew_part(
    before: &RegionalWordImporter,
    middle: &RegionalWordImporter,
    after: &RegionalWordImporter,
    value: ValueId,
    part: ValueId,
    own: Own,
)
    requires
        before.grew(middle, value, own),
        middle.grew(after, part, Own::Nothing),
        part == value || made_of(before.graph(), value, part),
    ensures
        before.grew(after, value, own),
        forall|v: ValueId| #[trigger] middle.settled(v) ==> after.settled(v),
{
    reveal(RegionalWordImporter::grew);
    lemma_step_trans(before.x(), middle.x(), after.x());
    assert forall|v: ValueId| #[trigger] before.settled(v) implies after.settled(v)
        && after.local_of(v) == before.local_of(v) by {
        assert(middle.settled(v));
    }
    assert forall|v: ValueId| #[trigger] before.added(after, v) implies reaches(
        before.graph(),
        value,
        v,
    ) && !before.visiting@[v.raw as int] by {
        if middle.settled(v) {
            assert(before.added(middle, v));
        } else {
            assert(middle.added(after, v));
            if part != value {
                lemma_reaches_on(before.graph(), value, part, v);
            }
        }
    }
    assert forall|k: int|
        before.operation_sources@.len() <= k < after.operation_sources@.len() implies #[trigger] before.made_for(
        after,
        value,
        own,
        k,
    ) by {
        if k < middle.operation_sources@.len() {
            assert(before.made_for(middle, value, own, k));
            assert(after.operation_sources@[k] == middle.operation_sources@[k]);
            assert(after.module@.operations[k] == middle.module@.operations[k]);
            if exists|other: ValueId| #[trigger]
                before.added(middle, other) && middle.owns(other, k) {
                let other = choose|other: ValueId| #[trigger]
                    before.added(middle, other) && middle.owns(other, k);
                assert(middle.settled(other));
                lemma_owns_on(middle, after, other, k);
                assert(before.added(after, other) && after.owns(other, k));
            } else {
                assert(middle.made_own(value, own, k));
                assert(after.graph() == middle.graph());
                lemma_made_own_on(middle, after, value, own, k);
            }
        } else {
            assert(middle.made_for(after, part, Own::Nothing, k));
            let other = choose|other: ValueId| #[trigger]
                middle.added(after, other) && after.owns(other, k);
            assert(!before.settled(other)) by {
                if before.settled(other) {
                    assert(middle.settled(other));
                }
            }
            assert(before.added(after, other) && after.owns(other, k));
        }
    }
    assert forall|v: ValueId| #[trigger]
        before.added(after, v) && computed(before.graph(), v) implies after.has_image(v) by {
        if middle.settled(v) {
            assert(before.added(middle, v));
            let k = choose|k: int|
                0 <= k < middle.operation_sources@.len() && #[trigger] middle.owns(v, k);
            lemma_owns_on(middle, after, v, k);
        } else {
            assert(middle.added(after, v));
        }
    }
    let first = before.boundary_bindings@.len() as int;
    let second = middle.boundary_bindings@.len() as int;
    assert forall|k: int| 0 <= k < first implies #[trigger] after.boundary_bindings@[k]
        == before.boundary_bindings@[k] by {
        assert(after.boundary_bindings@[k] == middle.boundary_bindings@[k]);
    }
    assert forall|k: int| first <= k < after.boundary_bindings@.len() implies before.added(
        after,
        (#[trigger] after.boundary_bindings@[k]).0,
    ) && after.boundary_bindings@[k].1 == after.local_of(after.boundary_bindings@[k].0)
        && boundary_value(before.graph(), after.boundary_bindings@[k].0) by {
        let v = after.boundary_bindings@[k].0;
        if k < second {
            assert(after.boundary_bindings@[k] == middle.boundary_bindings@[k]);
            assert(before.added(middle, v));
            assert(middle.settled(v));
        } else {
            assert(middle.added(after, v));
            if before.settled(v) {
                assert(middle.settled(v));
            }
        }
    }
    assert forall|j: int, k: int| first <= j < k < after.boundary_bindings@.len() implies (
    #[trigger] after.boundary_bindings@[j]).0 != (#[trigger] after.boundary_bindings@[k]).0 by {
        if j < second {
            assert(after.boundary_bindings@[j] == middle.boundary_bindings@[j]);
            assert(before.added(middle, middle.boundary_bindings@[j].0));
            if k < second {
                assert(after.boundary_bindings@[k] == middle.boundary_bindings@[k]);
            } else {
                assert(middle.added(after, after.boundary_bindings@[k].0));
            }
        }
    }
    assert forall|v: ValueId|
        #[trigger] before.added(after, v) && boundary_value(before.graph(), v) implies before.listed(
        after,
        v,
    ) by {
        if middle.settled(v) {
            assert(before.added(middle, v));
            let k = choose|k: int|
                first <= k < second && (#[trigger] middle.boundary_bindings@[k]) == (
                    v,
                    middle.local_of(v),
                );
            assert(after.boundary_bindings@[k] == middle.boundary_bindings@[k]);
        } else {
            assert(middle.added(after, v));
            let k = choose|k: int|
                second <= k < after.boundary_bindings@.len() && (
                #[trigger] after.boundary_bindings@[k]) == (v, after.local_of(v));
            assert(first <= k);
        }
    }
}

pub proof fn lemma_grew_ordered(
    before: &RegionalWordImporter,
    after: &RegionalWordImporter,
    value: ValueId,
    own: Own,
)
    requires
        before.grew(after, value, own),
    ensures
        after.ordered(),
{
    reveal(RegionalWordImporter::grew);
}

/// Only bits were taken out for a value so far.
pub proof fn lemma_grew_bits(
    before: &RegionalWordImporter,
    after: &RegionalWordImporter,
    value: ValueId,
    local: ValueId,
)
    requires
        before.grew(after, value, Own::Bits),
        before.source@.kind(value) is Signal,
    ensures
        before.grew(after, value, Own::Result(local)),
{
    reveal(RegionalWordImporter::grew);
    assert forall|k: int|
        before.operation_sources@.len() <= k < after.operation_sources@.len() implies #[trigger] before.made_for(
        after,
        value,
        Own::Result(local),
        k,
    ) by {
        assert(before.made_for(after, value, Own::Bits, k));
        if !(exists|other: ValueId| #[trigger] before.added(after, other) && after.owns(other, k)) {
            assert(after.made_own(value, Own::Result(local), k));
        }
    }
}

/// Nothing was made for a value itself so far.
pub proof fn lemma_grew_widen(
    before: &RegionalWordImporter,
    after: &RegionalWordImporter,
    value: ValueId,
    own: Own,
)
    requires
        before.grew(after, value, Own::Nothing),
    ensures
        before.grew(after, value, own),
{
    reveal(RegionalWordImporter::grew);
    assert forall|k: int|
        before.operation_sources@.len() <= k < after.operation_sources@.len() implies #[trigger] before.made_for(
        after,
        value,
        own,
        k,
    ) by {
        assert(before.made_for(after, value, Own::Nothing, k));
    }
}

/// Operations were made for the value that is being carried over.
pub proof fn lemma_grew_own(
    before: &RegionalWordImporter,
    middle: &RegionalWordImporter,
    after: &RegionalWordImporter,
    value: ValueId,
    own: Own,
)
    requires
        before.grew(middle, value, own),
        middle.still(after),
        after.boundary_bindings@ == middle.boundary_bindings@,
        forall|k: int|
            middle.operation_sources@.len() <= k < after.operation_sources@.len()
                ==> #[trigger] after.made_own(value, own, k),
    ensures
        before.grew(after, value, own),
        forall|v: ValueId| #[trigger] middle.settled(v) ==> after.settled(v),
{
    reveal(RegionalWordImporter::grew);
    lemma_step_trans(before.x(), middle.x(), after.x());
    lemma_ordered_still(middle, after);
    assert(forall|v: ValueId| #[trigger] after.settled(v) == middle.settled(v));
    assert forall|v: ValueId| #[trigger] before.settled(v) implies after.settled(v)
        && after.local_of(v) == before.local_of(v) by {
        assert(middle.settled(v));
    }
    assert forall|v: ValueId| #[trigger] before.added(after, v) == before.added(middle, v) by {}
    assert forall|k: int|
        before.operation_sources@.len() <= k < after.operation_sources@.len() implies #[trigger] before.made_for(
        after,
        value,
        own,
        k,
    ) by {
        if k < middle.operation_sources@.len() {
            assert(before.made_for(middle, value, own, k));
            assert(after.operation_sources@[k] == middle.operation_sources@[k]);
            assert(after.module@.operations[k] == middle.module@.operations[k]);
            if exists|other: ValueId| #[trigger]
                before.added(middle, other) && middle.owns(other, k) {
                let other = choose|other: ValueId| #[trigger]
                    before.added(middle, other) && middle.owns(other, k);
                lemma_owns_on(middle, after, other, k);
                assert(before.added(after, other) && after.owns(other, k));
            } else {
                assert(middle.made_own(value, own, k));
                assert(after.graph() == middle.graph());
                lemma_made_own_on(middle, after, value, own, k);
            }
        } else {
            assert(after.made_own(value, own, k));
        }
    }
    assert forall|v: ValueId| #[trigger]
        before.added(after, v) && computed(before.graph(), v) implies after.has_image(v) by {
        assert(before.added(middle, v));
        let k = choose|k: int|
            0 <= k < middle.operation_sources@.len() && #[trigger] middle.owns(v, k);
        lemma_owns_on(middle, after, v, k);
    }
    assert forall|v: ValueId|
        #[trigger] before.added(after, v) && boundary_value(before.graph(), v) implies before.listed(
        after,
        v,
    ) by {
        assert(before.added(middle, v));
        let k = choose|k: int|
            before.boundary_bindings@.len() <= k < middle.boundary_bindings@.len() && (
            #[trigger] middle.boundary_bindings@[k]) == (v, middle.local_of(v));
        assert(after.boundary_bindings@[k] == (v, after.local_of(v)));
    }
    assert forall|k: int|
        before.boundary_bindings@.len() <= k < after.boundary_bindings@.len() implies before.added(
        after,
        (#[trigger] after.boundary_bindings@[k]).0,
    ) && after.boundary_bindings@[k].1 == after.local_of(after.boundary_bindings@[k].0)
        && boundary_value(before.graph(), after.boundary_bindings@[k].0) by {
        assert(before.added(middle, middle.boundary_bindings@[k].0));
    }
}

/// A value is settled once its inside was carried over.
#[verifier::rlimit(40)]
pub proof fn lemma_grew_settled(
    start: &RegionalWordImporter,
    entered: &RegionalWordImporter,
    filled: &RegionalWordImporter,
    after: &RegionalWordImporter,
    value: ValueId,
    local: ValueId,
)
    requires
        start.inv(),
        start.source@.has(value),
        start.ready(value),
        !start.settled(value),
        !start.visiting@[value.raw as int],
        *entered == (RegionalWordImporter {
            visiting: entered.visiting,
            import_path: entered.import_path,
            ..*start
        }),
        entered.visiting@ == start.visiting@.update(value.raw as int, true),
        entered.filled(filled, value, local),
        entered.inside(value),
        !filled.acyclic,
        start.same_frame(after),
        step(start.x(), after.x()),
        after.module == filled.module,
        after.operation_sources == filled.operation_sources,
        after.boundary_bindings == filled.boundary_bindings,
        after.source_to_local@ == filled.source_to_local@.update(value.raw as int, Some(local)),
        after.order@ == (
            filled.order@.0.insert(value, filled.order@.1),
            filled.order@.1 + 1,
        ),
        filled.source_to_local@.len() == start.source@.values.len(),
    ensures
        after.settled(value),
        after.local_of(value) == local,
        start.grew(after, value, Own::Nothing),
{
    reveal(RegionalWordImporter::grew);
    let graph = start.graph();
    assert(entered.graph() == graph && filled.graph() == graph && after.graph() == graph);
    assert(forall|v: ValueId| #[trigger] entered.settled(v) == start.settled(v));
    assert forall|v: ValueId| #[trigger] after.settled(v) == (filled.settled(v) || v == value) by {}
    assert(!filled.settled(value)) by {
        if filled.settled(value) && !boundary_value(graph, value) {
            assert(entered.added(filled, value));
        }
    }
    if boundary_value(graph, value) {
        lemma_ordered_still(entered, filled);
    }
    assert(filled.ordered());
    assert(after.ordered()) by {
        reveal(RegionalWordImporter::ordered);
        assert forall|v: ValueId, part: ValueId|
            after.settled(v) && #[trigger] made_of(graph, v, part) implies after.settled(part)
            && after.order@.0[part] < after.order@.0[v] by {
            if v != value {
                assert(filled.settled(v));
                assert(filled.settled(part));
                assert(part != value);
            } else {
                assert(filled.settled(part));
                assert(filled.order@.0[part] < filled.order@.1);
            }
        }
    }
    lemma_reaches_itself(graph, value);
    assert forall|v: ValueId| #[trigger] start.settled(v) implies after.settled(v)
        && after.local_of(v) == start.local_of(v) by {
        assert(entered.settled(v));
        assert(filled.settled(v));
        assert(v != value);
    }
    assert forall|v: ValueId| #[trigger] start.added(after, v) implies reaches(graph, value, v)
        && !start.visiting@[v.raw as int] by {
        if v != value {
            assert(entered.added(filled, v));
            assert(!entered.visiting@[v.raw as int]);
        }
    }
    assert(start.added(after, value));
    assert forall|v: ValueId| #[trigger] filled.settled(v) implies after.settled(v)
        && after.local_of(v) == filled.local_of(v) by {
        assert(v != value);
    }
    assert forall|k: int|
        start.operation_sources@.len() <= k < after.operation_sources@.len() implies #[trigger] start.made_for(
        after,
        value,
        Own::Nothing,
        k,
    ) by {
        if boundary_value(graph, value) {
            assert(retypes(filled.module@, k, local));
            assert(after.owns(value, k));
        } else {
            let own = Own::Result(local);
            assert(entered.made_for(filled, value, own, k));
            if exists|other: ValueId| #[trigger]
                entered.added(filled, other) && filled.owns(other, k) {
                let other = choose|other: ValueId| #[trigger]
                    entered.added(filled, other) && filled.owns(other, k);
                assert(other != value);
                lemma_owns_on(filled, after, other, k);
                assert(start.added(after, other) && after.owns(other, k));
            } else {
                assert(filled.made_own(value, own, k));
                lemma_made_own_on(filled, after, value, own, k);
                assert(after.owns(value, k));
            }
        }
        assert(start.added(after, value));
    }
    assert forall|v: ValueId| #[trigger]
        start.added(after, v) && computed(graph, v) implies after.has_image(v) by {
        if v == value {
            let k = choose|k: int|
                0 <= k < filled.operation_sources@.len() && #[trigger] filled.made_own(
                    value,
                    Own::Result(local),
                    k,
                );
            assert(after.owns(value, k));
        } else {
            assert(filled.settled(v));
            assert(entered.added(filled, v));
            let k = choose|k: int|
                0 <= k < filled.operation_sources@.len() && #[trigger] filled.owns(v, k);
            lemma_owns_on(filled, after, v, k);
        }
    }
    let first = start.boundary_bindings@.len() as int;
    assert forall|k: int| first <= k < after.boundary_bindings@.len() implies start.added(
        after,
        (#[trigger] after.boundary_bindings@[k]).0,
    ) && after.boundary_bindings@[k].1 == after.local_of(after.boundary_bindings@[k].0)
        && boundary_value(graph, after.boundary_bindings@[k].0) by {
        let v = after.boundary_bindings@[k].0;
        if !boundary_value(graph, value) {
            assert(entered.added(filled, v));
        }
    }
    assert forall|v: ValueId|
        #[trigger] start.added(after, v) && boundary_value(graph, v) implies start.listed(
        after,
        v,
    ) by {
        if v == value {
            assert(after.boundary_bindings@[first] == (value, local));
        } else {
            assert(filled.settled(v));
            assert(entered.added(filled, v));
            let k = choose|k: int|
                first <= k < filled.boundary_bindings@.len() && (
                #[trigger] filled.boundary_bindings@[k]) == (v, filled.local_of(v));
            assert(after.boundary_bindings@[k] == (v, after.local_of(v)));
        }
    }
}

/// How many identifiers a module has used up.
pub open spec fn size(module: ModuleView) -> nat {
    module.values.len() + module.operations.len() + module.signals.len() + module.names.len()
        + module.ports.len() + module.memories.len()
}

/// How many identifiers a value takes at most.
pub open spec fn weight(source: ModuleView, value: int) -> nat {
    (2 * source.values[value].ty.width + 8) as nat
}

/// How many identifiers the flagged values take at most.
pub open spec fn dues(source: ModuleView, flags: Seq<bool>) -> nat
    decreases flags.len(),
{
    if flags.len() == 0 {
        0
    } else {
        dues(source, flags.drop_last()) + if flags.last() {
            weight(source, flags.len() - 1)
        } else {
            0
        }
    }
}

pub proof fn lemma_dues_cleared(source: ModuleView, flags: Seq<bool>, i: int)
    requires
        0 <= i < flags.len(),
        flags[i],
    ensures
        dues(source, flags) == dues(source, flags.update(i, false)) + weight(source, i),
    decreases flags.len(),
{
    let cleared = flags.update(i, false);
    if i == flags.len() - 1 {
        assert(cleared.drop_last() =~= flags.drop_last());
    } else {
        lemma_dues_cleared(source, flags.drop_last(), i);
        assert(cleared.drop_last() =~= flags.drop_last().update(i, false));
    }
}

impl<'a> RegionalWordImporter<'a> {
    /// The values that were neither carried over nor are being so.
    pub open spec fn pending(&self) -> Seq<bool> {
        Seq::new(
            self.source@.values.len(),
            |v: int| self.source_to_local@[v] is None && !self.visiting@[v],
        )
    }

    /// How many identifiers are used up once everything is carried over, at most.
    pub open spec fn potential(&self) -> nat {
        size(self.module@) + dues(self.source@, self.pending())
    }

    /// So many identifiers were used up at most, and nothing was carried over.
    pub open spec fn uses(&self, after: &Self, count: nat) -> bool {
        &&& size(after.module@) <= size(self.module@) + count
        &&& after.source == self.source
        &&& after.source_to_local@ == self.source_to_local@
        &&& after.visiting@ == self.visiting@
        &&& after.graph() == self.graph()
        &&& after.acyclic == self.acyclic
    }

    /// No more identifiers are used up than a bound allows, or some value was reached
    /// again.
    pub open spec fn spends(&self, after: &Self, extra: nat) -> bool {
        turns(self.graph()) || after.potential() <= self.potential() + extra
    }
}

/// What is pending depends on what was carried over and on the marks.
pub proof fn lemma_pending(before: &RegionalWordImporter, after: &RegionalWordImporter)
    requires
        after.source == before.source,
        after.source_to_local@ == before.source_to_local@,
        after.visiting@ == before.visiting@,
    ensures
        after.pending() == before.pending(),
{
    assert(after.pending() =~= before.pending());
}

pub proof fn lemma_uses(
    start: &RegionalWordImporter,
    before: &RegionalWordImporter,
    after: &RegionalWordImporter,
    extra: nat,
    count: nat,
)
    requires
        !before.acyclic,
        start.spends(before, extra),
        before.uses(after, count),
    ensures
        start.spends(after, extra + count),
{
    lemma_pending(before, after);
}

/// A value that is marked gives its weight up.
pub proof fn lemma_pending_marked(
    start: &RegionalWordImporter,
    entered: &RegionalWordImporter,
    value: ValueId,
)
    requires
        start.inv(),
        start.source@.has(value),
        !start.settled(value),
        !start.visiting@[value.raw as int],
        *entered == (RegionalWordImporter {
            visiting: entered.visiting,
            import_path: entered.import_path,
            ..*start
        }),
        entered.visiting@ == start.visiting@.update(value.raw as int, true),
    ensures
        entered.potential() + weight(start.source@, value.raw as int) == start.potential(),
{
    assert(entered.pending() =~= start.pending().update(value.raw as int, false));
    lemma_dues_cleared(start.source@, start.pending(), value.raw as int);
}

/// A value that was marked is settled instead.
pub proof fn lemma_pending_settled(
    filled: &RegionalWordImporter,
    after: &RegionalWordImporter,
    value: ValueId,
    local: ValueId,
)
    requires
        filled.source@.has(value),
        filled.source_to_local@.len() == filled.source@.values.len(),
        filled.visiting@.len() == filled.source@.values.len(),
        filled.visiting@[value.raw as int],
        after.source == filled.source,
        after.module == filled.module,
        after.visiting@ == filled.visiting@.update(value.raw as int, false),
        after.source_to_local@ == filled.source_to_local@.update(value.raw as int, Some(local)),
    ensures
        after.potential() == filled.potential(),
{
    assert(after.pending() =~= filled.pending());
}

impl<'a> RegionalWordImporter<'a> {
    /// An operation of the local module was made for a value that was carried over.
    pub open spec fn owned(&self, k: int) -> bool {
        exists|value: ValueId| #[trigger] self.settled(value) && self.owns(value, k)
    }

    pub open spec fn is_listed(&self, value: ValueId) -> bool {
        exists|k: int|
            0 <= k < self.boundary_bindings@.len() && (#[trigger] self.boundary_bindings@[k]) == (
                value,
                self.local_of(value),
            )
    }

    /// Bindings list what was put at the border, each value once.
    pub open spec fn lists_boundary(&self) -> bool {
        &&& forall|k: int|
            0 <= k < self.boundary_bindings@.len() ==> self.settled(
                (#[trigger] self.boundary_bindings@[k]).0,
            ) && self.boundary_bindings@[k].1 == self.local_of(self.boundary_bindings@[k].0)
                && boundary_value(self.graph(), self.boundary_bindings@[k].0)
        &&& forall|j: int, k: int|
            0 <= j < k < self.boundary_bindings@.len() ==> (
            #[trigger] self.boundary_bindings@[j]).0 != (#[trigger] self.boundary_bindings@[k]).0
        &&& forall|value: ValueId|
            #[trigger] self.settled(value) && boundary_value(self.graph(), value)
                ==> self.is_listed(value)
    }

    /// Nothing is being carried over. Exactly what wanted values are made of was, or
    /// some value was reached again.
    #[verifier::opaque]
    pub open spec fn covered(&self, wanted: Set<ValueId>) -> bool {
        &&& self.wanted@ == wanted
        &&& self.import_path@.len() == 0
        &&& forall|value: ValueId|
            self.source@.has(value) ==> !(#[trigger] self.visiting@[value.raw as int])
        &&& if self.acyclic {
            turns(self.graph())
        } else {
            &&& self.ordered()
            &&& forall|value: ValueId| #[trigger]
                self.settled(value) ==> from_wanted(self.graph(), value)
            &&& forall|k: int|
                0 <= k < self.operation_sources@.len() ==> #[trigger] self.owned(k)
            &&& forall|value: ValueId| #[trigger]
                self.settled(value) && computed(self.graph(), value) ==> self.has_image(value)
            &&& self.lists_boundary()
        }
    }

    /// Nothing was carried over.
    pub open spec fn blank(&self) -> bool {
        &&& self.import_path@.len() == 0
        &&& !self.acyclic
        &&& self.operation_sources@.len() == 0
        &&& self.boundary_bindings@.len() == 0
        &&& self.leaves@.len() == 0
        &&& forall|value: ValueId|
            self.source@.has(value) ==> !(#[trigger] self.visiting@[value.raw as int])
        &&& forall|value: ValueId| !(#[trigger] self.settled(value))
    }
}

pub proof fn lemma_covered_blank(importer: &RegionalWordImporter, wanted: Set<ValueId>)
    requires
        importer.blank(),
        importer.wanted@ == wanted,
    ensures
        importer.covered(wanted),
{
    reveal(RegionalWordImporter::covered);
    reveal(RegionalWordImporter::ordered);
}

/// Resources of the local module leave what was carried over as it is.
pub proof fn lemma_covered_kept(
    before: &RegionalWordImporter,
    after: &RegionalWordImporter,
    wanted: Set<ValueId>,
)
    requires
        before.covered(wanted),
        after.source == before.source,
        after.wanted == before.wanted,
        after.graph() == before.graph(),
        after.visiting@ == before.visiting@,
        after.import_path@ == before.import_path@,
        after.source_to_local@ == before.source_to_local@,
        after.order == before.order,
        after.acyclic == before.acyclic,
        after.operation_sources@ == before.operation_sources@,
        after.boundary_bindings@ == before.boundary_bindings@,
        before.operation_sources@.len() == before.module@.operations.len(),
        before.module@.wf(),
        before.module@.widens_to(after.module@),
    ensures
        after.covered(wanted),
{
    reveal(RegionalWordImporter::covered);
    reveal(RegionalWordImporter::ordered);
    assert(after.graph() == before.graph());
    assert(forall|value: ValueId| #[trigger] after.settled(value) == before.settled(value));
    if !before.acyclic {
        assert forall|k: int| 0 <= k < after.operation_sources@.len() implies #[trigger] after.owned(
            k,
        ) by {
            assert(before.owned(k));
            let value = choose|value: ValueId| #[trigger]
                before.settled(value) && before.owns(value, k);
            lemma_owns_on(before, after, value, k);
            assert(after.settled(value) && after.owns(value, k));
        }
        assert forall|value: ValueId| #[trigger]
            after.settled(value) && computed(after.graph(), value) implies after.has_image(value) by {
            assert(before.settled(value));
            let k = choose|k: int|
                0 <= k < before.operation_sources@.len() && #[trigger] before.owns(value, k);
            lemma_owns_on(before, after, value, k);
        }
        assert forall|value: ValueId|
            #[trigger] after.settled(value) && boundary_value(after.graph(), value) implies after.is_listed(
            value,
        ) by {
            assert(before.is_listed(value));
        }
    }
}

/// A wanted value was carried over besides.
pub proof fn lemma_covered_on(
    before: &RegionalWordImporter,
    after: &RegionalWordImporter,
    value: ValueId,
    local: ValueId,
    wanted: Set<ValueId>,
)
    requires
        before.covered(wanted),
        wanted.contains(value),
        before.went_on(after),
        before.followed(after, value, local),
    ensures
        after.covered(wanted),
        !after.acyclic ==> after.settled(value) && after.local_of(value) == local && !before.acyclic
            && forall|v: ValueId| #[trigger]
            before.settled(v) ==> after.settled(v) && after.local_of(v) == before.local_of(v),
{
    reveal(RegionalWordImporter::covered);
    let graph = before.graph();
    assert(after.graph() == graph);
    if !before.acyclic {
        assert(before.ready(value));
        if !after.acyclic {
            reveal(RegionalWordImporter::grew);
            assert forall|v: ValueId| #[trigger] after.settled(v) implies from_wanted(
                graph,
                v,
            ) by {
                if before.settled(v) {
                    assert(from_wanted(graph, v));
                } else {
                    assert(before.added(after, v));
                    assert(graph.wanted.contains(value) && reaches(graph, value, v));
                }
            }
            assert forall|k: int| 0 <= k < after.operation_sources@.len() implies #[trigger] after.owned(
                k,
            ) by {
                if k < before.operation_sources@.len() {
                    assert(before.owned(k));
                    let v = choose|v: ValueId| #[trigger] before.settled(v) && before.owns(v, k);
                    lemma_owns_on(before, after, v, k);
                    assert(after.settled(v) && after.owns(v, k));
                } else {
                    assert(before.made_for(after, value, Own::Nothing, k));
                    let v = choose|v: ValueId| #[trigger]
                        before.added(after, v) && after.owns(v, k);
                    assert(after.settled(v) && after.owns(v, k));
                }
            }
            assert forall|v: ValueId| #[trigger]
                after.settled(v) && computed(graph, v) implies after.has_image(v) by {
                if before.settled(v) {
                    let k = choose|k: int|
                        0 <= k < before.operation_sources@.len() && #[trigger] before.owns(v, k);
                    lemma_owns_on(before, after, v, k);
                } else {
                    assert(before.added(after, v));
                }
            }
            let first = before.boundary_bindings@.len() as int;
            assert forall|k: int| 0 <= k < after.boundary_bindings@.len() implies after.settled(
                (#[trigger] after.boundary_bindings@[k]).0,
            ) && after.boundary_bindings@[k].1 == after.local_of(after.boundary_bindings@[k].0)
                && boundary_value(graph, after.boundary_bindings@[k].0) by {
                if k < first {
                    assert(after.boundary_bindings@[k] == before.boundary_bindings@[k]);
                    assert(before.settled(before.boundary_bindings@[k].0));
                } else {
                    assert(before.added(after, after.boundary_bindings@[k].0));
                }
            }
            assert forall|j: int, k: int| 0 <= j < k < after.boundary_bindings@.len() implies (
            #[trigger] after.boundary_bindings@[j]).0 != (
            #[trigger] after.boundary_bindings@[k]).0 by {
                if j < first {
                    assert(after.boundary_bindings@[j] == before.boundary_bindings@[j]);
                    assert(before.settled(before.boundary_bindings@[j].0));
                    if k < first {
                        assert(after.boundary_bindings@[k] == before.boundary_bindings@[k]);
                    } else {
                        assert(before.added(after, after.boundary_bindings@[k].0));
                    }
                }
            }
            assert forall|v: ValueId|
                #[trigger] after.settled(v) && boundary_value(graph, v) implies after.is_listed(
                v,
            ) by {
                if before.settled(v) {
                    assert(before.is_listed(v));
                    let k = choose|k: int|
                        0 <= k < first && (#[trigger] before.boundary_bindings@[k]) == (
                            v,
                            before.local_of(v),
                        );
                    assert(after.boundary_bindings@[k] == before.boundary_bindings@[k]);
                } else {
                    assert(before.added(after, v));
                    assert(before.listed(after, v));
                }
            }
        }
    }
}

/// Where everything wanted so far was carried over, a value takes no more than what
/// was set aside.
pub proof fn lemma_covered_spends(
    before: &RegionalWordImporter,
    after: &RegionalWordImporter,
    value: ValueId,
    wanted: Set<ValueId>,
)
    requires
        before.covered(wanted),
        wanted.contains(value),
        before.ready(value) ==> before.spends(after, 0),
    ensures
        before.spends(after, 0),
{
    reveal(RegionalWordImporter::covered);
}

/// All values of a source are pending.
pub open spec fn footprint(source: ModuleView) -> nat {
    dues(source, Seq::new(source.values.len(), |v: int| true))
}

} // verus!
