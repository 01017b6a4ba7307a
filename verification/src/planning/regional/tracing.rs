//! What the operations of a region were made for.
//!
//! An operation that does more than put bits together stems from one of its sources, an
//! operation of the source of its kind. Every operation that was carried over has an
//! image that lists it, and what carried values are made of is carried over with them.

use super::failure::{made_of, Graph};
use super::following::computed;
use super::importer::{on_path, RegionalWordImporter};
use crate::word::emit::made;
use crate::word::module::{KindView, ModuleView};
use crate::word::types::{OpId, OpView, ValueId, WordType};
use vstd::prelude::*;

verus! {

/// An operation that only puts bits together, takes them out or gives them a type.
pub open spec fn puts_together(kind: OpView) -> bool {
    kind is Concat || kind is Extract || kind is Cast
}

/// An operation of the local module is of the kind of one of the source, or is one of
/// those that a dynamic extraction is taken apart into.
pub open spec fn carried_as(outer: OpView, inner: OpView) -> bool {
    match outer {
        OpView::Unary { op, arg } => inner matches OpView::Unary { op: other, arg: _ } && other == op,
        OpView::Binary { op, left, right } => inner matches OpView::Binary {
            op: other,
            left: _,
            right: _,
        } && other == op,
        OpView::Mux { cond, then_value, else_value } => inner is Mux,
        OpView::DynamicExtract { value, offset, width } => {
            ||| inner is DynamicExtract
            ||| inner is Mux
            ||| inner matches OpView::Binary { op, left: _, right: _ } && op is BitOr
        },
        OpView::DynamicInsert { value, offset, replacement } => inner is DynamicInsert,
        OpView::TriState { data, enable } => inner is TriState,
        OpView::Register(_) => inner is Register,
        OpView::Latch(_) => inner is Latch,
        _ => puts_together(inner),
    }
}

/// A source of an operation is of its kind.
pub open spec fn stems_from(source: ModuleView, kind: OpView, op: OpId) -> bool {
    op.raw < source.operations.len() && carried_as(source.operations[op.raw as int].kind, kind)
}

/// The sources of an operation suit it.
pub open spec fn suits(source: ModuleView, kind: OpView, row: Seq<OpId>) -> bool {
    puts_together(kind) || exists|op: OpId| #[trigger] row.contains(op) && stems_from(source, kind, op)
}

/// The sources of all operations suit them.
#[verifier::opaque]
pub open spec fn rows_suit(source: ModuleView, module: ModuleView, rows: Seq<Vec<OpId>>) -> bool {
    forall|k: int|
        0 <= k < rows.len() ==> suits(source, module.operations[k].kind, (#[trigger] rows[k])@)
}

/// An operation of the local module gives a value and lists an operation of the source.
pub open spec fn imaged(
    module: ModuleView,
    rows: Seq<Vec<OpId>>,
    local: ValueId,
    operation: OpId,
) -> bool {
    exists|k: int|
        0 <= k < rows.len() && module.operations[k].result == local && (#[trigger] rows[k])@.contains(
            operation,
        )
}

/// Every operation of the region that was carried over has an image.
#[verifier::opaque]
pub open spec fn all_imaged(
    graph: Graph,
    mapped: Seq<Option<ValueId>>,
    module: ModuleView,
    rows: Seq<Vec<OpId>>,
) -> bool {
    forall|value: ValueId|
        graph.source.has(value) && (#[trigger] mapped[value.raw as int]) is Some && computed(
            graph,
            value,
        ) ==> imaged(
            module,
            rows,
            mapped[value.raw as int]->0,
            graph.source.kind(value)->Operation_0,
        )
}

/// A value was carried over or is being so.
pub open spec fn held(
    source: ModuleView,
    mapped: Seq<Option<ValueId>>,
    visiting: Seq<bool>,
    value: ValueId,
) -> bool {
    source.has(value) && (mapped[value.raw as int] is Some || visiting[value.raw as int])
}

/// All that a value is made of was carried over or is being so.
pub open spec fn parts_ready(
    graph: Graph,
    mapped: Seq<Option<ValueId>>,
    visiting: Seq<bool>,
    value: ValueId,
) -> bool {
    forall|part: ValueId| #[trigger]
        made_of(graph, value, part) ==> held(graph.source, mapped, visiting, part)
}

/// What carried values are made of was carried over or is being so.
#[verifier::opaque]
pub open spec fn parts_held(
    graph: Graph,
    mapped: Seq<Option<ValueId>>,
    visiting: Seq<bool>,
) -> bool {
    forall|value: ValueId|
        graph.source.has(value) && (#[trigger] mapped[value.raw as int]) is Some ==> parts_ready(
            graph,
            mapped,
            visiting,
            value,
        )
}

/// Whatever is being carried over is on the path.
#[verifier::opaque]
pub open spec fn marks_on_path(source: ModuleView, visiting: Seq<bool>, path: Seq<ValueId>) -> bool {
    forall|value: ValueId|
        source.has(value) && #[trigger] visiting[value.raw as int] ==> path.contains(value)
}

/// Sources are only added.
pub open spec fn rows_grow(before: Seq<Vec<OpId>>, after: Seq<Vec<OpId>>) -> bool {
    &&& before.len() <= after.len()
    &&& forall|k: int, op: OpId|
        0 <= k < before.len() && #[trigger] before[k]@.contains(op) ==> after[k]@.contains(op)
}

impl<'a> RegionalWordImporter<'a> {
    /// What operations were made for is known.
    pub open spec fn traced(&self) -> bool {
        &&& marks_on_path(self.source@, self.visiting@, self.import_path@)
        &&& rows_suit(self.source@, self.module@, self.operation_sources@)
        &&& all_imaged(
            self.graph(),
            self.source_to_local@,
            self.module@,
            self.operation_sources@,
        )
        &&& parts_held(self.graph(), self.source_to_local@, self.visiting@)
    }

    /// New operations suit their sources.
    pub open spec fn adds_suited(&self, after: &Self) -> bool {
        &&& rows_grow(self.operation_sources@, after.operation_sources@)
        &&& forall|k: int|
            self.operation_sources@.len() <= k < after.operation_sources@.len() ==> suits(
                self.source@,
                after.module@.operations[k].kind,
                (#[trigger] after.operation_sources@[k])@,
            )
    }
}

/// Operations that suit their sources were appended.
pub proof fn lemma_traced_made(before: &RegionalWordImporter, after: &RegionalWordImporter)
    requires
        before.traced(),
        after.source == before.source,
        after.graph() == before.graph(),
        after.visiting@ == before.visiting@,
        after.import_path@ == before.import_path@,
        after.source_to_local@ == before.source_to_local@,
        before.operation_sources@.len() == before.module@.operations.len(),
        before.module@.widens_to(after.module@),
        before.adds_suited(after),
    ensures
        after.traced(),
{
    let rows = before.operation_sources@;
    let more = after.operation_sources@;
    assert(rows_suit(after.source@, after.module@, more)) by {
        reveal(rows_suit);
        assert forall|k: int| 0 <= k < more.len() implies suits(
            after.source@,
            after.module@.operations[k].kind,
            (#[trigger] more[k])@,
        ) by {
            if k < rows.len() {
                let kind = before.module@.operations[k].kind;
                assert(after.module@.operations[k] == before.module@.operations[k]);
                assert(suits(before.source@, kind, rows[k]@));
                if !puts_together(kind) {
                    let op = choose|op: OpId| #[trigger]
                        rows[k]@.contains(op) && stems_from(before.source@, kind, op);
                    assert(more[k]@.contains(op));
                }
            }
        }
    }
    assert(all_imaged(after.graph(), after.source_to_local@, after.module@, more)) by {
        reveal(all_imaged);
        let mapped = before.source_to_local@;
        let graph = before.graph();
        assert forall|value: ValueId|
            graph.source.has(value) && (#[trigger] mapped[value.raw as int]) is Some && computed(
                graph,
                value,
            ) implies imaged(
            after.module@,
            more,
            mapped[value.raw as int]->0,
            graph.source.kind(value)->Operation_0,
        ) by {
            let local = mapped[value.raw as int]->0;
            let operation = graph.source.kind(value)->Operation_0;
            assert(imaged(before.module@, rows, local, operation));
            let k = choose|k: int|
                0 <= k < rows.len() && before.module@.operations[k].result == local && (
                #[trigger] rows[k])@.contains(operation);
            assert(after.module@.operations[k] == before.module@.operations[k]);
            assert(more[k]@.contains(operation));
        }
    }
}

/// The operation that was just appended.
pub proof fn lemma_appended(
    before: ModuleView,
    after: ModuleView,
    local: ValueId,
    ty: WordType,
    kind: OpView,
)
    requires
        before.wf(),
        after.wf(),
        before.widens_to(after),
        made(before, after, local, ty),
        after.op_of(local) == Some(kind),
    ensures
        after.operations.len() == before.operations.len() + 1,
        after.operations[before.operations.len() as int].kind == kind,
        after.operations[before.operations.len() as int].result == local,
{
    assert(after.value_ok(local.raw as int));
    let operation = after.kind(local)->Operation_0;
    assert(after.operations[operation.raw as int].result == local);
    if operation.raw < before.operations.len() {
        assert(before.operation_ok(operation.raw as int));
        assert(after.operations[operation.raw as int] == before.operations[operation.raw as int]);
    }
}

/// An operation that is being carried over is among the sources of what is made.
pub proof fn lemma_on_path(importer: &RegionalWordImporter, operation: OpId)
    requires
        marks_on_path(importer.source@, importer.visiting@, importer.import_path@),
        operation.raw < importer.source@.operations.len(),
        importer.source@.has(importer.source@.operations[operation.raw as int].result),
        importer.source@.kind(importer.source@.operations[operation.raw as int].result)
            == KindView::Operation(operation),
        importer.operation_regions@[operation.raw as int] == Some(importer.region),
        importer.visiting@[importer.source@.operations[operation.raw as int].result.raw as int],
    ensures
        on_path(
            importer.source@,
            importer.operation_regions@,
            importer.region,
            importer.import_path@,
            operation,
            importer.import_path@.len(),
        ),
{
    reveal(marks_on_path);
    let value = importer.source@.operations[operation.raw as int].result;
    let path = importer.import_path@;
    assert(path.contains(value));
    let i = choose|i: int| 0 <= i < path.len() && path[i] == value;
    assert(importer.source@.has(path[i]));
}

/// What was made for an operation lists it.
pub proof fn lemma_made_for_operation(
    before: &RegionalWordImporter,
    after: &RegionalWordImporter,
    local: ValueId,
    ty: WordType,
    kind: OpView,
    operation: OpId,
)
    requires
        before.in_order(),
        after.module@.wf(),
        before.module@.widens_to(after.module@),
        made(before.module@, after.module@, local, ty),
        after.module@.op_of(local) == Some(kind),
        before.operation_sources@.len() == before.module@.operations.len(),
        after.operation_sources@.len() == after.module@.operations.len(),
        rows_grow(before.operation_sources@, after.operation_sources@),
        forall|k: int|
            before.operation_sources@.len() <= k < after.operation_sources@.len()
                ==> before.from_path((#[trigger] after.operation_sources@[k])@),
        before.in_region(operation),
        before.operands_within(operation),
        carried_as(before.source@.operations[operation.raw as int].kind, kind),
    ensures
        before.adds_suited(after),
{
    lemma_appended(before.module@, after.module@, local, ty, kind);
    assert(before.source@.operation_ok(operation.raw as int));
    lemma_on_path(before, operation);
    let row = after.operation_sources@[before.operation_sources@.len() as int]@;
    assert(row.contains(operation));
    assert(stems_from(before.source@, kind, operation));
}

/// What only puts bits together suits any sources.
pub proof fn lemma_made_together(
    before: &RegionalWordImporter,
    after: &RegionalWordImporter,
    local: ValueId,
    ty: WordType,
    kind: OpView,
)
    requires
        before.module@.wf(),
        after.module@.wf(),
        before.module@.widens_to(after.module@),
        made(before.module@, after.module@, local, ty),
        after.module@.op_of(local) == Some(kind),
        before.operation_sources@.len() == before.module@.operations.len(),
        after.operation_sources@.len() == after.module@.operations.len(),
        rows_grow(before.operation_sources@, after.operation_sources@),
        puts_together(kind),
    ensures
        before.adds_suited(after),
{
    lemma_appended(before.module@, after.module@, local, ty, kind);
}

/// A value is being carried over from now on.
pub proof fn lemma_traced_entered(
    start: &RegionalWordImporter,
    entered: &RegionalWordImporter,
    value: ValueId,
)
    requires
        start.traced(),
        start.source@.has(value),
        start.visiting@.len() == start.source@.values.len(),
        *entered == (RegionalWordImporter {
            visiting: entered.visiting,
            import_path: entered.import_path,
            ..*start
        }),
        entered.visiting@ == start.visiting@.update(value.raw as int, true),
        entered.import_path@ == start.import_path@.push(value),
    ensures
        entered.traced(),
{
    assert(entered.graph() == start.graph());
    assert(marks_on_path(entered.source@, entered.visiting@, entered.import_path@)) by {
        reveal(marks_on_path);
        let path = start.import_path@;
        assert forall|v: ValueId|
            entered.source@.has(v) && #[trigger] entered.visiting@[v.raw as int] implies entered.import_path@.contains(
            v,
        ) by {
            if v == value {
                assert(entered.import_path@[path.len() as int] == v);
            } else {
                assert(start.visiting@[v.raw as int]);
                let i = choose|i: int| 0 <= i < path.len() && path[i] == v;
                assert(entered.import_path@[i] == v);
            }
        }
    }
    assert(parts_held(entered.graph(), entered.source_to_local@, entered.visiting@)) by {
        reveal(parts_held);
        let graph = start.graph();
        let mapped = start.source_to_local@;
        assert forall|v: ValueId| graph.source.has(v) && (#[trigger] mapped[v.raw as int]) is Some implies
            parts_ready(graph, mapped, entered.visiting@, v) by {
            assert(parts_ready(graph, mapped, start.visiting@, v));
            assert forall|part: ValueId| #[trigger] made_of(graph, v, part) implies held(
                graph.source,
                mapped,
                entered.visiting@,
                part,
            ) by {
                assert(held(graph.source, mapped, start.visiting@, part));
            }
        }
    }
}

/// A value was carried over.
pub proof fn lemma_traced_left(
    start: &RegionalWordImporter,
    after: &RegionalWordImporter,
    value: ValueId,
    local: ValueId,
)
    requires
        start.traced(),
        start.source@.has(value),
        start.visiting@.len() == start.source@.values.len(),
        start.source_to_local@.len() == start.source@.values.len(),
        start.import_path@.len() > 0,
        start.import_path@.last() == value,
        computed(start.graph(), value) ==> imaged(
            start.module@,
            start.operation_sources@,
            local,
            start.source@.kind(value)->Operation_0,
        ),
        parts_ready(start.graph(), start.source_to_local@, start.visiting@, value),
        after.graph() == start.graph(),
        after.module == start.module,
        after.operation_sources@ == start.operation_sources@,
        after.source_to_local@ == start.source_to_local@.update(value.raw as int, Some(local)),
        after.visiting@ == start.visiting@.update(value.raw as int, false),
        after.import_path@ == start.import_path@.drop_last(),
    ensures
        after.traced(),
{
    let graph = start.graph();
    let mapped = after.source_to_local@;
    let visiting = after.visiting@;
    assert(marks_on_path(after.source@, visiting, after.import_path@)) by {
        reveal(marks_on_path);
        let path = start.import_path@;
        assert forall|v: ValueId| after.source@.has(v) && #[trigger] visiting[v.raw as int] implies
            after.import_path@.contains(v) by {
            assert(v != value);
            assert(start.visiting@[v.raw as int]);
            let i = choose|i: int| 0 <= i < path.len() && path[i] == v;
            assert(i < path.len() - 1);
            assert(after.import_path@[i] == v);
        }
    }
    assert(all_imaged(graph, mapped, after.module@, after.operation_sources@)) by {
        reveal(all_imaged);
        assert forall|v: ValueId|
            graph.source.has(v) && (#[trigger] mapped[v.raw as int]) is Some && computed(graph, v) implies imaged(
            after.module@,
            after.operation_sources@,
            mapped[v.raw as int]->0,
            graph.source.kind(v)->Operation_0,
        ) by {
            if v != value {
                assert(start.source_to_local@[v.raw as int] is Some);
            }
        }
    }
    assert(parts_held(graph, mapped, visiting)) by {
        reveal(parts_held);
        assert forall|v: ValueId| graph.source.has(v) && (#[trigger] mapped[v.raw as int]) is Some implies
            parts_ready(graph, mapped, visiting, v) by {
            if v != value {
                assert(start.source_to_local@[v.raw as int] is Some);
            }
            assert(parts_ready(graph, start.source_to_local@, start.visiting@, v));
            assert forall|part: ValueId| #[trigger] made_of(graph, v, part) implies held(
                graph.source,
                mapped,
                visiting,
                part,
            ) by {
                assert(held(graph.source, start.source_to_local@, start.visiting@, part));
                if part != value {
                    assert(mapped[part.raw as int] == start.source_to_local@[part.raw as int]);
                }
            }
        }
    }
}

/// Values that were carried over or are being so still are.
pub proof fn lemma_held_on(before: &RegionalWordImporter, after: &RegionalWordImporter, value: ValueId)
    requires
        before.moved_on(after),
        before.source_to_local@.len() == before.source@.values.len(),
        held(before.source@, before.source_to_local@, before.visiting@, value),
    ensures
        held(after.source@, after.source_to_local@, after.visiting@, value),
{
    let v = value.raw as int;
    assert(after.source_to_local@[v] == before.source_to_local@[v]);
}

} // verus!
