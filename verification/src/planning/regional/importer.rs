//! Carrying the words of one region over to a module of its own.
//!
//! Values outside of the region become inputs of the local module. A value that
//! is reached again while it is being carried over is carried over bit by bit,
//! because its bits need not depend on each other where the whole value does.

use super::failure::{
    circular, cost, exhausted, fails_within, leads, lemma_layer, lemma_next_fails, lemma_spent, Graph, Place,
};
use super::following::{boundary_value, from_wanted, reaches};
use super::interface::Interface;
use super::transfer::stateless;
use crate::collections::KeyMap;
use crate::error::{Invariant, SynthError};
use crate::word::bits::{any_bit, nat_of};
use crate::word::drivers::{driven, SignalDriverIndex};
use crate::word::module::{KindView, ModuleView, Operation, ValueKind, WordModule};
use crate::word::semantics::{eval, lemma_eval_grows, word_of, Env};
use crate::word::types::{op_inputs, OpId, OpView, SignalId, ValueId};
use vstd::prelude::*;

verus! {

/// A source module, the local module that is made from it, and the values that
/// are put next to each other at the border.
pub ghost struct Import {
    pub source: ModuleView,
    pub module: ModuleView,
    pub known: Seq<Vec<Option<bool>>>,
    pub leaves: Seq<(ValueId, ValueId)>,
}

/// What is known of single bits holds in an environment.
pub open spec fn known_holds(source: ModuleView, known: Seq<Vec<Option<bool>>>, env: Env) -> bool {
    forall|v: int, b: int|
        0 <= v < known.len() && v < source.values.len() && 0 <= b < known[v]@.len() && b
            < source.values[v].ty.width && (#[trigger] known[v]@[b]) is Some ==> eval(
            source,
            env,
            v,
        )[b] == known[v]@[b]->0
}

/// The two modules are read next to each other: driven signals of the source
/// carry their drivers, and the border of the local module carries the words of
/// the source.
#[verifier::opaque]
pub open spec fn linked(x: Import, outer: Env, inner: Env) -> bool {
    &&& driven(x.source, outer)
    &&& known_holds(x.source, x.known, outer)
    &&& forall|i: int|
        0 <= i < x.leaves.len() ==> word_of(x.module, inner, (#[trigger] x.leaves[i]).1)
            == word_of(x.source, outer, x.leaves[i].0)
}

/// A local value stands for a value of the source.
pub open spec fn agrees(x: Import, value: ValueId, local: ValueId) -> bool {
    &&& x.source.has(value)
    &&& x.module.has(local)
    &&& x.module.ty(local) == x.source.ty(value)
    &&& forall|outer: Env, inner: Env| #[trigger]
        linked(x, outer, inner) ==> word_of(x.module, inner, local) == word_of(
            x.source,
            outer,
            value,
        )
}

/// A local value of one bit stands for a bit of the source.
pub open spec fn bit_agrees(x: Import, value: ValueId, bit: int, local: ValueId) -> bool {
    &&& x.source.has(value)
    &&& 0 <= bit < x.source.ty(value).width
    &&& x.module.has(local)
    &&& x.module.ty(local).width == 1
    &&& forall|outer: Env, inner: Env| #[trigger]
        linked(x, outer, inner) ==> word_of(x.module, inner, local) == seq![
            word_of(x.source, outer, value)[bit],
        ]
}

pub open spec fn leaf_ok(x: Import, i: int) -> bool {
    let (value, local) = x.leaves[i];
    &&& x.source.has(value)
    &&& x.module.has(local)
    &&& x.module.ty(local) == x.source.ty(value)
    &&& x.source.kind(value) is Constant ==> x.module.kind(local) == x.source.kind(value)
}

pub open spec fn leaves_ok(x: Import) -> bool {
    forall|i: int| 0 <= i < x.leaves.len() ==> #[trigger] leaf_ok(x, i)
}

/// The local module and its border grew.
pub open spec fn step(x: Import, y: Import) -> bool {
    &&& y.source == x.source
    &&& y.known == x.known
    &&& x.module.wf()
    &&& y.module.wf()
    &&& x.module.widens_to(y.module)
    &&& x.leaves.len() <= y.leaves.len()
    &&& forall|i: int| 0 <= i < x.leaves.len() ==> #[trigger] y.leaves[i] == x.leaves[i]
}

pub proof fn lemma_step_words(x: Import, y: Import)
    requires
        step(x, y),
    ensures
        forall|env: Env, v: ValueId|
            x.module.has(v) ==> #[trigger] word_of(y.module, env, v) == word_of(x.module, env, v),
{
    assert forall|env: Env, v: ValueId| x.module.has(v) implies #[trigger] word_of(
        y.module,
        env,
        v,
    ) == word_of(x.module, env, v) by {
        lemma_eval_grows(x.module, y.module, env, v.raw as int);
    }
}

/// Whatever is linked after a step was linked before it.
pub proof fn lemma_step_linked(x: Import, y: Import)
    requires
        step(x, y),
        leaves_ok(x),
    ensures
        forall|outer: Env, inner: Env| #[trigger]
            linked(y, outer, inner) ==> linked(x, outer, inner),
{
    reveal(linked);
    lemma_step_words(x, y);
    assert forall|outer: Env, inner: Env| #[trigger] linked(y, outer, inner) implies linked(
        x,
        outer,
        inner,
    ) by {
        assert forall|i: int| 0 <= i < x.leaves.len() implies word_of(
            x.module,
            inner,
            (#[trigger] x.leaves[i]).1,
        ) == word_of(x.source, outer, x.leaves[i].0) by {
            assert(y.leaves[i] == x.leaves[i]);
            assert(leaf_ok(x, i));
        }
    }
}

pub proof fn lemma_agrees_step(x: Import, y: Import, value: ValueId, local: ValueId)
    requires
        step(x, y),
        leaves_ok(x),
        agrees(x, value, local),
    ensures
        agrees(y, value, local),
{
    lemma_step_words(x, y);
    lemma_step_linked(x, y);
    assert(y.module.values[local.raw as int] == x.module.values[local.raw as int]);
    assert forall|outer: Env, inner: Env| #[trigger] linked(y, outer, inner) implies word_of(
        y.module,
        inner,
        local,
    ) == word_of(y.source, outer, value) by {
        assert(linked(x, outer, inner));
    }
}

pub proof fn lemma_bit_step(x: Import, y: Import, value: ValueId, bit: int, local: ValueId)
    requires
        step(x, y),
        leaves_ok(x),
        bit_agrees(x, value, bit, local),
    ensures
        bit_agrees(y, value, bit, local),
{
    lemma_step_words(x, y);
    lemma_step_linked(x, y);
    assert(y.module.values[local.raw as int] == x.module.values[local.raw as int]);
    assert forall|outer: Env, inner: Env| #[trigger] linked(y, outer, inner) implies word_of(
        y.module,
        inner,
        local,
    ) == seq![word_of(y.source, outer, value)[bit]] by {
        assert(linked(x, outer, inner));
    }
}

pub proof fn lemma_step_trans(x: Import, y: Import, z: Import)
    requires
        step(x, y),
        step(y, z),
    ensures
        step(x, z),
{
    assert forall|i: int| 0 <= i < x.leaves.len() implies #[trigger] z.leaves[i] == x.leaves[i] by {
        assert(y.leaves[i] == x.leaves[i]);
    }
    assert forall|i: int| 0 <= i < x.module.values.len() implies #[trigger] z.module.values[i]
        == x.module.values[i] by {
        assert(y.module.values[i] == x.module.values[i]);
    }
    assert forall|i: int| 0 <= i < x.module.operations.len() implies #[trigger] z.module.operations[i]
        == x.module.operations[i] by {
        assert(y.module.operations[i] == x.module.operations[i]);
    }
    assert forall|i: int| 0 <= i < x.module.signals.len() implies #[trigger] z.module.signals[i]
        == x.module.signals[i] by {
        assert(y.module.signals[i] == x.module.signals[i]);
    }
}

/// A local value of one bit stands for what a function makes of a source
/// environment.
pub open spec fn stands_for(x: Import, local: ValueId, f: spec_fn(Env) -> bool) -> bool {
    &&& x.module.has(local)
    &&& x.module.ty(local).width == 1
    &&& forall|outer: Env, inner: Env| #[trigger]
        linked(x, outer, inner) ==> word_of(x.module, inner, local) == seq![f(outer)]
}

pub proof fn lemma_stands_step(x: Import, y: Import, local: ValueId, f: spec_fn(Env) -> bool)
    requires
        step(x, y),
        leaves_ok(x),
        stands_for(x, local, f),
    ensures
        stands_for(y, local, f),
{
    lemma_step_words(x, y);
    lemma_step_linked(x, y);
    assert(y.module.values[local.raw as int] == x.module.values[local.raw as int]);
    assert forall|outer: Env, inner: Env| #[trigger] linked(y, outer, inner) implies word_of(
        y.module,
        inner,
        local,
    ) == seq![f(outer)] by {
        assert(linked(x, outer, inner));
    }
}

/// The values of a dynamic extraction.
pub open spec fn extraction_of(source: ModuleView, operation: int) -> Option<
    (ValueId, ValueId, u32),
> {
    if 0 <= operation < source.operations.len() {
        match source.operations[operation].kind {
            OpView::DynamicExtract { value, offset, width } => Some((value, offset, width)),
            _ => None,
        }
    } else {
        None
    }
}

/// The bit of a value that lies above another by the low bits of an offset.
pub open spec fn shifted_bit(
    source: ModuleView,
    value: ValueId,
    offset: ValueId,
    stage: nat,
    bit: nat,
) -> spec_fn(Env) -> bool {
    |env: Env|
        word_of(source, env, value)[(bit + nat_of(
            word_of(source, env, offset).take(stage as int),
        )) as int]
}

/// Whether an offset has a bit from a place on.
pub open spec fn high_bits(source: ModuleView, offset: ValueId, stages: nat) -> spec_fn(
    Env,
) -> bool {
    |env: Env| any_bit(word_of(source, env, offset).skip(stages as int))
}

/// How many low bits of an offset can select within a width.
pub open spec fn select_stages(offset_width: nat, input_width: nat) -> nat {
    let length = crate::planning::architecture::bit_length(input_width);
    if offset_width <= length {
        offset_width
    } else {
        length
    }
}

/// What is remembered is of four kinds: bits of values, operations that were
/// carried over bit by bit, steps of a dynamic extraction and its high bits.
pub open spec fn entry_ok(x: Import, key: Seq<u64>, local: ValueId) -> bool {
    &&& key.len() == 4
    &&& if key[0] == 0 {
        key[1] <= u32::MAX && bit_agrees(
            x,
            ValueId { raw: key[1] as u32 },
            key[2] as int,
            local,
        )
    } else if key[0] == 1 {
        key[1] < x.source.operations.len() && agrees(
            x,
            x.source.operations[key[1] as int].result,
            local,
        )
    } else if key[0] == 2 {
        extraction_of(x.source, key[1] as int) matches Some(found) && stands_for(
            x,
            local,
            shifted_bit(x.source, found.0, found.1, key[2] as nat, key[3] as nat),
        )
    } else {
        extraction_of(x.source, key[1] as int) matches Some(found) && stands_for(
            x,
            local,
            high_bits(
                x.source,
                found.1,
                select_stages(x.source.ty(found.1).width as nat, x.source.ty(found.0).width as nat),
            ),
        )
    }
}

#[verifier::opaque]
pub open spec fn memory_ok(
    x: Import,
    mapped: Seq<Option<ValueId>>,
    cache: Map<Seq<u64>, u64>,
) -> bool {
    &&& mapped.len() == x.source.values.len()
    &&& forall|v: int|
        0 <= v < mapped.len() && (#[trigger] mapped[v]) is Some ==> agrees(
            x,
            ValueId { raw: v as u32 },
            mapped[v]->0,
        )
    &&& forall|key: Seq<u64>| #[trigger]
        cache.dom().contains(key) ==> cache[key] <= u32::MAX && entry_ok(
            x,
            key,
            ValueId { raw: cache[key] as u32 },
        )
}

proof fn lemma_entry_step(x: Import, y: Import, key: Seq<u64>, local: ValueId)
    requires
        step(x, y),
        leaves_ok(x),
        entry_ok(x, key, local),
    ensures
        entry_ok(y, key, local),
{
    if key[0] == 0 {
        lemma_bit_step(x, y, ValueId { raw: key[1] as u32 }, key[2] as int, local);
    } else if key[0] == 1 {
        lemma_agrees_step(x, y, x.source.operations[key[1] as int].result, local);
    } else if key[0] == 2 {
        let found = extraction_of(x.source, key[1] as int)->0;
        lemma_stands_step(
            x,
            y,
            local,
            shifted_bit(x.source, found.0, found.1, key[2] as nat, key[3] as nat),
        );
    } else {
        let found = extraction_of(x.source, key[1] as int)->0;
        lemma_stands_step(
            x,
            y,
            local,
            high_bits(
                x.source,
                found.1,
                select_stages(x.source.ty(found.1).width as nat, x.source.ty(found.0).width as nat),
            ),
        );
    }
}

pub proof fn lemma_memory_step(
    x: Import,
    y: Import,
    mapped: Seq<Option<ValueId>>,
    cache: Map<Seq<u64>, u64>,
)
    requires
        step(x, y),
        leaves_ok(x),
        memory_ok(x, mapped, cache),
    ensures
        memory_ok(y, mapped, cache),
{
    reveal(memory_ok);
    assert forall|v: int| 0 <= v < mapped.len() && (#[trigger] mapped[v]) is Some implies agrees(
        y,
        ValueId { raw: v as u32 },
        mapped[v]->0,
    ) by {
        lemma_agrees_step(x, y, ValueId { raw: v as u32 }, mapped[v]->0);
    }
    assert forall|key: Seq<u64>| #[trigger] cache.dom().contains(key) implies cache[key]
        <= u32::MAX && entry_ok(y, key, ValueId { raw: cache[key] as u32 }) by {
        lemma_entry_step(x, y, key, ValueId { raw: cache[key] as u32 });
    }
}

/// A value that is put at the border: a constant, a read that is cut there or
/// that memory or nothing drives, an operation of another region, or one with state.
pub open spec fn at_border(
    source: ModuleView,
    drivers: SignalDriverIndex,
    regions: Seq<Option<u32>>,
    region: u32,
    memory_signals: Seq<Option<SignalId>>,
    cut: Seq<bool>,
    value: ValueId,
) -> bool {
    match source.kind(value) {
        KindView::Constant(_) => true,
        KindView::Signal(reference) => memory_signals[reference.signal.raw as int] is Some
            || cut[value.raw as int] || !drivers.resolves(reference),
        KindView::Operation(operation) => regions[operation.raw as int] != Some(region)
            || !stateless(source.operations[operation.raw as int].kind),
    }
}

/// Local signals have the types of the signals that they stand for.
#[verifier::opaque]
pub open spec fn signals_typed(
    source: ModuleView,
    module: ModuleView,
    locals: Seq<Option<SignalId>>,
) -> bool {
    forall|s: int|
        0 <= s < locals.len() && (#[trigger] locals[s]) is Some ==> locals[s]->0.raw
            < module.signals.len() && module.signals[locals[s]->0.raw as int].ty
            == source.signals[s].ty
}

pub proof fn lemma_signals_typed(
    source: ModuleView,
    before: ModuleView,
    after: ModuleView,
    locals: Seq<Option<SignalId>>,
)
    requires
        signals_typed(source, before, locals),
        before.widens_to(after),
    ensures
        signals_typed(source, after, locals),
{
    reveal(signals_typed);
    assert forall|s: int| 0 <= s < locals.len() && (#[trigger] locals[s]) is Some implies locals[s]->0.raw
        < after.signals.len() && after.signals[locals[s]->0.raw as int].ty
        == source.signals[s].ty by {
        assert(after.signals[locals[s]->0.raw as int] == before.signals[locals[s]->0.raw as int]);
    }
}

/// What a place leads to stopped, so the place does.
pub proof fn lemma_stops_next(
    start: &RegionalWordImporter,
    before: &RegionalWordImporter,
    after: &RegionalWordImporter,
    place: Place,
    fuel: int,
    slack: int,
    next: Place,
    left: int,
    error: SynthError,
)
    requires
        start.same_frame(before),
        before.stops(after, next, left, cost(next), error),
        leads(start.graph(), start.visiting@, place, start.visiting@, next),
        left >= fuel - slack,
    ensures
        start.stops(after, place, fuel, slack, error),
{
    if !exhausted(after.module@, error) {
        lemma_next_fails(
            start.graph(),
            start.visiting@,
            place,
            fuel,
            slack,
            start.visiting@,
            next,
            left,
            error,
        );
    }
}

/// Part of what it takes to get on from a place stopped, so the whole does.
pub proof fn lemma_stops_layer(
    start: &RegionalWordImporter,
    before: &RegionalWordImporter,
    after: &RegionalWordImporter,
    place: Place,
    fuel: int,
    slack: int,
    left: int,
    rest: int,
    error: SynthError,
)
    requires
        start.same_frame(before),
        before.stops(after, place, left, rest, error),
        left - rest >= fuel - slack,
    ensures
        start.stops(after, place, fuel, slack, error),
{
    if !exhausted(after.module@, error) {
        lemma_layer(start.graph(), start.visiting@, place, fuel, slack, left, rest, error);
    }
}

/// Fuel that does not suffice to get on from a place.
pub proof fn lemma_stops_spent(
    start: &RegionalWordImporter,
    after: &RegionalWordImporter,
    place: Place,
    fuel: int,
    slack: int,
)
    requires
        fuel < slack,
    ensures
        start.stops(after, place, fuel, slack, circular()),
{
    lemma_spent(start.graph(), start.visiting@, place, fuel, slack);
}

/// Whatever was carried over is reached from a wanted value.
#[verifier::opaque]
pub open spec fn all_reached(graph: Graph, mapped: Seq<Option<ValueId>>) -> bool {
    forall|v: int|
        0 <= v < mapped.len() && (#[trigger] mapped[v]) is Some ==> from_wanted(
            graph,
            ValueId { raw: v as u32 },
        )
}

/// Whatever is being carried over is reached from a wanted value.
#[verifier::opaque]
pub open spec fn path_reached(graph: Graph, path: Seq<ValueId>) -> bool {
    forall|i: int| 0 <= i < path.len() ==> from_wanted(graph, #[trigger] path[i])
}

/// An operation of the region that is reached from a wanted value.
pub open spec fn source_reached(graph: Graph, operation: OpId) -> bool {
    &&& operation.raw < graph.source.operations.len()
    &&& graph.regions[operation.raw as int] == Some(graph.region)
    &&& from_wanted(graph, graph.source.operations[operation.raw as int].result)
}

/// The sources of local operations are operations of the region that are reached from
/// wanted values.
#[verifier::opaque]
pub open spec fn rows_reached(graph: Graph, rows: Seq<Vec<OpId>>) -> bool {
    forall|k: int, op: OpId|
        0 <= k < rows.len() && #[trigger] rows[k]@.contains(op) ==> source_reached(graph, op)
}

/// The operations on a path are reached.
pub proof fn lemma_row_reached(importer: &RegionalWordImporter, row: Seq<OpId>)
    requires
        importer.source@.wf(),
        path_reached(importer.graph(), importer.import_path@),
        importer.from_path(row),
    ensures
        forall|op: OpId| #[trigger] row.contains(op) ==> source_reached(importer.graph(), op),
{
    reveal(path_reached);
    let path = importer.import_path@;
    assert forall|op: OpId| #[trigger] row.contains(op) implies source_reached(
        importer.graph(),
        op,
    ) by {
        let i = choose|i: int|
            0 <= i < path.len() && importer.source@.has(#[trigger] path[i]) && importer.source@.kind(
                path[i],
            ) == KindView::Operation(op) && importer.operation_regions@[op.raw as int] == Some(
                importer.region,
            );
        assert(importer.source@.value_ok(path[i].raw as int));
        assert(importer.source@.operations[op.raw as int].result == path[i]);
    }
}

/// Bindings list what was put at the border, each value once and with what stands for
/// it. The value that is being put there is listed first and stands for nothing yet.
#[verifier::opaque]
pub open spec fn bound_once(
    graph: Graph,
    mapped: Seq<Option<ValueId>>,
    visiting: Seq<bool>,
    bindings: Seq<(ValueId, ValueId)>,
) -> bool {
    &&& forall|k: int|
        0 <= k < bindings.len() ==> {
            let (value, local) = #[trigger] bindings[k];
            &&& graph.source.has(value)
            &&& boundary_value(graph, value)
            &&& mapped[value.raw as int] == Some(local) || visiting[value.raw as int]
                && mapped[value.raw as int] is None
        }
    &&& forall|j: int, k: int|
        0 <= j < k < bindings.len() ==> (#[trigger] bindings[j]).0 != (#[trigger] bindings[k]).0
    &&& forall|v: int|
        0 <= v < mapped.len() && (#[trigger] mapped[v]) is Some && boundary_value(
            graph,
            ValueId { raw: v as u32 },
        ) ==> binds(bindings, ValueId { raw: v as u32 }, mapped[v]->0)
}

/// A value and what stands for it are listed.
pub open spec fn binds(bindings: Seq<(ValueId, ValueId)>, value: ValueId, local: ValueId) -> bool {
    exists|k: int| 0 <= k < bindings.len() && #[trigger] bindings[k] == (value, local)
}

/// No binding lists a value.
pub open spec fn unbound(bindings: Seq<(ValueId, ValueId)>, value: ValueId) -> bool {
    forall|k: int| 0 <= k < bindings.len() ==> (#[trigger] bindings[k]).0 != value
}

/// A value that was neither carried over nor is being so is not listed.
pub proof fn lemma_unbound(
    graph: Graph,
    mapped: Seq<Option<ValueId>>,
    visiting: Seq<bool>,
    bindings: Seq<(ValueId, ValueId)>,
    value: ValueId,
)
    requires
        bound_once(graph, mapped, visiting, bindings),
        mapped[value.raw as int] is None,
        !visiting[value.raw as int],
        graph.source.has(value),
        mapped.len() == graph.source.values.len(),
        visiting.len() == graph.source.values.len(),
    ensures
        unbound(bindings, value),
        bound_once(graph, mapped, visiting.update(value.raw as int, true), bindings),
{
    reveal(bound_once);
    let marked = visiting.update(value.raw as int, true);
    assert forall|k: int| 0 <= k < bindings.len() implies ({
        let (other, local) = #[trigger] bindings[k];
        &&& graph.source.has(other)
        &&& boundary_value(graph, other)
        &&& mapped[other.raw as int] == Some(local) || marked[other.raw as int]
            && mapped[other.raw as int] is None
    }) by {
        let (other, local) = bindings[k];
        if other.raw == value.raw {
            assert(other == value);
        }
    }
}

/// The value that is being carried over is listed.
pub proof fn lemma_bound(
    graph: Graph,
    mapped: Seq<Option<ValueId>>,
    visiting: Seq<bool>,
    bindings: Seq<(ValueId, ValueId)>,
    value: ValueId,
    local: ValueId,
)
    requires
        bound_once(graph, mapped, visiting, bindings),
        unbound(bindings, value),
        graph.source.has(value),
        boundary_value(graph, value),
        mapped[value.raw as int] is None,
        visiting[value.raw as int],
    ensures
        bound_once(graph, mapped, visiting, bindings.push((value, local))),
{
    reveal(bound_once);
    let more = bindings.push((value, local));
    assert forall|v: int|
        0 <= v < mapped.len() && (#[trigger] mapped[v]) is Some && boundary_value(
            graph,
            ValueId { raw: v as u32 },
        ) implies binds(more, ValueId { raw: v as u32 }, mapped[v]->0) by {
        assert(binds(bindings, ValueId { raw: v as u32 }, mapped[v]->0));
        let k = choose|k: int| 0 <= k < bindings.len() && #[trigger] bindings[k] == (
            ValueId { raw: v as u32 },
            mapped[v]->0,
        );
        assert(more[k] == bindings[k]);
    }
}

/// The value that was being carried over stands for something.
pub proof fn lemma_bound_settled(
    graph: Graph,
    mapped: Seq<Option<ValueId>>,
    visiting: Seq<bool>,
    bindings: Seq<(ValueId, ValueId)>,
    value: ValueId,
    local: ValueId,
)
    requires
        bound_once(graph, mapped, visiting, bindings),
        mapped[value.raw as int] is None,
        graph.source.has(value),
        mapped.len() == graph.source.values.len(),
        visiting.len() == graph.source.values.len(),
        boundary_value(graph, value) ==> binds(bindings, value, local),
    ensures
        bound_once(
            graph,
            mapped.update(value.raw as int, Some(local)),
            visiting.update(value.raw as int, false),
            bindings,
        ),
{
    reveal(bound_once);
    let after = mapped.update(value.raw as int, Some(local));
    let left = visiting.update(value.raw as int, false);
    assert(ValueId { raw: value.raw as int as u32 } == value);
    assert forall|k: int| 0 <= k < bindings.len() implies ({
        let (other, held) = #[trigger] bindings[k];
        &&& graph.source.has(other)
        &&& boundary_value(graph, other)
        &&& after[other.raw as int] == Some(held) || left[other.raw as int]
            && after[other.raw as int] is None
    }) by {
        let (other, held) = bindings[k];
        if other.raw == value.raw {
            assert(other == value);
            let j = choose|j: int| 0 <= j < bindings.len() && #[trigger] bindings[j] == (
                value,
                local,
            );
            if j < k {
                assert(bindings[j].0 != bindings[k].0);
            } else if k < j {
                assert(bindings[k].0 != bindings[j].0);
            }
        }
    }
    assert forall|v: int|
        0 <= v < after.len() && (#[trigger] after[v]) is Some && boundary_value(
            graph,
            ValueId { raw: v as u32 },
        ) implies binds(bindings, ValueId { raw: v as u32 }, after[v]->0) by {
        if v != value.raw {
            assert(mapped[v] is Some);
        }
    }
}

/// What is being carried over lies inside of the region.
pub open spec fn marks_inner(graph: Graph, visiting: Seq<bool>) -> bool {
    forall|value: ValueId|
        graph.source.has(value) && #[trigger] visiting[value.raw as int] ==> !graph.border(value)
}

/// A value is reached from all that is being carried over.
pub open spec fn marks_reach(graph: Graph, visiting: Seq<bool>, value: ValueId) -> bool {
    forall|other: ValueId|
        graph.source.has(other) && #[trigger] visiting[other.raw as int] ==> reaches(
            graph,
            other,
            value,
        )
}

/// The state of carrying a region over.
pub struct RegionalWordImporter<'a> {
    pub source: &'a WordModule,
    pub drivers: SignalDriverIndex,
    pub operation_regions: &'a Vec<Option<u32>>,
    pub region: u32,
    pub known: &'a Vec<Vec<Option<bool>>>,
    pub module: WordModule,
    pub source_to_local: Vec<Option<ValueId>>,
    pub boundary_bindings: Vec<(ValueId, ValueId)>,
    pub operation_sources: Vec<Vec<OpId>>,
    pub visiting: Vec<bool>,
    pub import_path: Vec<ValueId>,
    pub memory_signals: Vec<Option<SignalId>>,
    pub cut: Vec<bool>,
    pub boundary_port_signals: Vec<Option<SignalId>>,
    pub cache: KeyMap,
    pub acyclic: bool,
    pub leaves: Ghost<Seq<(ValueId, ValueId)>>,
    pub order: Ghost<(Map<ValueId, nat>, nat)>,
    pub wanted: Ghost<Set<ValueId>>,
}

impl<'a> RegionalWordImporter<'a> {
    pub open spec fn x(&self) -> Import {
        Import {
            source: self.source@,
            module: self.module@,
            known: self.known@,
            leaves: self.leaves@,
        }
    }

    pub open spec fn border(&self, value: ValueId) -> bool {
        at_border(
            self.source@,
            self.drivers,
            self.operation_regions@,
            self.region,
            self.memory_signals@,
            self.cut@,
            value,
        )
    }

    /// The border of the local module.
    pub open spec fn interface(&self) -> Interface {
        Interface {
            source: self.source@,
            module: self.module@,
            inlets: self.boundary_port_signals@,
            memory_signals: self.memory_signals@,
            leaves: self.leaves@,
            bindings: self.boundary_bindings@,
        }
    }

    pub open spec fn inv(&self) -> bool {
        self.in_order() && self.interface().sound()
    }

    /// What holds also while a value is being put at the border.
    pub open spec fn in_order(&self) -> bool {
        &&& self.source@.wf()
        &&& self.module@.wf()
        &&& self.drivers.describes(self.source@)
        &&& self.acyclic ==> self.graph().acyclic()
        &&& self.operation_regions@.len() == self.source@.operations.len()
        &&& self.visiting@.len() == self.source@.values.len()
        &&& self.cut@.len() == self.source@.values.len()
        &&& self.memory_signals@.len() == self.source@.signals.len()
        &&& self.boundary_port_signals@.len() == self.source@.signals.len()
        &&& self.operation_sources@.len() == self.module@.operations.len()
        &&& rows_ascend(self.operation_sources@)
        &&& leaves_ok(self.x())
        &&& forall|i: int|
            0 <= i < self.leaves@.len() ==> self.border((#[trigger] self.leaves@[i]).0)
        &&& memory_ok(self.x(), self.source_to_local@, self.cache@)
        &&& signals_typed(self.source@, self.module@, self.memory_signals@)
        &&& signals_typed(self.source@, self.module@, self.boundary_port_signals@)
        &&& all_reached(self.graph(), self.source_to_local@)
        &&& path_reached(self.graph(), self.import_path@)
        &&& rows_reached(self.graph(), self.operation_sources@)
        &&& bound_once(
            self.graph(),
            self.source_to_local@,
            self.visiting@,
            self.boundary_bindings@,
        )
        &&& self.traced()
    }

    /// A value can be carried over: it is reached from a wanted one and from all that is
    /// being carried over, and nothing at the border is being so.
    pub open spec fn within(&self, value: ValueId) -> bool {
        &&& from_wanted(self.graph(), value)
        &&& marks_inner(self.graph(), self.visiting@)
        &&& marks_reach(self.graph(), self.visiting@, value)
    }

    /// The operands of an operation that is being carried over can be carried over.
    pub open spec fn operands_within(&self, operation: OpId) -> bool {
        let inputs = op_inputs(self.source@.operations[operation.raw as int].kind);
        &&& forall|i: int|
            0 <= i < inputs.len() ==> from_wanted(self.graph(), #[trigger] inputs[i])
                && marks_reach(self.graph(), self.visiting@, inputs[i])
        &&& marks_inner(self.graph(), self.visiting@)
        &&& self.visiting@[self.source@.operations[operation.raw as int].result.raw as int]
    }

    /// What dependencies are followed in.
    pub open spec fn graph(&self) -> Graph {
        Graph {
            source: self.source@,
            drivers: self.drivers,
            regions: self.operation_regions@,
            region: self.region,
            memory_signals: self.memory_signals@,
            cut: self.cut@,
            name: self.source.name@,
            wanted: self.wanted@,
        }
    }

    /// Carrying a place over stopped: no identifier was left, or the place cannot
    /// be carried over with the fuel.
    pub open spec fn stops(
        &self,
        after: &Self,
        place: Place,
        fuel: int,
        slack: int,
        error: SynthError,
    ) -> bool {
        exhausted(after.module@, error) || fails_within(
            self.graph(),
            self.visiting@,
            place,
            fuel,
            slack,
            error,
        )
    }

    /// Carrying a value over stopped, also where it is none of the source.
    pub open spec fn whole_stops(
        &self,
        after: &Self,
        value: ValueId,
        fuel: int,
        error: SynthError,
    ) -> bool {
        if self.source@.has(value) {
            self.stops(after, Place::Whole(value), fuel, 1, error)
        } else if fuel == 0 {
            error == circular()
        } else {
            error == SynthError::Invariant(Invariant::UnknownValue)
        }
    }

    /// Carrying a bit over stopped, also where the value has no such bit.
    pub open spec fn bit_stops(
        &self,
        after: &Self,
        value: ValueId,
        bit: int,
        fuel: int,
        error: SynthError,
    ) -> bool {
        if self.source@.has(value) && bit < self.source@.ty(value).width {
            self.stops(after, Place::Bit(value, bit), fuel, 1, error)
        } else if fuel == 0 {
            error == circular()
        } else if !self.source@.has(value) {
            error == SynthError::Invariant(Invariant::UnknownValue)
        } else {
            error == SynthError::Invariant(Invariant::MissingBit)
        }
    }

    /// What does not change while a region is carried over.
    pub open spec fn same_frame(&self, other: &Self) -> bool {
        &&& self.source == other.source
        &&& self.drivers == other.drivers
        &&& self.operation_regions == other.operation_regions
        &&& self.region == other.region
        &&& self.known == other.known
        &&& self.memory_signals == other.memory_signals
        &&& self.cut == other.cut
        &&& self.wanted == other.wanted
        &&& self.visiting@ == other.visiting@
        &&& self.import_path@ == other.import_path@
    }

    /// What a successful step keeps and adds.
    pub open spec fn went_on(&self, after: &Self) -> bool {
        &&& after.inv()
        &&& self.moved_on(after)
    }

    pub open spec fn moved_on(&self, after: &Self) -> bool {
        &&& after.in_order()
        &&& step(self.x(), after.x())
        &&& self.same_frame(after)
        &&& self.acyclic ==> after.acyclic
        &&& after.source_to_local@.len() == self.source_to_local@.len()
        &&& forall|v: int|
            0 <= v < self.source_to_local@.len() && (self.source_to_local@[v] is Some
                || self.visiting@[v]) ==> #[trigger] after.source_to_local@[v] == self.source_to_local@[v]
        &&& after.module@.memories == self.module@.memories
        &&& after.module@.memory_reads == self.module@.memory_reads
        &&& after.module@.memory_writes == self.module@.memory_writes
    }

    /// The operations of the region that are being carried over, ascending.
    pub fn current_operation_sources(&self) -> (sources: Vec<OpId>)
        requires
            self.source@.wf(),
            self.operation_regions@.len() == self.source@.operations.len(),
        ensures
            self.from_path(sources@),
    {
        let mut sources: Vec<OpId> = Vec::new();
        let mut p: usize = 0;
        while p < self.import_path.len()
            invariant
                self.source@.wf(),
                self.operation_regions@.len() == self.source@.operations.len(),
                p <= self.import_path@.len(),
                forall|i: int, j: int|
                    0 <= i < j < sources@.len() ==> (#[trigger] sources@[i]).raw < (
                    #[trigger] sources@[j]).raw,
                forall|op: OpId|
                    #[trigger] sources@.contains(op) <==> on_path(
                        self.source@,
                        self.operation_regions@,
                        self.region,
                        self.import_path@,
                        op,
                        p as nat,
                    ),
            decreases self.import_path.len() - p,
        {
            let value = self.import_path[p];
            if (value.raw as usize) < self.source.values.len() {
                assert(self.source@.value_ok(value.raw as int));
                if let ValueKind::Operation(operation) = self.source.values[value.raw as usize].kind {
                    match self.operation_regions[operation.raw as usize] {
                        Some(region) => {
                            if region == self.region {
                                insert_ascending(&mut sources, operation);
                            }
                        },
                        None => {},
                    }
                }
            }
            p += 1;
        }
        sources
    }

    /// Gives new operations the operations that are being carried over as their
    /// sources.
    pub fn note(&mut self)
        requires
            old(self).source@.wf(),
            old(self).operation_regions@.len() == old(self).source@.operations.len(),
            old(self).operation_sources@.len() <= old(self).module@.operations.len(),
        ensures
            *final(self) == (RegionalWordImporter {
                operation_sources: final(self).operation_sources,
                ..*old(self)
            }),
            final(self).operation_sources@.len() == final(self).module@.operations.len(),
            forall|k: int|
                0 <= k < old(self).operation_sources@.len() ==> #[trigger] final(self).operation_sources@[k] == old(self).operation_sources@[k],
            forall|k: int|
                old(self).operation_sources@.len() <= k < final(self).operation_sources@.len()
                    ==> old(self).from_path((#[trigger] final(self).operation_sources@[k])@),
            rows_ascend(old(self).operation_sources@) ==> rows_ascend(
                final(self).operation_sources@,
            ),
            path_reached(old(self).graph(), old(self).import_path@) && rows_reached(
                old(self).graph(),
                old(self).operation_sources@,
            ) ==> rows_reached(final(self).graph(), final(self).operation_sources@),
    {
        while self.operation_sources.len() < self.module.operations.len()
            invariant
                self.source@.wf(),
                self.operation_regions@.len() == self.source@.operations.len(),
                self.operation_sources@.len() <= self.module@.operations.len(),
                old(self).operation_sources@.len() <= self.operation_sources@.len(),
                *self == (RegionalWordImporter {
                    operation_sources: self.operation_sources,
                    ..*old(self)
                }),
                forall|k: int|
                    0 <= k < old(self).operation_sources@.len()
                        ==> #[trigger] self.operation_sources@[k] == old(self).operation_sources@[k],
                forall|k: int|
                    old(self).operation_sources@.len() <= k < self.operation_sources@.len()
                        ==> old(self).from_path((#[trigger] self.operation_sources@[k])@),
                rows_ascend(old(self).operation_sources@) ==> rows_ascend(
                    self.operation_sources@,
                ),
                path_reached(old(self).graph(), old(self).import_path@) && rows_reached(
                    old(self).graph(),
                    old(self).operation_sources@,
                ) ==> rows_reached(self.graph(), self.operation_sources@),
            decreases self.module.operations.len() - self.operation_sources.len(),
        {
            let row = self.current_operation_sources();
            let ghost rows = self.operation_sources@;
            let ghost added = row@;
            self.operation_sources.push(row);
            proof {
                assert(self.graph() == old(self).graph());
                if path_reached(old(self).graph(), old(self).import_path@) && rows_reached(
                    old(self).graph(),
                    rows,
                ) {
                    lemma_row_reached(self, added);
                    reveal(rows_reached);
                    assert forall|k: int, op: OpId|
                        0 <= k < self.operation_sources@.len()
                            && #[trigger] self.operation_sources@[k]@.contains(op) implies source_reached(
                        self.graph(),
                        op,
                    ) by {
                        if k < rows.len() {
                            assert(rows[k]@.contains(op));
                        }
                    }
                }
                if rows_ascend(rows) {
                    assert forall|k: int| 0 <= k < self.operation_sources@.len() implies ascends(
                        (#[trigger] self.operation_sources@[k])@,
                    ) by {
                        if k < rows.len() {
                            assert(ascends(rows[k]@));
                        }
                    }
                }
            }
        }
    }

    /// A row holds the operations of the region on the current path, ascending.
    pub open spec fn from_path(&self, sources: Seq<OpId>) -> bool {
        &&& forall|i: int, j: int|
            0 <= i < j < sources.len() ==> (#[trigger] sources[i]).raw < (
            #[trigger] sources[j]).raw
        &&& forall|op: OpId|
            #[trigger] sources.contains(op) <==> on_path(
                self.source@,
                self.operation_regions@,
                self.region,
                self.import_path@,
                op,
                self.import_path@.len(),
            )
    }
}

pub open spec fn ascends(operations: Seq<OpId>) -> bool {
    forall|i: int, j: int|
        0 <= i < j < operations.len() ==> (#[trigger] operations[i]).raw < (
        #[trigger] operations[j]).raw
}

/// The sources of every operation ascend.
pub open spec fn rows_ascend(rows: Seq<Vec<OpId>>) -> bool {
    forall|k: int| 0 <= k < rows.len() ==> ascends((#[trigger] rows[k])@)
}

/// An operation of the region among the first values of a path.
pub open spec fn on_path(
    source: ModuleView,
    regions: Seq<Option<u32>>,
    region: u32,
    path: Seq<ValueId>,
    operation: OpId,
    count: nat,
) -> bool {
    exists|i: int|
        0 <= i < count && source.has(#[trigger] path[i]) && source.kind(path[i])
            == KindView::Operation(operation) && regions[operation.raw as int] == Some(region)
}

/// Puts an operation at its place among ascending ones, once.
pub fn insert_ascending(operations: &mut Vec<OpId>, operation: OpId)
    requires
        forall|i: int, j: int|
            0 <= i < j < old(operations)@.len() ==> (#[trigger] old(operations)@[i]).raw < (
            #[trigger] old(operations)@[j]).raw,
    ensures
        forall|i: int, j: int|
            0 <= i < j < final(operations)@.len() ==> (#[trigger] final(operations)@[i]).raw < (
            #[trigger] final(operations)@[j]).raw,
        forall|op: OpId|
            #[trigger] final(operations)@.contains(op) <==> old(operations)@.contains(op) || op
                == operation,
{
    let ghost before = operations@;
    let mut place: usize = 0;
    while place < operations.len() && operations[place].raw < operation.raw
        invariant
            operations@ == before,
            place <= operations@.len(),
            forall|i: int| 0 <= i < place ==> (#[trigger] operations@[i]).raw < operation.raw,
        decreases operations.len() - place,
    {
        place += 1;
    }
    if place < operations.len() && operations[place].raw == operation.raw {
        assert(before[place as int] == operation);
        return;
    }
    operations.insert(place, operation);
    proof {
        let after = operations@;
        assert(after == before.insert(place as int, operation));
        assert forall|i: int, j: int| 0 <= i < j < after.len() implies (#[trigger] after[i]).raw < (
        #[trigger] after[j]).raw by {
            if j == place {
                assert(after[i] == before[i]);
            } else if i == place {
                assert(after[j] == before[j - 1]);
                if place < j - 1 {
                    assert(before[place as int].raw < before[j - 1].raw);
                }
            }
        }
        assert forall|op: OpId| #[trigger] after.contains(op) <==> before.contains(op) || op
            == operation by {
            if before.contains(op) {
                let i = choose|i: int| 0 <= i < before.len() && before[i] == op;
                if i < place {
                    assert(after[i] == op);
                } else {
                    assert(after[i + 1] == op);
                }
            }
            if op == operation {
                assert(after[place as int] == op);
            }
            if after.contains(op) && op != operation {
                let i = choose|i: int| 0 <= i < after.len() && after[i] == op;
                if i < place {
                    assert(before[i] == op);
                } else {
                    assert(before[i - 1] == op);
                }
            }
        }
    }
}

} // verus!
