//! The part of a design that one region computes, as a module of its own.

use super::failure::{
    exhausted, fails, lemma_enough_fuel, lemma_told, made_of, meets, memory_reads_typed, told, Graph, Place, ENOUGH_FUEL,
};
use super::following::{
    boundary_value, computed, footprint, from_wanted, lemma_covered_kept, lemma_covered_on,
    lemma_covered_spends, lemma_covered_within, lemma_settled_kept, made_at, pieced, reaches, retyped, retypes, joins_at, takes_bit, size, turns, walk_of,
};
use super::interface::{
    belongs, inner_env, lemma_connected, lemma_links, lemma_outlet, Interface,
};
use super::importer::{
    agrees, all_reached, binds, bound_once, path_reached, rows_reached, source_reached, known_holds, lemma_agrees_step, lemma_step_trans, leaves_ok, linked, memory_ok, signals_typed, step, Import,
    RegionalWordImporter,
};
use super::tracing::{all_imaged, imaged, marks_on_path, parts_held, parts_ready, rows_suit, suits};
use super::toll::{
    every_graph_has_a_toll, lemma_covered_keeps, lemma_toll, reached_count, roomy, toll,
};
use super::memories::{
    lemma_reads_step, lemma_resources_added, lemma_writes_step, listed_reads, listed_writes,
    memories_agree, memory_cost, port_fails, ports_take, read_signals, reads_agree, unmakable, writes_agree,
};
use crate::collections::KeyMap;
use crate::error::{Invariant, Resource, SynthError};
use crate::planning::memory::clocks::Ranges;
use crate::planning::memory::lowering::{
    first_fault, fully_lowered, lower_selected_memories, lowering_done, memories_lowered,
    memory_lowered,
    operations_between, row_lists, some_macro_fails, states_between, MemoryLoweringBinding,
    MemoryLoweringRow,
};
use crate::planning::fsm::transition::facts_view;
use crate::planning::memory::ports::memories_fit;
use crate::planning::memory::target::TargetCell;
use crate::planning::regional::decision::MemoryImplementationCandidate;
use crate::word::cycle::loop_error;
use crate::word::drivers::{driven, SignalDriverIndex};
use crate::word::module::{KindView, LValue, ModuleView, PortDirection, WordModule};
use crate::word::names::{decimal, numbered_name};
use crate::word::resources::kept;
use crate::word::semantics::{word_of, Env};
use crate::word::types::{BitVal, ConstBits, MemoryId, OpId, SignalId, SourceSpan, ValueId, WordType};
use vstd::prelude::*;
use vstd::string::StringExecFns;

verus! {

/// What is to be carried over: the operations of a region, its memories, the
/// values at its border and the values that are observed.
pub struct RegionalWordConeRequest<'a> {
    pub source: &'a WordModule,
    pub operation_regions: &'a Vec<Option<u32>>,
    pub region: u32,
    pub known: &'a Vec<Vec<Option<bool>>>,
    pub memories: &'a Vec<MemoryId>,
    pub boundary_inputs: &'a Vec<ValueId>,
    pub roots: &'a Vec<ValueId>,
}

/// What a value of a lowered memory is.
#[derive(Clone, Copy, PartialEq, Eq, Structural, Debug)]
pub enum RegionalMemoryValueKind {
    Operation,
    State,
}

/// A value that was made for a memory.
#[derive(Clone, Copy, PartialEq, Eq, Structural, Debug)]
pub struct RegionalMemoryValueBinding {
    pub local: ValueId,
    pub source_memory: MemoryId,
    pub kind: RegionalMemoryValueKind,
    pub ordinal: u32,
}

/// A region as a module of its own.
pub struct RegionalWordCone {
    pub module: WordModule,
    pub source_to_local: Vec<Option<ValueId>>,
    pub boundary_bindings: Vec<(ValueId, ValueId)>,
    pub operation_sources: Vec<Vec<OpId>>,
    pub memory_values: Vec<RegionalMemoryValueBinding>,
    pub root_bindings: Vec<(ValueId, SignalId)>,
    pub memory_signals: Vec<Option<SignalId>>,
    pub drivers: SignalDriverIndex,
    /// Some value was reached again while it was being carried over, so that bits
    /// were carried over one by one.
    pub recursive: bool,
    pub leaves: Ghost<Seq<(ValueId, ValueId)>>,
    /// The input of each signal of the source that lies at the border.
    pub inlets: Ghost<Seq<Option<SignalId>>>,
}

/// Values that ascend.
pub open spec fn values_ascend(values: Seq<ValueId>) -> bool {
    forall|i: int, j: int|
        0 <= i < j < values.len() ==> (#[trigger] values[i]).raw < (#[trigger] values[j]).raw
}

/// Every value once, ascending.
fn ascending(values: &Vec<ValueId>) -> (sorted: Vec<ValueId>)
    ensures
        values_ascend(sorted@),
        forall|v: ValueId| #[trigger] sorted@.contains(v) <==> values@.contains(v),
{
    let mut sorted: Vec<ValueId> = Vec::new();
    let mut i: usize = 0;
    while i < values.len()
        invariant
            i <= values@.len(),
            values_ascend(sorted@),
            forall|v: ValueId|
                #[trigger] sorted@.contains(v) <==> values@.take(i as int).contains(v),
        decreases values.len() - i,
    {
        let value = values[i];
        let ghost before = sorted@;
        let mut place: usize = 0;
        while place < sorted.len() && sorted[place].raw < value.raw
            invariant
                place <= sorted@.len(),
                forall|k: int| 0 <= k < place ==> (#[trigger] sorted@[k]).raw < value.raw,
            decreases sorted.len() - place,
        {
            place += 1;
        }
        if place == sorted.len() || sorted[place].raw != value.raw {
            sorted.insert(place, value);
            proof {
                assert forall|a: int, b: int| 0 <= a < b < sorted@.len() implies (
                #[trigger] sorted@[a]).raw < (#[trigger] sorted@[b]).raw by {
                    let p = if a < place {
                        a
                    } else {
                        a - 1
                    };
                    let q = if b < place {
                        b
                    } else {
                        b - 1
                    };
                    if a != place && b != place {
                        assert(before[p].raw < before[q].raw);
                    } else if a == place {
                        assert(before[place as int].raw > value.raw);
                        if q > place {
                            assert(before[place as int].raw < before[q].raw);
                        }
                    }
                }
                assert forall|v: ValueId| #[trigger] sorted@.contains(v) <==> before.contains(v) || v
                    == value by {
                    if before.contains(v) {
                        let k = choose|k: int| 0 <= k < before.len() && before[k] == v;
                        if k < place {
                            assert(sorted@[k] == v);
                        } else {
                            assert(sorted@[k + 1] == v);
                        }
                    }
                    if v == value {
                        assert(sorted@[place as int] == v);
                    }
                    if sorted@.contains(v) && v != value {
                        let k = choose|k: int| 0 <= k < sorted@.len() && sorted@[k] == v;
                        if k < place {
                            assert(before[k] == v);
                        } else {
                            assert(before[k - 1] == v);
                        }
                    }
                }
            }
        } else {
            assert(before[place as int] == value);
        }
        proof {
            let more = values@.take(i + 1);
            assert(more =~= values@.take(i as int).push(value));
            assert forall|v: ValueId| #[trigger] more.contains(v) <==> values@.take(
                i as int,
            ).contains(v) || v == value by {
                if values@.take(i as int).contains(v) {
                    let k = choose|k: int| 0 <= k < i && values@.take(i as int)[k] == v;
                    assert(more[k] == v);
                }
                if v == value {
                    assert(more[i as int] == v);
                }
            }
        }
        i += 1;
    }
    assert(values@.take(i as int) =~= values@);
    sorted
}

/// Roots that are carried over to one value.
#[derive(Debug)]
pub struct RootGroup {
    pub local: ValueId,
    pub roots: Vec<ValueId>,
    pub ty: WordType,
    pub span: SourceSpan,
}

/// All roots of a group stand for its value.
pub open spec fn group_ok(x: Import, group: RootGroup) -> bool {
    &&& group.roots@.len() > 0
    &&& group.ty == x.source.ty(group.roots@[0])
    &&& forall|i: int|
        0 <= i < group.roots@.len() ==> agrees(x, #[trigger] group.roots@[i], group.local)
}

pub open spec fn groups_ok(x: Import, groups: Seq<RootGroup>) -> bool {
    &&& forall|g: int| 0 <= g < groups.len() ==> group_ok(x, #[trigger] groups[g])
    &&& forall|g: int, h: int|
        0 <= g < h < groups.len() ==> (#[trigger] groups[g]).local.raw < (
        #[trigger] groups[h]).local.raw
}

/// A root is in one of the groups.
pub open spec fn grouped(groups: Seq<RootGroup>, root: ValueId) -> bool {
    exists|g: int| 0 <= g < groups.len() && (#[trigger] groups[g]).roots@.contains(root)
}

proof fn lemma_groups_step(x: Import, y: Import, groups: Seq<RootGroup>)
    requires
        step(x, y),
        leaves_ok(x),
        groups_ok(x, groups),
    ensures
        groups_ok(y, groups),
{
    assert forall|g: int| 0 <= g < groups.len() implies group_ok(y, #[trigger] groups[g]) by {
        assert(group_ok(x, groups[g]));
        assert forall|i: int| 0 <= i < groups[g].roots@.len() implies agrees(
            y,
            #[trigger] groups[g].roots@[i],
            groups[g].local,
        ) by {
            lemma_agrees_step(x, y, groups[g].roots@[i], groups[g].local);
        }
    }
}

/// Puts a root into its group.
fn place_root(groups: &mut Vec<RootGroup>, root: ValueId, local: ValueId, ty: WordType, span: SourceSpan, Ghost(x): Ghost<Import>)
    requires
        groups_ok(x, old(groups)@),
        agrees(x, root, local),
        ty == x.source.ty(root),
    ensures
        groups_ok(x, final(groups)@),
        forall|v: ValueId| #[trigger]
            grouped(final(groups)@, v) <==> grouped(old(groups)@, v) || v == root,
{
    let ghost before = groups@;
    let mut place: usize = 0;
    while place < groups.len() && groups[place].local.raw < local.raw
        invariant
            place <= groups@.len(),
            forall|k: int| 0 <= k < place ==> (#[trigger] groups@[k]).local.raw < local.raw,
        decreases groups.len() - place,
    {
        place += 1;
    }
    if place < groups.len() && groups[place].local.raw == local.raw {
        let mut group = groups.remove(place);
        let ghost held = group.roots@;
        group.roots.push(root);
        let ghost made = group;
        groups.insert(place, group);
        proof {
            assert(groups@ =~= before.update(place as int, made));
            assert(group_ok(x, before[place as int]));
            assert forall|i: int| 0 <= i < made.roots@.len() implies agrees(
                x,
                #[trigger] made.roots@[i],
                made.local,
            ) by {
                if i < held.len() {
                    assert(made.roots@[i] == before[place as int].roots@[i]);
                }
            }
            assert forall|g: int| 0 <= g < groups@.len() implies group_ok(x, #[trigger] groups@[g]) by {
                if g != place {
                    assert(group_ok(x, before[g]));
                }
            }
            assert forall|v: ValueId| #[trigger] grouped(groups@, v) <==> grouped(before, v) || v
                == root by {
                assert(made.roots@.contains(v) <==> held.contains(v) || v == root) by {
                    if held.contains(v) {
                        let k = choose|k: int| 0 <= k < held.len() && held[k] == v;
                        assert(made.roots@[k] == v);
                    }
                    assert(made.roots@[held.len() as int] == root);
                }
                if grouped(before, v) {
                    let g = choose|g: int|
                        0 <= g < before.len() && (#[trigger] before[g]).roots@.contains(v);
                    if g == place {
                        assert(groups@[g].roots@.contains(v));
                    } else {
                        assert(groups@[g] == before[g]);
                    }
                }
                if v == root {
                    assert(groups@[place as int].roots@.contains(v));
                }
                if grouped(groups@, v) && v != root {
                    let g = choose|g: int|
                        0 <= g < groups@.len() && (#[trigger] groups@[g]).roots@.contains(v);
                    assert(before[g].roots@.contains(v));
                }
            }
        }
    } else {
        let mut roots: Vec<ValueId> = Vec::new();
        roots.push(root);
        let group = RootGroup { local, roots, ty, span };
        let ghost made = group;
        groups.insert(place, group);
        proof {
            assert(groups@ =~= before.insert(place as int, made));
            assert(group_ok(x, made));
            assert forall|g: int| 0 <= g < groups@.len() implies group_ok(x, #[trigger] groups@[g]) by {
                if g < place {
                    assert(group_ok(x, before[g]));
                } else if g > place {
                    assert(group_ok(x, before[g - 1]));
                }
            }
            assert forall|g: int, h: int| 0 <= g < h < groups@.len() implies (
            #[trigger] groups@[g]).local.raw < (#[trigger] groups@[h]).local.raw by {
                let p = if g < place {
                    g
                } else {
                    g - 1
                };
                let q = if h < place {
                    h
                } else {
                    h - 1
                };
                if g != place && h != place {
                    assert(before[p].local.raw < before[q].local.raw);
                } else if g == place {
                    assert(before[place as int].local.raw > local.raw);
                    if q > place {
                        assert(before[place as int].local.raw < before[q].local.raw);
                    }
                }
            }
            assert(made.roots@[0] == root);
            assert forall|v: ValueId| #[trigger] grouped(groups@, v) <==> grouped(before, v) || v
                == root by {
                if grouped(before, v) {
                    let g = choose|g: int|
                        0 <= g < before.len() && (#[trigger] before[g]).roots@.contains(v);
                    let h = if g < place {
                        g
                    } else {
                        g + 1
                    };
                    assert(groups@[h] == before[g]);
                }
                if v == root {
                    assert(groups@[place as int].roots@.contains(v));
                }
                if grouped(groups@, v) && v != root {
                    let g = choose|g: int|
                        0 <= g < groups@.len() && (#[trigger] groups@[g]).roots@.contains(v);
                    if g < place {
                        assert(before[g].roots@.contains(v));
                    } else if g > place {
                        assert(before[g - 1].roots@.contains(v));
                    }
                }
            }
        }
    }
}

/// Carries the roots over and groups them by the value that they become.
#[verifier::rlimit(30)]
fn import_roots(
    importer: &mut RegionalWordImporter,
    roots: &Vec<ValueId>,
    fuel: u128,
    Ghost(wanted): Ghost<Set<ValueId>>,
) -> (result: Result<Vec<RootGroup>, SynthError>)
    requires
        old(importer).inv(),
        old(importer).covered(wanted),
        forall|root: ValueId| #[trigger] roots@.contains(root) ==> wanted.contains(root),
    ensures
        old(importer).spends(final(importer), 0),
        old(importer).keeps(final(importer)),
        result is Ok ==> final(importer).covered(wanted) && forall|root: ValueId| #[trigger]
            roots@.contains(root) ==> final(importer).settled(root),
        result matches Ok(groups) ==> {
            &&& old(importer).went_on(final(importer))
            &&& groups_ok(final(importer).x(), groups@)
            &&& forall|v: ValueId| #[trigger] grouped(groups@, v) <==> roots@.contains(v)
        },
        result matches Err(error) ==> exists|root: ValueId| #[trigger]
            roots@.contains(root) && old(importer).whole_stops(
                final(importer),
                root,
                fuel as int,
                error,
            ),
{
    let sorted = ascending(roots);
    let ghost start = *importer;
    let mut groups: Vec<RootGroup> = Vec::new();
    let mut i: usize = 0;
    assert(step(start.x(), start.x()));
    while i < sorted.len()
        invariant
            start == *old(importer),
            start.inv(),
            start.went_on(importer),
            importer.covered(wanted),
            start.spends(importer, 0),
            start.keeps(importer),
            forall|root: ValueId| #[trigger] roots@.contains(root) ==> wanted.contains(root),
            forall|k: int| 0 <= k < i ==> importer.settled(#[trigger] sorted@[k]),
            forall|v: ValueId| #[trigger] sorted@.contains(v) <==> roots@.contains(v),
            i <= sorted@.len(),
            groups_ok(importer.x(), groups@),
            forall|v: ValueId| #[trigger]
                grouped(groups@, v) <==> sorted@.take(i as int).contains(v),
        decreases sorted.len() - i,
    {
        let ghost before = *importer;
        let root = sorted[i];
        proof {
            assert(sorted@.contains(root));
            lemma_covered_within(importer, root, wanted);
        }
        let local = match importer.import(root, fuel) {
            Ok(local) => local,
            Err(error) => {
                assert(sorted@.contains(root));
                assert(roots@.contains(root));
                proof {
                    lemma_covered_spends(&before, importer, root, wanted);
                    lemma_covered_keeps(&before, importer, root, wanted);
                }
                return Err(error);
            },
        };
        proof {
            lemma_step_trans(start.x(), before.x(), importer.x());
            lemma_groups_step(before.x(), importer.x(), groups@);
            assert(importer.source@.has(root));
            assert(sorted@.contains(root));
            lemma_covered_spends(&before, importer, root, wanted);
            lemma_covered_keeps(&before, importer, root, wanted);
            lemma_covered_on(&before, importer, root, local, wanted);
            lemma_settled_kept(&before, importer);
        }
        let ty = importer.source.values[root.raw as usize].ty;
        let span = importer.source.values[root.raw as usize].source;
        place_root(&mut groups, root, local, ty, span, Ghost(importer.x()));
        proof {
            let more = sorted@.take(i + 1);
            assert(more =~= sorted@.take(i as int).push(root));
            assert forall|v: ValueId| #[trigger] grouped(groups@, v) <==> more.contains(v) by {
                if sorted@.take(i as int).contains(v) {
                    let k = choose|k: int| 0 <= k < i && sorted@.take(i as int)[k] == v;
                    assert(more[k] == v);
                }
                if v == root {
                    assert(more[i as int] == v);
                }
            }
        }
        i += 1;
    }
    proof {
        assert(sorted@.take(i as int) =~= sorted@);
        assert forall|root: ValueId| #[trigger] roots@.contains(root) implies importer.settled(
            root,
        ) by {
            assert(sorted@.contains(root));
            let k = choose|k: int| 0 <= k < sorted@.len() && sorted@[k] == root;
            assert(importer.settled(sorted@[k]));
        }
    }
    Ok(groups)
}

/// A sink of the local module carries a root.
pub open spec fn root_bound(x: Import, root: ValueId, sink: SignalId) -> bool {
    exists|c: int|
        0 <= c < x.module.connects.len() && (#[trigger] x.module.connects[c]).target
            == LValue::whole(sink) && agrees(x, root, x.module.connects[c].value)
}

pub open spec fn bound_roots(x: Import, bindings: Seq<(ValueId, SignalId)>) -> bool {
    forall|k: int|
        0 <= k < bindings.len() ==> root_bound(x, (#[trigger] bindings[k]).0, bindings[k].1)
}

pub open spec fn is_bound(bindings: Seq<(ValueId, SignalId)>, root: ValueId) -> bool {
    exists|k: int| 0 <= k < bindings.len() && (#[trigger] bindings[k]).0 == root
}

/// Bindings hold on while connections are appended.
proof fn lemma_bound_step(x: Import, y: Import, bindings: Seq<(ValueId, SignalId)>)
    requires
        step(x, y),
        leaves_ok(x),
        x.module.connects.len() <= y.module.connects.len(),
        forall|c: int|
            0 <= c < x.module.connects.len() ==> #[trigger] y.module.connects[c]
                == x.module.connects[c],
        bound_roots(x, bindings),
    ensures
        bound_roots(y, bindings),
{
    assert forall|k: int| 0 <= k < bindings.len() implies root_bound(
        y,
        (#[trigger] bindings[k]).0,
        bindings[k].1,
    ) by {
        assert(root_bound(x, bindings[k].0, bindings[k].1));
        let c = choose|c: int|
            0 <= c < x.module.connects.len() && (#[trigger] x.module.connects[c]).target
                == LValue::whole(bindings[k].1) && agrees(
                x,
                bindings[k].0,
                x.module.connects[c].value,
            );
        lemma_agrees_step(x, y, bindings[k].0, x.module.connects[c].value);
        assert(y.module.connects[c] == x.module.connects[c]);
    }
}

/// Everything but the local module stays.
pub open spec fn only_module(before: &RegionalWordImporter, after: &RegionalWordImporter) -> bool {
    super::memories::only_resources(before, after) && after.memory_signals@ == before.memory_signals@
        && after.boundary_bindings@ == before.boundary_bindings@
}

/// An output for one group of roots.
fn add_group(importer: &mut RegionalWordImporter, group: &RootGroup, index: u64) -> (result: Result<
    SignalId,
    SynthError,
>)
    requires
        old(importer).inv(),
        group_ok(old(importer).x(), *group),
    ensures
        result matches Ok(sink) ==> {
            let module = final(importer).module@;
            let connect = module.connects.last();
            &&& final(importer).inv()
            &&& step(old(importer).x(), final(importer).x())
            &&& only_module(old(importer), final(importer))
            &&& module.memories == old(importer).module@.memories
            &&& module.memory_reads == old(importer).module@.memory_reads
            &&& module.memory_writes == old(importer).module@.memory_writes
            &&& module.connects == old(importer).module@.connects.push(connect)
            &&& connect.target == LValue::whole(sink)
            &&& connect.value == group.local
            &&& connect.source == group.span
            &&& module.ports.last().direction is Output
            &&& module.ports.last().ty == group.ty
            &&& module.ports.last().signal == sink
        },
        size(final(importer).module@) <= size(old(importer).module@) + 3,
        result matches Err(error) ==> exhausted(final(importer).module@, error),
{
    let ghost start = *importer;
    proof {
        assert(agrees(start.x(), group.roots@[0], group.local));
        assert(start.source@.value_ok(group.roots@[0].raw as int));
    }
    let name = numbered_name("root$", index);
    let port = match importer.module.add_port(name, PortDirection::Output, group.ty, group.span) {
        Ok(port) => port,
        Err(error) => return Err(error),
    };
    let ghost middle = *importer;
    proof {
        lemma_outlet(
            start.interface(),
            importer.interface(),
            importer.module@.ports.last().signal,
        );
        lemma_resources_added(&start, importer);
    }
    let sink = importer.module.ports[port.raw as usize].signal;
    match importer.module.connect(LValue::signal(sink), group.local, group.span) {
        Ok(()) => {},
        Err(error) => return Err(error),
    }
    proof {
        lemma_connected(middle.interface(), importer.interface());
        lemma_resources_added(&middle, importer);
        lemma_step_trans(start.x(), middle.x(), importer.x());
    }
    Ok(sink)
}

/// Outputs for all groups of roots.
#[verifier::rlimit(40)]
fn add_roots(importer: &mut RegionalWordImporter, groups: &Vec<RootGroup>) -> (result: Result<
    Vec<(ValueId, SignalId)>,
    SynthError,
>)
    requires
        old(importer).inv(),
        groups_ok(old(importer).x(), groups@),
    ensures
        result matches Ok(bindings) ==> {
            &&& final(importer).inv()
            &&& step(old(importer).x(), final(importer).x())
            &&& only_module(old(importer), final(importer))
            &&& final(importer).module@.memories == old(importer).module@.memories
            &&& final(importer).module@.memory_reads == old(importer).module@.memory_reads
            &&& final(importer).module@.memory_writes == old(importer).module@.memory_writes
            &&& bound_roots(final(importer).x(), bindings@)
            &&& forall|v: ValueId| #[trigger] is_bound(bindings@, v) <==> grouped(groups@, v)
        },
        size(final(importer).module@) <= size(old(importer).module@) + 3 * groups@.len(),
        result matches Err(error) ==> exhausted(final(importer).module@, error),
{
    let ghost start = *importer;
    let mut bindings: Vec<(ValueId, SignalId)> = Vec::new();
    let mut g: usize = 0;
    while g < groups.len()
        invariant
            size(importer.module@) <= size(start.module@) + 3 * g,
            start == *old(importer),
            start.inv(),
            importer.inv(),
            step(start.x(), importer.x()),
            only_module(&start, importer),
            importer.module@.memories == start.module@.memories,
            importer.module@.memory_reads == start.module@.memory_reads,
            importer.module@.memory_writes == start.module@.memory_writes,
            groups_ok(importer.x(), groups@),
            g <= groups@.len(),
            bound_roots(importer.x(), bindings@),
            forall|v: ValueId| #[trigger]
                is_bound(bindings@, v) <==> grouped(groups@.take(g as int), v),
        decreases groups.len() - g,
    {
        let ghost before = *importer;
        let ghost rows = bindings@;
        let group = &groups[g];
        assert(group_ok(importer.x(), groups@[g as int]));
        let sink = match add_group(importer, group, g as u64) {
            Ok(sink) => sink,
            Err(error) => return Err(error),
        };
        proof {
            lemma_step_trans(start.x(), before.x(), importer.x());
            lemma_groups_step(before.x(), importer.x(), groups@);
            lemma_bound_step(before.x(), importer.x(), rows);
            assert(group_ok(importer.x(), groups@[g as int]));
        }
        let ghost x = importer.x();
        let mut i: usize = 0;
        while i < group.roots.len()
            invariant
                x == importer.x(),
                group_ok(x, *group),
                x.module.connects.len() > 0,
                x.module.connects.last().target == LValue::whole(sink),
                x.module.connects.last().value == group.local,
                i <= group.roots@.len(),
                bound_roots(x, bindings@),
                forall|v: ValueId| #[trigger]
                    is_bound(bindings@, v) <==> is_bound(rows, v) || group.roots@.take(
                        i as int,
                    ).contains(v),
            decreases group.roots.len() - i,
        {
            let root = group.roots[i];
            let ghost held = bindings@;
            bindings.push((root, sink));
            proof {
                assert(agrees(x, group.roots@[i as int], group.local));
                let c = x.module.connects.len() - 1;
                assert(x.module.connects[c].target == LValue::whole(sink));
                assert(root_bound(x, root, sink));
                assert forall|k: int| 0 <= k < bindings@.len() implies root_bound(
                    x,
                    (#[trigger] bindings@[k]).0,
                    bindings@[k].1,
                ) by {
                    if k < held.len() {
                        assert(root_bound(x, held[k].0, held[k].1));
                    }
                }
                let more = group.roots@.take(i + 1);
                assert(more =~= group.roots@.take(i as int).push(root));
                assert forall|v: ValueId| #[trigger] is_bound(bindings@, v) <==> is_bound(rows, v)
                    || more.contains(v) by {
                    if is_bound(held, v) {
                        let k = choose|k: int| 0 <= k < held.len() && (#[trigger] held[k]).0 == v;
                        assert(bindings@[k].0 == v);
                    }
                    if group.roots@.take(i as int).contains(v) {
                        let k = choose|k: int|
                            0 <= k < i && group.roots@.take(i as int)[k] == v;
                        assert(more[k] == v);
                    }
                    if v == root {
                        assert(bindings@[held.len() as int].0 == v);
                        assert(more[i as int] == v);
                    }
                    if is_bound(bindings@, v) && v != root {
                        let k = choose|k: int|
                            0 <= k < bindings@.len() && (#[trigger] bindings@[k]).0 == v;
                        assert(held[k].0 == v);
                    }
                    if more.contains(v) && v != root {
                        let k = choose|k: int| 0 <= k < more.len() && more[k] == v;
                        assert(group.roots@.take(i as int)[k] == v);
                    }
                }
            }
            i += 1;
        }
        proof {
            assert(group.roots@.take(i as int) =~= group.roots@);
            let past = groups@.take(g as int);
            let more = groups@.take(g + 1);
            assert forall|v: ValueId| #[trigger] is_bound(bindings@, v) <==> grouped(more, v) by {
                if grouped(past, v) {
                    let h = choose|h: int|
                        0 <= h < past.len() && (#[trigger] past[h]).roots@.contains(v);
                    assert(more[h] == past[h]);
                }
                if group.roots@.contains(v) {
                    assert(more[g as int].roots@.contains(v));
                }
                if grouped(more, v) {
                    let h = choose|h: int|
                        0 <= h < more.len() && (#[trigger] more[h]).roots@.contains(v);
                    if h < g {
                        assert(past[h].roots@.contains(v));
                    }
                }
            }
        }
        g += 1;
    }
    assert(groups@.take(g as int) =~= groups@);
    Ok(bindings)
}

/// Which values are declared to be at the border.
pub open spec fn cut_values(source: ModuleView, boundary: Seq<ValueId>) -> Seq<bool> {
    Seq::new(source.values.len(), |v: int| boundary.contains(ValueId { raw: v as u32 }))
}

fn mark_cuts(source: &WordModule, boundary: &Vec<ValueId>) -> (cut: Vec<bool>)
    requires
        source@.wf(),
    ensures
        cut@ == cut_values(source@, boundary@),
{
    let mut cut: Vec<bool> = Vec::new();
    let mut v: usize = 0;
    while v < source.values.len()
        invariant
            source@.wf(),
            v <= source@.values.len(),
            cut@ =~= cut_values(source@, boundary@).take(v as int),
        decreases source.values.len() - v,
    {
        let mut found: bool = false;
        let mut i: usize = 0;
        while i < boundary.len()
            invariant
                source@.wf(),
                v < source@.values.len(),
                i <= boundary@.len(),
                found == boundary@.take(i as int).contains(ValueId { raw: v as u32 }),
            decreases boundary.len() - i,
        {
            let ghost more = boundary@.take(i + 1);
            proof {
                assert(more =~= boundary@.take(i as int).push(boundary@[i as int]));
                let id = ValueId { raw: v as u32 };
                if boundary@.take(i as int).contains(id) {
                    let k = choose|k: int| 0 <= k < i && boundary@.take(i as int)[k] == id;
                    assert(more[k] == id);
                }
                assert(more[i as int] == boundary@[i as int]);
            }
            if boundary[i].raw as usize == v {
                found = true;
            }
            i += 1;
        }
        assert(boundary@.take(i as int) =~= boundary@);
        cut.push(found);
        v += 1;
    }
    assert(cut_values(source@, boundary@).take(v as int) =~= cut_values(source@, boundary@));
    cut
}

/// No signal has a local signal.
pub open spec fn no_signals(source: ModuleView) -> Seq<Option<SignalId>> {
    Seq::new(source.signals.len(), |s: int| None)
}

/// No value is being carried over.
pub open spec fn unmarked(source: ModuleView) -> Seq<bool> {
    Seq::new(source.values.len(), |v: int| false)
}

/// What the dependencies of a request are followed in.
pub open spec fn request_graph(
    request: &RegionalWordConeRequest,
    drivers: SignalDriverIndex,
    memory_signals: Seq<Option<SignalId>>,
) -> Graph {
    Graph {
        source: request.source@,
        drivers,
        regions: request.operation_regions@,
        region: request.region,
        memory_signals,
        cut: cut_values(request.source@, request.boundary_inputs@),
        name: request.source.name@,
        wanted: wanted_values(request),
    }
}

/// The signals that the memories of a request are read into.
pub open spec fn memory_signals(request: &RegionalWordConeRequest) -> Seq<Option<SignalId>> {
    let source = request.source@;
    read_signals(
        source.memory_reads,
        request.memories@,
        no_signals(source),
        0,
        source.memory_reads.len(),
    )
}

/// A value of a request cannot be carried over: one that a memory depends on, one
/// of its border, or a root.
pub open spec fn request_fails(
    request: &RegionalWordConeRequest,
    drivers: SignalDriverIndex,
    value: ValueId,
    error: SynthError,
) -> bool {
    let source = request.source@;
    let signals = memory_signals(request);
    &&& drivers.describes(source)
    &&& ports_take(source, request.memories@, value) || request.boundary_inputs@.contains(value)
        || request.roots@.contains(value)
    &&& if source.has(value) {
        cannot_carry(request_graph(request, drivers, signals), value, error)
    } else {
        error == SynthError::Invariant(Invariant::UnknownValue)
    }
}

/// What a value is made of leads to a place that cannot be carried over, and the
/// error tells why.
pub open spec fn cannot_carry(graph: Graph, value: ValueId, error: SynthError) -> bool {
    &&& told(graph, error)
    &&& exists|steps: nat| #[trigger]
        meets(graph, unmarked(graph.source), Place::Whole(value), error, steps)
}

proof fn lemma_cannot_carry(graph: Graph, value: ValueId, error: SynthError)
    requires
        graph.source.wf(),
        graph.source.has(value),
        fails(graph, unmarked(graph.source), Place::Whole(value), ENOUGH_FUEL as int, error),
    ensures
        cannot_carry(graph, value, error),
{
    let visiting = unmarked(graph.source);
    lemma_enough_fuel(graph, visiting, value, error);
    let steps = choose|steps: nat| #[trigger]
        meets(graph, visiting, Place::Whole(value), error, steps);
    lemma_told(graph, visiting, Place::Whole(value), error, steps);
}

/// What a request asks for: what the ports of its memories take, the values of its
/// border and its roots.
pub open spec fn wanted_values(request: &RegionalWordConeRequest) -> Set<ValueId> {
    Set::new(
        |value: ValueId|
            ports_take(request.source@, request.memories@, value)
                || request.boundary_inputs@.contains(value) || request.roots@.contains(value),
    )
}

/// What a request takes may use all identifiers up. Where what some value is made of that
/// the request reaches leads back to it, bits are carried over one by one, and what that
/// takes is counted along the dependencies.
pub open spec fn takes_much(request: &RegionalWordConeRequest, drivers: SignalDriverIndex) -> bool {
    let source = request.source@;
    let signals = memory_signals(request);
    let graph = request_graph(request, drivers, signals);
    &&& drivers.describes(source)
    &&& turns(graph) || 4 * (footprint(source) + memory_cost(source, request.memories@))
        >= u32::MAX
    &&& toll(graph) matches Some(limit) && 4 * (limit * reached_count(graph) + memory_cost(
        source,
        request.memories@,
    )) >= u32::MAX
}

/// Why a request is refused.
pub open spec fn refused(request: &RegionalWordConeRequest, error: SynthError) -> bool {
    ||| error == SynthError::Invariant(Invariant::MisalignedRegions)
        && request.operation_regions@.len() != request.source@.operations.len()
    ||| error is Capacity && exists|drivers: SignalDriverIndex| #[trigger]
        takes_much(request, drivers)
    ||| unmakable(request.source@, request.memories@, error)
    ||| exists|drivers: SignalDriverIndex, value: ValueId| #[trigger]
        request_fails(request, drivers, value, error)
}

/// A request whose values fit within a small limit is not refused for want of room,
/// recursive or not.
pub proof fn requests_that_fit_have_room(
    request: &RegionalWordConeRequest,
    error: SynthError,
    limit: nat,
)
    requires
        request.source@.wf(),
        refused(request, error),
        forall|drivers: SignalDriverIndex| #[trigger]
            drivers.describes(request.source@) ==> {
                let graph = request_graph(request, drivers, memory_signals(request));
                &&& roomy(graph, limit)
                &&& 4 * (limit * reached_count(graph) + memory_cost(
                    request.source@,
                    request.memories@,
                )) < u32::MAX
            },
    ensures
        !(error is Capacity),
{
    if error is Capacity && exists|drivers: SignalDriverIndex| #[trigger]
        takes_much(request, drivers) {
        let drivers = choose|drivers: SignalDriverIndex| #[trigger] takes_much(request, drivers);
        assert(drivers.describes(request.source@));
        let graph = request_graph(request, drivers, memory_signals(request));
        lemma_toll(graph, limit);
        let least = toll(graph)->0;
        assert(least * reached_count(graph) <= limit * reached_count(graph)) by (nonlinear_arith)
            requires
                least <= limit,
        ;
    }
}

/// A request that used so many identifiers up takes much.
proof fn lemma_takes_much(request: &RegionalWordConeRequest, drivers: SignalDriverIndex, used: nat)
    requires
        drivers.describes(request.source@),
        ({
            let graph = request_graph(request, drivers, memory_signals(request));
            let memories = memory_cost(request.source@, request.memories@);
            &&& turns(graph) || used <= footprint(request.source@) + memories
            &&& toll(graph) is Some
            &&& used <= memories + toll(graph)->0 * reached_count(graph)
        }),
        4 * used >= u32::MAX,
    ensures
        takes_much(request, drivers),
{
}

proof fn lemma_groups_few(x: Import, groups: Seq<RootGroup>)
    requires
        groups_ok(x, groups),
    ensures
        groups.len() <= x.module.values.len(),
{
    if groups.len() > 0 {
        lemma_group_place(x, groups, groups.len() - 1);
        let last = groups[groups.len() - 1];
        assert(group_ok(x, last));
        assert(agrees(x, last.roots@[0], last.local));
    }
}

proof fn lemma_group_place(x: Import, groups: Seq<RootGroup>, g: int)
    requires
        groups_ok(x, groups),
        0 <= g < groups.len(),
    ensures
        groups[g].local.raw >= g,
    decreases g,
{
    if g > 0 {
        lemma_group_place(x, groups, g - 1);
        assert(groups[g - 1].local.raw < groups[g].local.raw);
    }
}

/// The name of the module of a region.
pub open spec fn region_name(request: &RegionalWordConeRequest) -> Seq<char> {
    request.source.name@ + "$region"@ + decimal(request.region as nat)
}

/// A new state, with nothing carried over.
fn fresh<'a>(request: &RegionalWordConeRequest<'a>) -> (importer: RegionalWordImporter<'a>)
    requires
        request.source@.wf(),
        request.operation_regions@.len() == request.source@.operations.len(),
    ensures
        importer.inv(),
        importer.source == request.source,
        importer.known == request.known,
        importer.operation_regions == request.operation_regions,
        importer.region == request.region,
        importer.cut@ == cut_values(request.source@, request.boundary_inputs@),
        importer.leaves@.len() == 0,
        importer.wanted@ == wanted_values(request),
        importer.graph() == request_graph(request, importer.drivers, no_signals(request.source@)),
        importer.visiting@ == unmarked(request.source@),
        importer.blank(),
        importer.potential() == footprint(request.source@),
        size(importer.module@) == 0,
        importer.module@.name == region_name(request),
        importer.module@.signals.len() == 0,
        importer.module@.memories.len() == 0,
        importer.module@.memory_reads.len() == 0,
        importer.module@.memory_writes.len() == 0,
{
    let mut name = request.source.name.clone();
    name.append("$region");
    let name = numbered_name(name.as_str(), request.region as u64);
    let mut source_to_local: Vec<Option<ValueId>> = Vec::new();
    source_to_local.resize(request.source.values.len(), None);
    let mut visiting: Vec<bool> = Vec::new();
    visiting.resize(request.source.values.len(), false);
    let mut memory_signals: Vec<Option<SignalId>> = Vec::new();
    memory_signals.resize(request.source.signals.len(), None);
    let mut boundary_port_signals: Vec<Option<SignalId>> = Vec::new();
    boundary_port_signals.resize(request.source.signals.len(), None);
    let importer = RegionalWordImporter {
        source: request.source,
        drivers: SignalDriverIndex::new(request.source),
        operation_regions: request.operation_regions,
        region: request.region,
        known: request.known,
        module: WordModule::named(name),
        source_to_local,
        boundary_bindings: Vec::new(),
        operation_sources: Vec::new(),
        visiting,
        import_path: Vec::new(),
        memory_signals,
        cut: mark_cuts(request.source, request.boundary_inputs),
        boundary_port_signals,
        cache: KeyMap::new(),
        acyclic: false,
        leaves: Ghost(Seq::empty()),
        order: Ghost((Map::empty(), 0)),
        wanted: Ghost(wanted_values(request)),
    };
    proof {
        reveal(memory_ok);
        assert forall|v: int| 0 <= v < importer.source_to_local@.len() implies (
        #[trigger] importer.source_to_local@[v]) is None by {}
        assert(memory_ok(importer.x(), importer.source_to_local@, importer.cache@));
        reveal(signals_typed);
        assert(importer.memory_signals@ =~= no_signals(request.source@));
        assert(importer.boundary_port_signals@ =~= no_signals(request.source@));
        assert(importer.visiting@ =~= unmarked(request.source@));
        reveal(Interface::sound);
        reveal(all_reached);
        reveal(bound_once);
        reveal(path_reached);
        reveal(rows_reached);
        reveal(marks_on_path);
        reveal(rows_suit);
        reveal(all_imaged);
        reveal(parts_held);
        assert(importer.pending() =~= Seq::new(request.source@.values.len(), |v: int| true));
    }
    importer
}

/// The values that were made for one memory: operations, then states.
pub open spec fn row_values(
    module: ModuleView,
    row: MemoryLoweringRow,
    memory: MemoryId,
) -> Seq<RegionalMemoryValueBinding> {
    Seq::new(
        row.operations@.len(),
        |i: int|
            RegionalMemoryValueBinding {
                local: module.operations[row.operations@[i].raw as int].result,
                source_memory: memory,
                kind: RegionalMemoryValueKind::Operation,
                ordinal: i as u32,
            },
    ) + Seq::new(
        row.state_values@.len(),
        |i: int|
            RegionalMemoryValueBinding {
                local: row.state_values@[i],
                source_memory: memory,
                kind: RegionalMemoryValueKind::State,
                ordinal: i as u32,
            },
    )
}

/// The values that were made for the first memories.
pub open spec fn lowered_values(
    module: ModuleView,
    rows: Seq<MemoryLoweringRow>,
    memories: Seq<MemoryId>,
    count: nat,
) -> Seq<RegionalMemoryValueBinding>
    decreases count,
{
    if count == 0 {
        seq![]
    } else {
        lowered_values(module, rows, memories, (count - 1) as nat) + row_values(
            module,
            rows[count - 1],
            memories[count - 1],
        )
    }
}

/// Lists the values that were made for one memory.
fn push_row_values(
    list: &mut Vec<RegionalMemoryValueBinding>,
    module: &WordModule,
    row: &MemoryLoweringRow,
    memory: MemoryId,
) -> (result: Result<(), SynthError>)
    ensures
        result is Ok ==> final(list)@ == old(list)@ + row_values(module@, *row, memory),
        result is Err ==> row.operations@.len() > u32::MAX || row.state_values@.len() > u32::MAX
            || exists|i: int|
            0 <= i < row.operations@.len() && (#[trigger] row.operations@[i]).raw
                >= module@.operations.len(),
{
    let ghost start = list@;
    let ghost all = row_values(module@, *row, memory);
    if row.operations.len() > u32::MAX as usize || row.state_values.len() > u32::MAX as usize {
        return Err(SynthError::Capacity(Resource::Operations));
    }
    let mut i: usize = 0;
    while i < row.operations.len()
        invariant
            i <= row.operations@.len() <= u32::MAX,
            all == row_values(module@, *row, memory),
            list@ == start + all.take(i as int),
        decreases row.operations.len() - i,
    {
        let operation = row.operations[i];
        if operation.raw as usize >= module.operations.len() {
            assert(row.operations@[i as int].raw >= module@.operations.len());
            return Err(SynthError::Invariant(Invariant::UnknownOperation));
        }
        list.push(
            RegionalMemoryValueBinding {
                local: module.operations[operation.raw as usize].result,
                source_memory: memory,
                kind: RegionalMemoryValueKind::Operation,
                ordinal: i as u32,
            },
        );
        assert(list@ =~= start + all.take(i + 1));
        i += 1;
    }
    let ghost first = row.operations@.len() as int;
    let mut j: usize = 0;
    while j < row.state_values.len()
        invariant
            j <= row.state_values@.len() <= u32::MAX,
            all == row_values(module@, *row, memory),
            first == row.operations@.len(),
            list@ == start + all.take(first + j),
        decreases row.state_values.len() - j,
    {
        list.push(
            RegionalMemoryValueBinding {
                local: row.state_values[j],
                source_memory: memory,
                kind: RegionalMemoryValueKind::State,
                ordinal: j as u32,
            },
        );
        assert(list@ =~= start + all.take(first + j + 1));
        j += 1;
    }
    assert(all.take(first + j) =~= all);
    Ok(())
}

/// A row lists operations of a module, and not more than there are.
pub open spec fn row_fits(module: ModuleView, row: MemoryLoweringRow) -> bool {
    &&& row.operations@.len() <= module.operations.len()
    &&& row.state_values@.len() <= module.operations.len()
    &&& forall|i: int|
        0 <= i < row.operations@.len() ==> (#[trigger] row.operations@[i]).raw
            < module.operations.len()
}

proof fn lemma_between(module: ModuleView, from: int, to: int)
    requires
        0 <= from,
        to <= module.operations.len() <= u32::MAX,
    ensures
        from <= to ==> operations_between(module, from, to).len() <= to - from,
        from <= to ==> states_between(module, from, to).len() <= to - from,
        from > to ==> operations_between(module, from, to).len() == 0,
        from > to ==> states_between(module, from, to).len() == 0,
        forall|i: int|
            0 <= i < operations_between(module, from, to).len() ==> (
            #[trigger] operations_between(module, from, to)[i]).raw < module.operations.len(),
    decreases to - from,
{
    if from < to {
        lemma_between(module, from, to - 1);
        let before = operations_between(module, from, to - 1);
        assert forall|i: int|
            0 <= i < operations_between(module, from, to).len() implies (
        #[trigger] operations_between(module, from, to)[i]).raw < module.operations.len() by {
            if i < before.len() {
                assert(operations_between(module, from, to)[i] == before[i]);
            }
        }
    }
}

proof fn lemma_stages_ascend(
    module: ModuleView,
    ranges: Seq<Option<(u128, u128)>>,
    implementations: Seq<Option<MemoryImplementationCandidate>>,
    cells: Seq<TargetCell>,
    stages: Seq<ModuleView>,
    i: int,
)
    requires
        memories_lowered(module, ranges, implementations, cells, stages),
        0 <= i < stages.len(),
    ensures
        stages[i].operations.len() <= stages.last().operations.len(),
    decreases stages.len() - i,
{
    if i < stages.len() - 1 {
        lemma_stages_ascend(module, ranges, implementations, cells, stages, i + 1);
        reveal(memory_lowered);
        assert(memory_lowered(
            module,
            ranges,
            implementations[i],
            cells,
            MemoryId { raw: i as u32 },
            stages[i],
            stages[i + 1],
        ));
    }
}

proof fn lemma_rows_fit(
    module: ModuleView,
    after: ModuleView,
    ranges: Seq<Option<(u128, u128)>>,
    implementations: Seq<Option<MemoryImplementationCandidate>>,
    cells: Seq<TargetCell>,
    binding: MemoryLoweringBinding,
)
    requires
        after.wf(),
        fully_lowered(module, after, ranges, implementations, cells, binding),
    ensures
        forall|i: int|
            0 <= i < binding.memories@.len() ==> row_fits(after, #[trigger] binding.memories@[i]),
{
    let stages = choose|stages: Seq<ModuleView>| #[trigger]
        lowering_done(module, after, ranges, implementations, cells, binding, stages);
    assert forall|i: int| 0 <= i < binding.memories@.len() implies row_fits(
        after,
        #[trigger] binding.memories@[i],
    ) by {
        lemma_stages_ascend(module, ranges, implementations, cells, stages, i);
        lemma_stages_ascend(module, ranges, implementations, cells, stages, i + 1);
        let from = stages[i].operations.len() as int;
        let to = stages[i + 1].operations.len() as int;
        assert(row_lists(binding.memories@[i], after, from, to));
        lemma_between(after, from, to);
    }
}

/// Memories cannot be lowered as selected.
pub open spec fn lowering_fails(
    before: ModuleView,
    after: ModuleView,
    facts: Seq<Option<Seq<BitVal>>>,
    ranges: Seq<Option<(u128, u128)>>,
    implementations: Seq<Option<MemoryImplementationCandidate>>,
    cells: Seq<TargetCell>,
    error: SynthError,
) -> bool {
    if !memories_fit(before) {
        error == SynthError::Invariant(Invariant::UnknownMemory)
    } else {
        match first_fault(before, facts, ranges, implementations, cells, implementations.len()) {
            Some(found) => error == found,
            None => exhausted(after, error) || some_macro_fails(
                before,
                implementations,
                cells,
                error,
            ),
        }
    }
}

/// All memories get an implementation.
pub open spec fn all_selected(implementations: Seq<MemoryImplementationCandidate>) -> Seq<
    Option<MemoryImplementationCandidate>,
> {
    Seq::new(implementations.len(), |i: int| Some(implementations[i]))
}

/// Memories were lowered, and what was made for them is listed.
pub open spec fn memories_done(
    before: ModuleView,
    after: ModuleView,
    ranges: Seq<Option<(u128, u128)>>,
    implementations: Seq<MemoryImplementationCandidate>,
    cells: Seq<TargetCell>,
    memories: Seq<MemoryId>,
    values: Seq<RegionalMemoryValueBinding>,
    binding: MemoryLoweringBinding,
) -> bool {
    &&& fully_lowered(before, after, ranges, all_selected(implementations), cells, binding)
    &&& values == lowered_values(after, binding.memories@, memories, memories.len())
}

/// What was carried over for a request makes a cone exact.
proof fn lemma_exact(
    importer: &RegionalWordImporter,
    cone: &RegionalWordCone,
    request: &RegionalWordConeRequest,
)
    requires
        importer.inv(),
        importer.covered(wanted_values(request)),
        importer.source == request.source,
        importer.graph() == cone.graph(request),
        cone.source_to_local == importer.source_to_local,
        cone.boundary_bindings == importer.boundary_bindings,
        cone.operation_sources == importer.operation_sources,
        cone.module@ == importer.module@,
        cone.recursive == importer.acyclic,
        forall|value: ValueId|
            request.roots@.contains(value) || request.boundary_inputs@.contains(value)
                ==> #[trigger] importer.settled(value),
    ensures
        cone.exact(request),
{
    reveal(RegionalWordImporter::covered);
    let graph = cone.graph(request);
    let source = request.source@;
    assert(forall|value: ValueId| #[trigger]
        cone.holds(source, value) == importer.settled(value));
    assert(importer.source_to_local@.len() == source.values.len()) by {
        reveal(memory_ok);
    }
    reveal(bound_once);
    reveal(rows_reached);
    assert forall|value: ValueId| #[trigger] cone.holds(source, value) implies from_wanted(
        graph,
        value,
    ) by {
        reveal(all_reached);
        assert(ValueId { raw: value.raw as int as u32 } == value);
        assert(importer.source_to_local@[value.raw as int] is Some);
    }
    assert forall|k: int| 0 <= k < cone.boundary_bindings@.len() implies boundary_value(
        graph,
        (#[trigger] cone.boundary_bindings@[k]).0,
    ) && cone.holds(source, cone.boundary_bindings@[k].0) by {
        let (value, local) = importer.boundary_bindings@[k];
        assert(!importer.visiting@[value.raw as int]);
    }
    assert forall|value: ValueId| #[trigger]
        cone.holds(source, value) && boundary_value(graph, value) implies cone.binds(value) by {
        assert(ValueId { raw: value.raw as int as u32 } == value);
        let local = importer.source_to_local@[value.raw as int]->0;
        assert(binds(importer.boundary_bindings@, value, local));
        let k = choose|k: int|
            0 <= k < importer.boundary_bindings@.len() && #[trigger] importer.boundary_bindings@[k]
                == (value, local);
        assert(cone.boundary_bindings@[k].0 == value);
    }
    assert forall|value: ValueId, part: ValueId|
        cone.holds(source, value) && #[trigger] made_of(graph, value, part) implies cone.holds(
        source,
        part,
    ) by {
        reveal(parts_held);
        assert(importer.source_to_local@[value.raw as int] is Some);
        assert(parts_ready(graph, importer.source_to_local@, importer.visiting@, value));
        assert(importer.source@.has(part));
        assert(!importer.visiting@[part.raw as int]);
    }
    assert forall|k: int| 0 <= k < cone.operation_sources@.len() implies suits(
        source,
        cone.module@.operations[k].kind,
        (#[trigger] cone.operation_sources@[k])@,
    ) by {
        reveal(rows_suit);
    }
    assert forall|value: ValueId| #[trigger]
        cone.holds(source, value) && computed(graph, value) implies imaged(
        cone.module@,
        cone.operation_sources@,
        cone.source_to_local@[value.raw as int]->0,
        source.kind(value)->Operation_0,
    ) by {
        reveal(all_imaged);
        assert(importer.source_to_local@[value.raw as int] is Some);
    }
    if !importer.acyclic {
        reveal(RegionalWordImporter::ordered);
        let rank = |value: ValueId| importer.order@.0[value];
        assert(cone.settles(graph, rank)) by {
            assert forall|value: ValueId, part: ValueId|
                cone.holds(graph.source, value) && #[trigger] made_of(
                    graph,
                    value,
                    part,
                ) implies cone.holds(graph.source, part) && rank(part) < rank(value) by {
                assert(importer.settled(value));
                assert(importer.settled(part));
            }
        }
        assert forall|k: int| 0 <= k < cone.module@.operations.len() implies #[trigger] cone.has_maker(
            graph,
            k,
        ) by {
            assert(importer.owned(k));
            let value = choose|value: ValueId| #[trigger]
                importer.settled(value) && importer.owns(value, k);
            assert(cone.made_for(graph, value, k));
        }
        assert forall|value: ValueId| #[trigger]
            cone.holds(source, value) && computed(graph, value) implies cone.has_image(
            graph,
            value,
        ) by {
            assert(importer.settled(value));
            let k = choose|k: int|
                0 <= k < importer.operation_sources@.len() && #[trigger] importer.owns(value, k);
            assert(cone.made_for(graph, value, k));
        }
    }
}

proof fn lemma_walk_held(
    cone: &RegionalWordCone,
    graph: Graph,
    rank: spec_fn(ValueId) -> nat,
    walk: Seq<ValueId>,
    i: int,
)
    requires
        cone.settles(graph, rank),
        walk_of(graph, walk),
        cone.holds(graph.source, walk[0]),
        0 <= i < walk.len(),
    ensures
        cone.holds(graph.source, walk[i]),
        rank(walk[i]) + i <= rank(walk[0]),
    decreases i,
{
    if i > 0 {
        lemma_walk_held(cone, graph, rank, walk, i - 1);
        assert(made_at(graph, walk, i - 1));
    }
}

/// A root or a value of the border from which what values are made of runs into a circle
/// is refused where the
/// source has a bit that is worked out from itself.
pub proof fn looped_roots_are_refused(
    request: &RegionalWordConeRequest,
    cone: &RegionalWordCone,
    root: ValueId,
    circle: Seq<ValueId>,
)
    requires
        cone.stands(request),
        request.roots@.contains(root) || request.boundary_inputs@.contains(root),
        walk_of(cone.graph(request), circle),
        circle.len() > 1,
        circle[0] == circle.last(),
        reaches(cone.graph(request), root, circle[0]),
    ensures
        cone.graph(request).acyclic(),
{
    let graph = cone.graph(request);
    if !cone.recursive {
        assert(cone.holds(graph.source, root));
        let rank = choose|rank: spec_fn(ValueId) -> nat| #[trigger] cone.settles(graph, rank);
        let walk = choose|walk: Seq<ValueId>| #[trigger]
            walk_of(graph, walk) && walk[0] == root && walk.last() == circle[0];
        lemma_walk_held(cone, graph, rank, walk, walk.len() - 1);
        lemma_walk_held(cone, graph, rank, circle, circle.len() - 1);
    }
}

/// A root or a value of the border of a request leads to a circle, in a source where
/// some bit is worked out from itself and reads of memories have the types of what they
/// read.
pub open spec fn loops(
    request: &RegionalWordConeRequest,
    drivers: SignalDriverIndex,
    circle: Seq<ValueId>,
) -> bool {
    let graph = request_graph(request, drivers, memory_signals(request));
    &&& !graph.acyclic()
    &&& memory_reads_typed(graph)
    &&& walk_of(graph, circle)
    &&& circle.len() > 1
    &&& circle[0] == circle.last()
    &&& exists|root: ValueId| (#[trigger] request.roots@.contains(root)
        || request.boundary_inputs@.contains(root)) && reaches(graph, root, circle[0])
}

/// Nothing but a loop speaks against a request: all values and memories that it asks for
/// are there, and all of the source fits in a module.
pub open spec fn sensible(request: &RegionalWordConeRequest) -> bool {
    let source = request.source@;
    &&& request.operation_regions@.len() == source.operations.len()
    &&& forall|value: ValueId| #[trigger]
        wanted_values(request).contains(value) ==> source.has(value)
    &&& forall|error: SynthError| !(#[trigger] unmakable(source, request.memories@, error))
    &&& 4 * (footprint(source) + memory_cost(source, request.memories@)) < u32::MAX
}

/// A request that leads to a circle in a source where some bit is worked out from itself
/// is refused, and the error tells of a loop.
pub proof fn loops_are_told(
    request: &RegionalWordConeRequest,
    result: Result<RegionalWordCone, SynthError>,
    circle: Seq<ValueId>,
)
    requires
        request.source@.wf(),
        result matches Ok(cone) ==> cone.stands(request),
        result matches Err(error) ==> refused(request, error),
        forall|drivers: SignalDriverIndex| #[trigger]
            drivers.describes(request.source@) ==> loops(request, drivers, circle),
        sensible(request),
    ensures
        result is Err,
        exists|drivers: SignalDriverIndex| #[trigger]
            drivers.describes(request.source@) && loop_error(
                request.source@,
                &drivers,
                request.source.name@,
                result->Err_0,
            ),
{
    let source = request.source@;
    match result {
        Ok(cone) => {
            assert(loops(request, cone.drivers, circle));
            let graph = cone.graph(request);
            let root = choose|root: ValueId| (#[trigger] request.roots@.contains(root)
                || request.boundary_inputs@.contains(root)) && reaches(graph, root, circle[0]);
            looped_roots_are_refused(request, &cone, root, circle);
        },
        Err(error) => {
            if exists|drivers: SignalDriverIndex, value: ValueId| #[trigger]
                request_fails(request, drivers, value, error) {
                let (drivers, value) = choose|drivers: SignalDriverIndex, value: ValueId| #[trigger]
                    request_fails(request, drivers, value, error);
                assert(drivers.describes(source));
                assert(wanted_values(request).contains(value));
                assert(told(
                    request_graph(request, drivers, memory_signals(request)),
                    error,
                ));
            } else if error is Capacity && exists|drivers: SignalDriverIndex| #[trigger]
                takes_much(request, drivers) {
                let drivers = choose|drivers: SignalDriverIndex| #[trigger]
                    takes_much(request, drivers);
                assert(loops(request, drivers, circle));
            }
        },
    }
}

/// Whatever the signals of a source carry, the inputs of a cone can carry, and each sink
/// then carries the word of its root.
pub proof fn cones_compute_their_roots(
    request: &RegionalWordConeRequest,
    cone: &RegionalWordCone,
    outer: Env,
)
    requires
        request.source@.wf(),
        cone.stands(request),
        driven(request.source@, outer),
        known_holds(request.source@, request.known@, outer),
    ensures
        exists|inner: Env| #[trigger]
            linked(cone.x(request.source@, request.known@), outer, inner)
                && cone.sinks_carry(request.source@, outer, inner),
{
    let source = request.source@;
    let x = cone.x(source, request.known@);
    let border = cone.interface(source);
    lemma_links(border, x, outer);
    let inner = inner_env(border, outer);
    assert forall|k: int| 0 <= k < cone.root_bindings@.len() implies cone.sink_carries(
        source,
        outer,
        inner,
        (#[trigger] cone.root_bindings@[k]).0,
        cone.root_bindings@[k].1,
    ) by {
        let (root, sink) = cone.root_bindings@[k];
        assert(root_bound(x, root, sink));
        let c = choose|c: int|
            0 <= c < x.module.connects.len() && (#[trigger] x.module.connects[c]).target
                == LValue::whole(sink) && agrees(x, root, x.module.connects[c].value);
        reveal(Interface::sound);
        assert(belongs(x.module, x.module.connects[c].target.signal, false));
    }
}

impl RegionalWordCone {
    /// An output carries the word of a root.
    pub open spec fn sink_carries(
        &self,
        source: ModuleView,
        outer: Env,
        inner: Env,
        root: ValueId,
        sink: SignalId,
    ) -> bool {
        &&& belongs(self.module@, sink, false)
        &&& exists|c: int|
            0 <= c < self.module@.connects.len() && (#[trigger] self.module@.connects[c]).target
                == LValue::whole(sink) && word_of(
                self.module@,
                inner,
                self.module@.connects[c].value,
            ) == word_of(source, outer, root)
    }

    pub open spec fn sinks_carry(&self, source: ModuleView, outer: Env, inner: Env) -> bool {
        forall|k: int|
            0 <= k < self.root_bindings@.len() ==> self.sink_carries(
                source,
                outer,
                inner,
                (#[trigger] self.root_bindings@[k]).0,
                self.root_bindings@[k].1,
            )
    }

    pub open spec fn x(&self, source: ModuleView, known: Seq<Vec<Option<bool>>>) -> Import {
        Import { source, module: self.module@, known, leaves: self.leaves@ }
    }

    /// The border of the cone.
    pub open spec fn interface(&self, source: ModuleView) -> Interface {
        Interface {
            source,
            module: self.module@,
            inlets: self.inlets@,
            memory_signals: self.memory_signals@,
            leaves: self.leaves@,
            bindings: self.boundary_bindings@,
        }
    }

    pub open spec fn graph(&self, request: &RegionalWordConeRequest) -> Graph {
        request_graph(request, self.drivers, self.memory_signals@)
    }

    /// A value was carried over.
    pub open spec fn holds(&self, source: ModuleView, value: ValueId) -> bool {
        source.has(value) && self.source_to_local@[value.raw as int] is Some
    }

    /// An operation of the cone was made for a value: it is the operation of the
    /// value, and the value's operation is its one source; or it takes one of the bits
    /// that a read is put together from out of what stands for its driver, puts the read
    /// together or gives it its type.
    pub open spec fn made_for(&self, graph: Graph, value: ValueId, k: int) -> bool {
        &&& self.holds(graph.source, value)
        &&& match graph.source.kind(value) {
            KindView::Constant(_) => false,
            KindView::Signal(reference) => {
                let local = self.source_to_local@[value.raw as int]->0;
                ||| pieced(graph, value) && (takes_bit(
                    graph,
                    self.module@,
                    self.source_to_local@,
                    reference,
                    k,
                ) || joins_at(self.module@, k, local))
                ||| retyped(graph, value) && retypes(self.module@, k, local)
            },
            KindView::Operation(operation) => {
                &&& !graph.border(value)
                &&& Some(self.module@.operations[k].result)
                    == self.source_to_local@[value.raw as int]
                &&& self.operation_sources@[k]@ == seq![operation]
            },
        }
    }

    pub open spec fn has_maker(&self, graph: Graph, k: int) -> bool {
        exists|value: ValueId| #[trigger] self.made_for(graph, value, k)
    }

    pub open spec fn has_image(&self, graph: Graph, value: ValueId) -> bool {
        exists|k: int| 0 <= k < self.module@.operations.len() && #[trigger] self.made_for(
            graph,
            value,
            k,
        )
    }

    pub open spec fn binds(&self, value: ValueId) -> bool {
        exists|k: int|
            0 <= k < self.boundary_bindings@.len() && (#[trigger] self.boundary_bindings@[k]).0
                == value && Some(self.boundary_bindings@[k].1)
                == self.source_to_local@[value.raw as int]
    }

    /// Whatever was carried over is made of what was carried over, and in no circle.
    pub open spec fn settles(&self, graph: Graph, rank: spec_fn(ValueId) -> nat) -> bool {
        forall|value: ValueId, part: ValueId|
            self.holds(graph.source, value) && #[trigger] made_of(graph, value, part)
                ==> self.holds(graph.source, part) && rank(part) < rank(value)
    }

    /// A cone holds the roots and the border of a request, and nothing but what the
    /// request reaches. The sources of its operations are operations of the region among
    /// that, and its bindings list what of it lies at the border, each value once.
    /// All that the held values are made of is held too. Every operation of the region among
    /// that has an image that lists it among its sources, and every operation of the cone
    /// that does more than put bits together has a source of its kind.
    /// Unless the cone is recursive, its operations are just those images, each once with
    /// that one source, besides what puts reads together. In a recursive cone what a value
    /// is made of leads back to it, though no bit is worked out from itself, and bits are
    /// carried over one by one.
    pub open spec fn exact(&self, request: &RegionalWordConeRequest) -> bool {
        let source = request.source@;
        let graph = self.graph(request);
        &&& forall|value: ValueId| #[trigger]
            self.holds(source, value) ==> from_wanted(graph, value)
        &&& forall|value: ValueId|
            request.roots@.contains(value) || request.boundary_inputs@.contains(value)
                ==> #[trigger] self.holds(source, value)
        &&& forall|k: int, op: OpId|
            0 <= k < self.operation_sources@.len() && #[trigger] self.operation_sources@[k]@.contains(
                op,
            ) ==> source_reached(graph, op)
        &&& forall|k: int|
            0 <= k < self.boundary_bindings@.len() ==> boundary_value(
                graph,
                (#[trigger] self.boundary_bindings@[k]).0,
            ) && self.holds(source, self.boundary_bindings@[k].0)
        &&& forall|j: int, k: int|
            0 <= j < k < self.boundary_bindings@.len() ==> (#[trigger] self.boundary_bindings@[j]).0
                != (#[trigger] self.boundary_bindings@[k]).0
        &&& forall|value: ValueId| #[trigger]
            self.holds(source, value) && boundary_value(graph, value) ==> self.binds(value)
        &&& forall|value: ValueId, part: ValueId|
            self.holds(source, value) && #[trigger] made_of(graph, value, part) ==> self.holds(
                source,
                part,
            )
        &&& forall|k: int|
            0 <= k < self.operation_sources@.len() ==> suits(
                source,
                self.module@.operations[k].kind,
                (#[trigger] self.operation_sources@[k])@,
            )
        &&& forall|value: ValueId| #[trigger]
            self.holds(source, value) && computed(graph, value) ==> imaged(
                self.module@,
                self.operation_sources@,
                self.source_to_local@[value.raw as int]->0,
                source.kind(value)->Operation_0,
            )
        &&& if self.recursive {
            turns(graph)
        } else {
            &&& exists|rank: spec_fn(ValueId) -> nat| #[trigger] self.settles(graph, rank)
            &&& forall|k: int|
                0 <= k < self.module@.operations.len() ==> #[trigger] self.has_maker(graph, k)
            &&& forall|value: ValueId| #[trigger]
                self.holds(source, value) && computed(graph, value) ==> self.has_image(graph, value)
        }
    }

    /// A cone stands for a request: what was carried over means the same, every
    /// root is at a sink, and the memories are as they were.
    pub open spec fn stands(&self, request: &RegionalWordConeRequest) -> bool {
        let source = request.source@;
        let x = self.x(source, request.known@);
        &&& self.module@.wf()
        &&& self.module@.name == region_name(request)
        &&& self.drivers.describes(source)
        &&& self.memory_signals@ == memory_signals(request)
        &&& self.exact(request)
        &&& self.interface(source).sound()
        &&& leaves_ok(x)
        &&& self.operation_sources@.len() == self.module@.operations.len()
        &&& self.source_to_local@.len() == source.values.len()
        &&& forall|v: int|
            0 <= v < self.source_to_local@.len() && (#[trigger] self.source_to_local@[v]) is Some
                ==> agrees(x, ValueId { raw: v as u32 }, self.source_to_local@[v]->0)
        &&& forall|i: int|
            0 <= i < x.leaves.len() ==> super::importer::at_border(
                source,
                self.drivers,
                request.operation_regions@,
                request.region,
                self.memory_signals@,
                cut_values(source, request.boundary_inputs@),
                (#[trigger] x.leaves[i]).0,
            )
        &&& bound_roots(x, self.root_bindings@)
        &&& forall|v: ValueId| #[trigger]
            is_bound(self.root_bindings@, v) <==> request.roots@.contains(v)
        &&& memories_agree(source, request.memories@, self.module@.memories)
        &&& reads_agree(
            x,
            self.memory_signals@,
            request.memories@,
            listed_reads(source.memory_reads, request.memories@, source.memory_reads.len()),
            self.module@.memory_reads,
        )
        &&& writes_agree(
            x,
            request.memories@,
            listed_writes(source.memory_writes, request.memories@, source.memory_writes.len()),
            self.module@.memory_writes,
        )
    }

    /// Carries the part of a design over that a region computes. A source in which
    /// some bit is worked out from itself is refused where a value is reached again.
    #[verifier::rlimit(80)]
    pub fn build(request: &RegionalWordConeRequest) -> (result: Result<Self, SynthError>)
        requires
            request.source@.wf(),
            request.memories@.len() <= u32::MAX,
        ensures
            request.operation_regions@.len() != request.source@.operations.len() ==> result is Err
                && result->Err_0 == SynthError::Invariant(Invariant::MisalignedRegions),
            result matches Ok(cone) ==> cone.stands(request),
            result matches Err(error) ==> refused(request, error),
    {
        if request.operation_regions.len() != request.source.operations.len() {
            return Err(SynthError::Invariant(Invariant::MisalignedRegions));
        }
        let fuel: u128 = ENOUGH_FUEL;
        let ghost source = request.source@;
        let ghost wanted = wanted_values(request);
        let mut importer = fresh(request);
        let ghost drivers = importer.drivers;
        let ghost signals = memory_signals(request);
        let ghost graph = request_graph(request, drivers, signals);
        assert(importer.with_memories(request.memories@) == graph);
        let ghost bound = footprint(source) + memory_cost(source, request.memories@);
        let ghost room = memory_cost(source, request.memories@) + toll(graph)->0 * reached_count(
            graph,
        );
        proof {
            assert(toll(graph) is Some) by {
                every_graph_has_a_toll(graph);
            }
        }
        match importer.import_memories(request.memories, fuel, Ghost(wanted)) {
            Ok(()) => {},
            Err(error) => {
                proof {
                    if exhausted(importer.module@, error) {
                        lemma_takes_much(request, drivers, size(importer.module@));
                    } else if !unmakable(source, request.memories@, error) {
                        let value = choose|value: ValueId| #[trigger]
                            port_fails(
                                graph,
                                unmarked(source),
                                request.memories@,
                                value,
                                fuel as int,
                                error,
                            );
                        lemma_cannot_carry(graph, value, error);
                        assert(request_fails(request, drivers, value, error));
                    }
                }
                return Err(error);
            },
        }
        let ghost reads = listed_reads(
            source.memory_reads,
            request.memories@,
            source.memory_reads.len(),
        );
        let ghost writes = listed_writes(
            source.memory_writes,
            request.memories@,
            source.memory_writes.len(),
        );
        let mut i: usize = 0;
        while i < request.boundary_inputs.len()
            invariant
                fuel == ENOUGH_FUEL,
                request.source@.wf(),
                bound == footprint(source) + memory_cost(source, request.memories@),
                turns(graph) || importer.potential() <= bound,
                room == memory_cost(source, request.memories@) + toll(graph)->0 * reached_count(
                    graph,
                ),
                toll(graph) is Some,
                importer.volume() <= room,
                wanted == wanted_values(request),
                importer.covered(wanted),
                forall|k: int|
                    0 <= k < i ==> importer.settled(#[trigger] request.boundary_inputs@[k]),
                drivers.describes(source),
                signals == read_signals(
                    source.memory_reads,
                    request.memories@,
                    no_signals(source),
                    0,
                    source.memory_reads.len(),
                ),
                graph == request_graph(request, drivers, signals),
                importer.graph() == graph,
                importer.visiting@ == unmarked(source),
                i <= request.boundary_inputs@.len(),
                request.operation_regions@.len() == request.source@.operations.len(),
                importer.inv(),
                importer.module@.name == region_name(request),
                source == request.source@,
                importer.source == request.source,
                importer.known == request.known,
                importer.operation_regions == request.operation_regions,
                importer.region == request.region,
                importer.cut@ == cut_values(source, request.boundary_inputs@),
                memories_agree(source, request.memories@, importer.module@.memories),
                reads_agree(
                    importer.x(),
                    importer.memory_signals@,
                    request.memories@,
                    reads,
                    importer.module@.memory_reads,
                ),
                writes_agree(
                    importer.x(),
                    request.memories@,
                    writes,
                    importer.module@.memory_writes,
                ),
            decreases request.boundary_inputs.len() - i,
        {
            let ghost before = importer;
            proof {
                assert(request.boundary_inputs@.contains(request.boundary_inputs@[i as int]));
                lemma_covered_within(&importer, request.boundary_inputs@[i as int], wanted);
            }
            match importer.import(request.boundary_inputs[i], fuel) {
                Ok(local) => {
                    proof {
                        let value = request.boundary_inputs@[i as int];
                        assert(request.boundary_inputs@.contains(value));
                        lemma_covered_spends(&before, &importer, value, wanted);
                        lemma_covered_keeps(&before, &importer, value, wanted);
                        lemma_covered_on(&before, &importer, value, local, wanted);
                        lemma_settled_kept(&before, &importer);
                    }
                },
                Err(error) => {
                    proof {
                        let value = request.boundary_inputs@[i as int];
                        assert(request.boundary_inputs@.contains(value));
                        lemma_covered_spends(&before, &importer, value, wanted);
                        lemma_covered_keeps(&before, &importer, value, wanted);
                        if exhausted(importer.module@, error) {
                            lemma_takes_much(request, drivers, size(importer.module@));
                        } else {
                            if source.has(value) {
                                lemma_cannot_carry(graph, value, error);
                            }
                            assert(request_fails(request, drivers, value, error));
                        }
                    }
                    return Err(error);
                },
            }
            proof {
                lemma_reads_step(
                    before.x(),
                    importer.x(),
                    importer.memory_signals@,
                    request.memories@,
                    reads,
                    before.module@.memory_reads,
                );
                lemma_writes_step(
                    before.x(),
                    importer.x(),
                    request.memories@,
                    writes,
                    before.module@.memory_writes,
                );
            }
            i += 1;
        }
        let ghost before = importer;
        let groups = match import_roots(
            &mut importer,
            request.roots,
            fuel,
            Ghost(wanted),
        ) {
            Ok(groups) => groups,
            Err(error) => {
                proof {
                    let value = choose|root: ValueId| #[trigger]
                        request.roots@.contains(root) && before.whole_stops(
                            &importer,
                            root,
                            fuel as int,
                            error,
                        );
                    if exhausted(importer.module@, error) {
                        lemma_takes_much(request, drivers, size(importer.module@));
                    } else {
                        if source.has(value) {
                            lemma_cannot_carry(graph, value, error);
                        }
                        assert(request_fails(request, drivers, value, error));
                    }
                }
                return Err(error);
            },
        };
        let ghost middle = importer;
        let root_bindings = match add_roots(&mut importer, &groups) {
            Ok(root_bindings) => root_bindings,
            Err(error) => {
                proof {
                    lemma_groups_few(middle.x(), groups@);
                    lemma_takes_much(request, drivers, size(middle.module@));
                }
                return Err(error);
            },
        };
        proof {
            lemma_step_trans(before.x(), middle.x(), importer.x());
            lemma_reads_step(
                before.x(),
                importer.x(),
                importer.memory_signals@,
                request.memories@,
                reads,
                before.module@.memory_reads,
            );
            lemma_writes_step(
                before.x(),
                importer.x(),
                request.memories@,
                writes,
                before.module@.memory_writes,
            );
        }
        let ghost last = importer;
        let cone = RegionalWordCone {
            module: importer.module,
            source_to_local: importer.source_to_local,
            boundary_bindings: importer.boundary_bindings,
            operation_sources: importer.operation_sources,
            memory_values: Vec::new(),
            root_bindings,
            memory_signals: importer.memory_signals,
            drivers: importer.drivers,
            recursive: importer.acyclic,
            leaves: importer.leaves,
            inlets: Ghost(last.boundary_port_signals@),
        };
        proof {
            lemma_covered_kept(&middle, &last, wanted);
            lemma_settled_kept(&before, &middle);
            assert forall|value: ValueId|
                request.roots@.contains(value) || request.boundary_inputs@.contains(
                    value,
                ) implies #[trigger] last.settled(value) by {
                if request.roots@.contains(value) {
                    assert(middle.settled(value));
                } else {
                    let k = choose|k: int|
                        0 <= k < request.boundary_inputs@.len() && request.boundary_inputs@[k]
                            == value;
                    assert(before.settled(request.boundary_inputs@[k]));
                    assert(middle.settled(value));
                }
            }
            lemma_exact(&last, &cone, request);
            assert(cone.x(source, request.known@) == last.x());
            reveal(memory_ok);
            assert forall|i: int| 0 <= i < cone.leaves@.len() implies super::importer::at_border(
                source,
                cone.drivers,
                request.operation_regions@,
                request.region,
                cone.memory_signals@,
                cut_values(source, request.boundary_inputs@),
                (#[trigger] cone.leaves@[i]).0,
            ) by {
                assert(last.border(last.leaves@[i].0));
            }
        }
        Ok(cone)
    }

    /// The memories of a cone were lowered as selected, and what was made for them is
    /// listed; all else is as it was.
    pub open spec fn lowered_from(
        &self,
        built: &Self,
        memories: Seq<MemoryId>,
        implementations: Seq<MemoryImplementationCandidate>,
        cells: Seq<TargetCell>,
        ranges: Seq<Option<(u128, u128)>>,
    ) -> bool {
        &&& kept(built.module@, self.module@)
        &&& self.module@.memories.len() == 0
        &&& self.module@.memory_reads.len() == 0
        &&& self.module@.memory_writes.len() == 0
        &&& exists|binding: MemoryLoweringBinding| #[trigger]
            memories_done(
                built.module@,
                self.module@,
                ranges,
                implementations,
                cells,
                memories,
                self.memory_values@,
                binding,
            )
        &&& self.operation_sources@.len() == self.module@.operations.len()
        &&& forall|i: int|
            0 <= i < self.operation_sources@.len() ==> if i < built.operation_sources@.len() {
                #[trigger] self.operation_sources@[i] == built.operation_sources@[i]
            } else {
                self.operation_sources@[i]@.len() == 0
            }
        &&& self.source_to_local == built.source_to_local
        &&& self.boundary_bindings == built.boundary_bindings
        &&& self.root_bindings == built.root_bindings
        &&& self.memory_signals == built.memory_signals
        &&& self.drivers == built.drivers
        &&& self.recursive == built.recursive
        &&& self.leaves == built.leaves
    }

    /// Carries the part of a design over that a region computes, and lowers the memories of
    /// the region as selected. Facts and ranges are those of the values of the cone.
    pub fn build_lowered(
        request: &RegionalWordConeRequest,
        implementations: &Vec<MemoryImplementationCandidate>,
        cells: &Vec<TargetCell>,
        facts: &Vec<Option<ConstBits>>,
        ranges: &Ranges,
    ) -> (result: Result<Self, SynthError>)
        requires
            request.source@.wf(),
            request.memories@.len() <= u32::MAX,
        ensures
            request.operation_regions@.len() != request.source@.operations.len() ==> result is Err
                && result->Err_0 == SynthError::Invariant(Invariant::MisalignedRegions),
            request.operation_regions@.len() == request.source@.operations.len()
                && implementations@.len() != request.memories@.len() ==> result is Err
                && result->Err_0 == SynthError::Invariant(Invariant::BrokenSelection),
            result matches Ok(cone) ==> exists|built: Self| #[trigger]
                built.stands(request) && cone.lowered_from(
                    &built,
                    request.memories@,
                    implementations@,
                    cells@,
                    ranges@,
                ),
            result matches Err(error) ==> {
                ||| refused(request, error)
                ||| implementations@.len() != request.memories@.len() && error
                    == SynthError::Invariant(Invariant::BrokenSelection)
                ||| exists|built: Self, after: ModuleView| #[trigger]
                    built.stands(request) && #[trigger] lowering_fails(
                        built.module@,
                        after,
                        facts_view(facts@),
                        ranges@,
                        all_selected(implementations@),
                        cells@,
                        error,
                    )
            },
    {
        if request.operation_regions.len() != request.source.operations.len() {
            return Err(SynthError::Invariant(Invariant::MisalignedRegions));
        }
        if implementations.len() != request.memories.len() {
            return Err(SynthError::Invariant(Invariant::BrokenSelection));
        }
        let mut cone = match Self::build(request) {
            Ok(cone) => cone,
            Err(error) => return Err(error),
        };
        let ghost built = cone;
        match cone.lower_memories(request.memories, implementations, cells, facts, ranges) {
            Ok(()) => {
                assert(built.stands(request));
                Ok(cone)
            },
            Err(error) => {
                assert(built.stands(request) && lowering_fails(
                    built.module@,
                    cone.module@,
                    facts_view(facts@),
                    ranges@,
                    all_selected(implementations@),
                    cells@,
                    error,
                ));
                Err(error)
            },
        }
    }

    /// Lowers the memories of a cone as selected, and lists what was made for them.
    #[verifier::rlimit(40)]
    pub fn lower_memories(
        &mut self,
        memories: &Vec<MemoryId>,
        implementations: &Vec<MemoryImplementationCandidate>,
        cells: &Vec<TargetCell>,
        facts: &Vec<Option<ConstBits>>,
        ranges: &Ranges,
    ) -> (result: Result<(), SynthError>)
        requires
            old(self).module@.wf(),
            old(self).module@.memories.len() == memories@.len(),
            memories@.len() <= u32::MAX,
            old(self).operation_sources@.len() == old(self).module@.operations.len(),
        ensures
            implementations@.len() != memories@.len() ==> result is Err && result->Err_0
                == SynthError::Invariant(Invariant::BrokenSelection) && *final(self) == *old(self),
            result matches Err(error) ==> implementations@.len() == memories@.len() ==> lowering_fails(
                old(self).module@,
                final(self).module@,
                facts_view(facts@),
                ranges@,
                all_selected(implementations@),
                cells@,
                error,
            ),
            result is Ok ==> final(self).lowered_from(
                old(self),
                memories@,
                implementations@,
                cells@,
                ranges@,
            ),
    {
        if implementations.len() != memories.len() {
            return Err(SynthError::Invariant(Invariant::BrokenSelection));
        }
        let ghost start = self.module@;
        let ghost rows = self.operation_sources@;
        let mut selected: Vec<Option<MemoryImplementationCandidate>> = Vec::new();
        let mut i: usize = 0;
        while i < implementations.len()
            invariant
                i <= implementations@.len(),
                selected@ =~= all_selected(implementations@).take(i as int),
            decreases implementations.len() - i,
        {
            selected.push(Some(implementations[i]));
            i += 1;
        }
        assert(selected@ =~= all_selected(implementations@));
        let binding = match lower_selected_memories(
            &mut self.module,
            &selected,
            cells,
            facts,
            ranges,
        ) {
            Ok(binding) => binding,
            Err(error) => return Err(error),
        };
        let mut values: Vec<RegionalMemoryValueBinding> = Vec::new();
        let mut m: usize = 0;
        proof {
            lemma_rows_fit(
                start,
                self.module@,
                ranges@,
                all_selected(implementations@),
                cells@,
                binding,
            );
        }
        while m < memories.len()
            invariant
                self.module@.wf(),
                forall|i: int|
                    0 <= i < binding.memories@.len() ==> row_fits(
                        self.module@,
                        #[trigger] binding.memories@[i],
                    ),
                m <= memories@.len(),
                implementations@.len() == memories@.len(),
                binding.memories@.len() == memories@.len(),
                values@ == lowered_values(self.module@, binding.memories@, memories@, m as nat),
            decreases memories.len() - m,
        {
            assert(row_fits(self.module@, binding.memories@[m as int]));
            match push_row_values(&mut values, &self.module, &binding.memories[m], memories[m]) {
                Ok(()) => {},
                Err(error) => {
                    assert(false);
                    return Err(error);
                },
            }
            m += 1;
        }
        self.memory_values = values;
        let mut sources: Vec<Vec<OpId>> = Vec::new();
        std::mem::swap(&mut sources, &mut self.operation_sources);
        let count: usize = self.module.operations.len();
        while sources.len() < count
            invariant
                rows.len() <= sources@.len() <= count,
                forall|i: int|
                    0 <= i < sources@.len() ==> if i < rows.len() {
                        #[trigger] sources@[i] == rows[i]
                    } else {
                        sources@[i]@.len() == 0
                    },
            decreases count - sources.len(),
        {
            sources.push(Vec::new());
        }
        self.operation_sources = sources;
        proof {
            assert(memories_done(
                start,
                self.module@,
                ranges@,
                implementations@,
                cells@,
                memories@,
                self.memory_values@,
                binding,
            ));
        }
        Ok(())
    }
}

} // verus!
