//! Reads of wires that one value drives wholly.

use super::aliases::{alias_map, aliases_end, resolve_aliases};
use super::canonical::map_ok;
use super::optimize::{is_changed, some_stands_for_another, DataflowChanges};
use super::representatives::closed_from;
use super::substitution::{
    renamed_connects, renamed_instances, renamed_operations, renamed_reads, renamed_writes,
    rewrite_connects, rewrite_instances, rewrite_memory_ports, rewrite_operations,
};
use crate::error::{Invariant, SynthError};
use crate::word::builders::lemma_with_connects;
use crate::word::module::{
    Connect, KindView, ModuleView, SignalKind, SignalResolution, ValueKind, WordModule,
};
use crate::word::types::{SignalId, ValueId};
use crate::word::uses::{direct_value_uses, used_values};
use vstd::prelude::*;

verus! {

/// A value reads a signal.
pub open spec fn reads_signal(module: ModuleView, value: ValueId, signal: SignalId) -> bool {
    module.has(value) && (module.kind(value) matches KindView::Signal(reference)
        && reference.signal == signal)
}

/// Some read of a signal stands for what drives it.
pub open spec fn is_resolved(module: ModuleView, map: Seq<ValueId>, signal: SignalId) -> bool {
    exists|value: ValueId| #[trigger]
        reads_signal(module, value, signal) && map[value.raw as int] != value
}

/// Something uses a read of a signal.
pub open spec fn is_read(module: ModuleView, signal: SignalId) -> bool {
    exists|value: ValueId| #[trigger]
        used_values(module).contains(value) && reads_signal(module, value, signal)
}

/// A wire whose reads stand for what drives them and that nothing reads any more. One
/// that is to be kept, or that several drivers share, is none.
pub open spec fn idle(module: ModuleView, map: Seq<ValueId>, signal: SignalId) -> bool {
    let stored = module.signals[signal.raw as int];
    &&& stored.kind is Wire
    &&& !stored.preserved
    &&& stored.resolution is Single
    &&& is_resolved(module, map, signal)
    &&& !is_read(module, signal)
}

/// The connections that are not to idle wires.
pub open spec fn without_idle(
    module: ModuleView,
    map: Seq<ValueId>,
    connects: Seq<Connect>,
) -> Seq<Connect>
    decreases connects.len(),
{
    if connects.len() == 0 {
        seq![]
    } else {
        let below = without_idle(module, map, connects.drop_last());
        if idle(module, map, connects.last().target.signal) {
            below
        } else {
            below.push(connects.last())
        }
    }
}

/// A module with all uses of values renamed.
pub open spec fn renamed_module(module: ModuleView, map: Seq<ValueId>) -> ModuleView {
    let operations = ModuleView { operations: renamed_operations(module, map), ..module };
    let instances = ModuleView { instances: renamed_instances(operations, map), ..operations };
    let ports = ModuleView {
        memory_reads: renamed_reads(instances, map),
        memory_writes: renamed_writes(instances, map),
        ..instances
    };
    ports.with_connects(
        renamed_connects(ports.connects, Seq::new(ports.connects.len(), |i: int| false), map),
    )
}

/// Which signals have a read that stands for something else.
fn resolved_signals(module: &WordModule, map: &Vec<ValueId>) -> (marks: Vec<bool>)
    requires
        module@.wf(),
        map_ok(module@, map@),
    ensures
        marks@.len() == module@.signals.len(),
        forall|s: int|
            0 <= s < marks@.len() ==> #[trigger] marks@[s] == is_resolved(
                module@,
                map@,
                SignalId { raw: s as u32 },
            ),
{
    let ghost view = module@;
    let mut marks: Vec<bool> = Vec::new();
    marks.resize(module.signals.len(), false);
    let mut v: usize = 0;
    while v < module.values.len()
        invariant
            view == module@,
            view.wf(),
            map_ok(view, map@),
            v <= view.values.len(),
            marks@.len() == view.signals.len(),
            forall|s: int|
                0 <= s < marks@.len() && #[trigger] marks@[s] ==> is_resolved(
                    view,
                    map@,
                    SignalId { raw: s as u32 },
                ),
            forall|value: ValueId, signal: SignalId|
                value.raw < v && #[trigger] reads_signal(view, value, signal)
                    && map@[value.raw as int] != value ==> marks@[signal.raw as int],
        decreases module.values.len() - v,
    {
        let value = ValueId { raw: v as u32 };
        assert(view.value_ok(v as int));
        assert(module.values@[v as int]@ == view.values[v as int]);
        let ghost before = marks@;
        if let ValueKind::Signal(reference) = &module.values[v].kind {
            if map[v] != value {
                let at: usize = reference.signal.raw as usize;
                assert(reads_signal(view, value, reference.signal));
                assert(SignalId { raw: at as u32 } == reference.signal);
                marks.set(at, true);
            }
        }
        proof {
            assert forall|other: ValueId, signal: SignalId|
                other.raw < v + 1 && #[trigger] reads_signal(view, other, signal)
                    && map@[other.raw as int] != other implies marks@[signal.raw as int] by {
                assert(view.value_ok(other.raw as int));
                if other.raw < v {
                    assert(before[signal.raw as int]);
                } else {
                    assert(other == value);
                }
            }
        }
        v += 1;
    }
    proof {
        assert forall|s: int| 0 <= s < marks@.len() implies #[trigger] marks@[s] == is_resolved(
            view,
            map@,
            SignalId { raw: s as u32 },
        ) by {
            let signal = SignalId { raw: s as u32 };
            if is_resolved(view, map@, signal) {
                let value = choose|value: ValueId| #[trigger]
                    reads_signal(view, value, signal) && map@[value.raw as int] != value;
                assert(value.raw < v);
            }
        }
    }
    marks
}

/// Which signals something reads.
fn read_signals(module: &WordModule) -> (marks: Vec<bool>)
    requires
        module@.wf(),
    ensures
        marks@.len() == module@.signals.len(),
        forall|s: int|
            0 <= s < marks@.len() ==> #[trigger] marks@[s] == is_read(
                module@,
                SignalId { raw: s as u32 },
            ),
{
    let ghost view = module@;
    let uses = direct_value_uses(module);
    let mut marks: Vec<bool> = Vec::new();
    marks.resize(module.signals.len(), false);
    let mut u: usize = 0;
    while u < uses.len()
        invariant
            view == module@,
            view.wf(),
            uses@ == used_values(view),
            u <= uses@.len(),
            marks@.len() == view.signals.len(),
            forall|s: int|
                0 <= s < marks@.len() && #[trigger] marks@[s] ==> is_read(
                    view,
                    SignalId { raw: s as u32 },
                ),
            forall|i: int, signal: SignalId|
                0 <= i < u && #[trigger] reads_signal(view, uses@[i], signal)
                    ==> marks@[signal.raw as int],
        decreases uses.len() - u,
    {
        let value = uses[u];
        let ghost before = marks@;
        if (value.raw as usize) < module.values.len() {
            assert(view.value_ok(value.raw as int));
            assert(module.values@[value.raw as int]@ == view.values[value.raw as int]);
            if let ValueKind::Signal(reference) = &module.values[value.raw as usize].kind {
                let at: usize = reference.signal.raw as usize;
                assert(uses@.contains(value));
                assert(reads_signal(view, value, reference.signal));
                assert(SignalId { raw: at as u32 } == reference.signal);
                marks.set(at, true);
            }
        }
        proof {
            assert forall|i: int, signal: SignalId|
                0 <= i < u + 1 && #[trigger] reads_signal(view, uses@[i], signal) implies marks@[signal.raw as int] by {
                assert(view.value_ok(uses@[i].raw as int));
                if i < u {
                    assert(before[signal.raw as int]);
                }
            }
        }
        u += 1;
    }
    proof {
        assert forall|s: int| 0 <= s < marks@.len() implies #[trigger] marks@[s] == is_read(
            view,
            SignalId { raw: s as u32 },
        ) by {
            let signal = SignalId { raw: s as u32 };
            if is_read(view, signal) {
                let value = choose|value: ValueId| #[trigger]
                    used_values(view).contains(value) && reads_signal(view, value, signal);
                let i = choose|i: int| 0 <= i < uses@.len() && uses@[i] == value;
                assert(reads_signal(view, uses@[i], signal));
            }
        }
    }
    marks
}

/// Makes whatever uses a read of a wire that one value drives wholly use that value, and
/// drops the connections of wires that nothing reads any more on that account.
#[verifier::rlimit(40)]
pub fn resolve_static_connect_aliases(module: &mut WordModule) -> (result: Result<
    DataflowChanges,
    SynthError,
>)
    requires
        old(module)@.wf(),
    ensures
        final(module)@.wf(),
        result is Ok <==> aliases_end(old(module)@),
        result matches Ok(changes) ==> {
            let map = changes.representatives@;
            let renamed = renamed_module(old(module)@, map);
            &&& closed_from(alias_map(old(module)@), map)
            &&& changes.changed == some_stands_for_another(map)
            &&& final(module)@ == renamed.with_connects(
                without_idle(renamed, map, renamed.connects),
            )
        },
        result matches Err(error) ==> final(module)@ == old(module)@ && error
            == SynthError::Invariant(Invariant::CombinationalCycle),
{
    let ghost start = module@;
    let map = match resolve_aliases(module) {
        Ok(map) => map,
        Err(error) => return Err(error),
    };
    rewrite_operations(module, &map);
    assert(map_ok(module@, map@));
    rewrite_instances(module, &map);
    assert(map_ok(module@, map@));
    rewrite_memory_ports(module, &map);
    assert(map_ok(module@, map@));
    let mut removed: Vec<bool> = Vec::new();
    removed.resize(module.connects.len(), false);
    assert(removed@ =~= Seq::new(module@.connects.len(), |i: int| false));
    rewrite_connects(module, &removed, &map);
    let ghost renamed = module@;
    assert(renamed == renamed_module(start, map@));
    assert(map_ok(renamed, map@));
    let resolved = resolved_signals(module, &map);
    let read = read_signals(module);
    let mut kept: Vec<Connect> = Vec::new();
    let mut i: usize = 0;
    assert(renamed.connects.take(0) =~= seq![]);
    while i < module.connects.len()
        invariant
            module@ == renamed,
            renamed.wf(),
            i <= renamed.connects.len(),
            resolved@.len() == renamed.signals.len(),
            read@.len() == renamed.signals.len(),
            forall|s: int|
                0 <= s < resolved@.len() ==> #[trigger] resolved@[s] == is_resolved(
                    renamed,
                    map@,
                    SignalId { raw: s as u32 },
                ),
            forall|s: int|
                0 <= s < read@.len() ==> #[trigger] read@[s] == is_read(
                    renamed,
                    SignalId { raw: s as u32 },
                ),
            kept@ == without_idle(renamed, map@, renamed.connects.take(i as int)),
            forall|k: int| 0 <= k < kept@.len() ==> renamed.connect_ok(#[trigger] kept@[k]),
        decreases module.connects.len() - i,
    {
        let connect = module.connects[i];
        let at: usize = connect.target.signal.raw as usize;
        proof {
            assert(renamed.connect_ok(renamed.connects[i as int]));
            assert(renamed.connects.take(i + 1).drop_last() =~= renamed.connects.take(i as int));
            assert(renamed.connects.take(i + 1).last() == connect);
            assert(SignalId { raw: at as int as u32 } == connect.target.signal);
        }
        let wire: bool = match module.signals[at].kind {
            SignalKind::Wire => true,
            _ => false,
        };
        let single: bool = match module.signals[at].resolution {
            SignalResolution::Single => true,
            _ => false,
        };
        let drop: bool = wire && single && !module.signals[at].preserved && resolved[at]
            && !read[at];
        assert(drop == idle(renamed, map@, connect.target.signal));
        if !drop {
            kept.push(connect);
        }
        i += 1;
    }
    assert(renamed.connects.take(i as int) =~= renamed.connects);
    proof {
        lemma_with_connects(renamed, kept@);
    }
    module.connects = kept;
    let changed = is_changed(&map);
    Ok(DataflowChanges { representatives: map, changed })
}

} // verus!
