//! Where the state of a machine is looked at.

use crate::collections::IdMap;
use crate::word::module::{ModuleView, PortDirection, SignalKind, WordModule};
use crate::word::types::{op_inputs, operation_inputs, OpKind, OpView, SignalId, ValueId};
use crate::word::uses::{
    gathered, instance_values, instance_values_of, read_port_values, read_port_values_of,
    write_port_values, write_port_values_of,
};
use vstd::prelude::*;

verus! {

/// A value that is looked at from outside, and the value for whose own machine
/// the look does not count.
#[derive(Clone, Copy, PartialEq, Eq, Structural, Debug)]
pub struct FsmObservationCandidate {
    pub value: ValueId,
    pub excluded_for: Option<ValueId>,
}

fn same_exclusion(left: Option<ValueId>, right: Option<ValueId>) -> (same: bool)
    ensures
        same == (left == right),
{
    match (left, right) {
        (Some(left), Some(right)) => left == right,
        (None, None) => true,
        _ => false,
    }
}

/// A signal that leaves the module.
pub open spec fn leaves(module: ModuleView, signal: SignalId) -> bool {
    module.signals[signal.raw as int].kind matches SignalKind::Port(port) && port.raw
        < module.ports.len() && (module.ports[port.raw as int].direction is Output
        || module.ports[port.raw as int].direction is Inout)
}

pub fn leaves_module(module: &WordModule, signal: SignalId) -> (outward: bool)
    requires
        signal.raw < module@.signals.len(),
    ensures
        outward == leaves(module@, signal),
{
    match module.signals[signal.raw as usize].kind {
        SignalKind::Port(port) => {
            if (port.raw as usize) < module.ports.len() {
                match module.ports[port.raw as usize].direction {
                    PortDirection::Output | PortDirection::Inout => true,
                    PortDirection::Input => false,
                }
            } else {
                false
            }
        },
        _ => false,
    }
}

pub open spec fn plain_looks(values: Seq<ValueId>, excluded_for: Option<ValueId>) -> Seq<
    FsmObservationCandidate,
> {
    values.map_values(|value: ValueId| FsmObservationCandidate { value, excluded_for })
}

/// A connection to a port looks at its value and at a computed offset.
pub open spec fn connect_looks(module: ModuleView, i: int) -> Seq<FsmObservationCandidate> {
    let connect = module.connects[i];
    if leaves(module, connect.target.signal) {
        plain_looks(
            match connect.target.dynamic {
                Some(dynamic) => seq![connect.value, dynamic.offset],
                None => seq![connect.value],
            },
            Some(connect.value),
        )
    } else {
        seq![]
    }
}

/// A used register looks at its operands for other machines than its own, and
/// at its clock for all; a used latch looks at its operands for all.
pub open spec fn operation_looks(module: ModuleView, uses: Seq<u32>, i: int) -> Seq<
    FsmObservationCandidate,
> {
    let operation = module.operations[i];
    if operation.result.raw >= uses.len() || uses[operation.result.raw as int] == 0 {
        seq![]
    } else {
        match operation.kind {
            OpView::Register(register) => plain_looks(
                op_inputs(operation.kind),
                Some(operation.result),
            ).push(FsmObservationCandidate { value: register.clock, excluded_for: None }),
            OpView::Latch(_) => plain_looks(op_inputs(operation.kind), None),
            _ => seq![],
        }
    }
}

/// Every look at a value of a module.
pub open spec fn looks(module: ModuleView, uses: Seq<u32>) -> Seq<FsmObservationCandidate> {
    gathered(|i: int| connect_looks(module, i), module.connects.len()) + plain_looks(
        gathered(|i: int| instance_values(module, i), module.instances.len()),
        None,
    ) + plain_looks(
        gathered(|i: int| read_port_values(module, i), module.memory_reads.len()),
        None,
    ) + plain_looks(
        gathered(|i: int| write_port_values(module, i), module.memory_writes.len()),
        None,
    ) + gathered(|i: int| operation_looks(module, uses, i), module.operations.len())
}

/// The values of a list of looks, each where it first occurs.
pub open spec fn first_values(list: Seq<FsmObservationCandidate>) -> Seq<ValueId>
    decreases list.len(),
{
    if list.len() == 0 {
        seq![]
    } else {
        let below = first_values(list.drop_last());
        if below.contains(list.last().value) {
            below
        } else {
            below.push(list.last().value)
        }
    }
}

/// All looks at a value are left out for the same machine.
pub open spec fn agreed(
    list: Seq<FsmObservationCandidate>,
    value: ValueId,
    excluded: ValueId,
) -> bool {
    forall|i: int|
        0 <= i < list.len() && (#[trigger] list[i]).value == value ==> list[i].excluded_for == Some(
            excluded,
        )
}

/// One candidate per value looked at; it is left out for a machine only if
/// every look at it is.
pub open spec fn summarizes(
    list: Seq<FsmObservationCandidate>,
    candidates: Seq<FsmObservationCandidate>,
) -> bool {
    &&& candidates.map_values(|candidate: FsmObservationCandidate| candidate.value) == first_values(
        list,
    )
    &&& forall|k: int, excluded: ValueId|
        0 <= k < candidates.len() ==> ((candidates[k].excluded_for == Some(excluded))
            <==> #[trigger] agreed(list, candidates[k].value, excluded))
}

pub proof fn lemma_first_values(list: Seq<FsmObservationCandidate>)
    ensures
        first_values(list).no_duplicates(),
        forall|value: ValueId| #[trigger]
            first_values(list).contains(value) <==> exists|i: int|
                0 <= i < list.len() && (#[trigger] list[i]).value == value,
    decreases list.len(),
{
    if list.len() > 0 {
        let below = list.drop_last();
        lemma_first_values(below);
        let values = first_values(below);
        let now = first_values(list);
        assert forall|value: ValueId| #[trigger] now.contains(value) <==> exists|i: int|
            0 <= i < list.len() && (#[trigger] list[i]).value == value by {
            if now.contains(value) {
                if values.contains(value) {
                    let i = choose|i: int|
                        0 <= i < below.len() && (#[trigger] below[i]).value == value;
                    assert(list[i].value == value);
                } else {
                    assert(list[list.len() - 1].value == value);
                }
            }
            if exists|i: int| 0 <= i < list.len() && (#[trigger] list[i]).value == value {
                let i = choose|i: int| 0 <= i < list.len() && (#[trigger] list[i]).value == value;
                if i < below.len() {
                    assert(below[i].value == value);
                    assert(values.contains(value));
                    let k = choose|k: int| 0 <= k < values.len() && values[k] == value;
                    assert(now[k] == value);
                } else if !values.contains(value) {
                    assert(now[values.len() as int] == value);
                }
            }
        }
    }
}

fn push_looks(
    list: &mut Vec<FsmObservationCandidate>,
    values: &Vec<ValueId>,
    excluded_for: Option<ValueId>,
)
    ensures
        final(list)@ == old(list)@ + plain_looks(values@, excluded_for),
{
    let mut i: usize = 0;
    let ghost more = plain_looks(values@, excluded_for);
    while i < values.len()
        invariant
            i <= values@.len(),
            more == plain_looks(values@, excluded_for),
            list@ == old(list)@ + more.take(i as int),
        decreases values.len() - i,
    {
        list.push(FsmObservationCandidate { value: values[i], excluded_for });
        i += 1;
        assert(more.take(i as int) =~= more.take(i - 1).push(more[i - 1]));
    }
    assert(more.take(i as int) =~= more);
}

fn connects_looked_at(module: &WordModule) -> (list: Vec<FsmObservationCandidate>)
    requires
        module@.wf(),
    ensures
        list@ == gathered(|i: int| connect_looks(module@, i), module@.connects.len()),
{
    let mut list: Vec<FsmObservationCandidate> = Vec::new();
    let mut i: usize = 0;
    let ghost row = |i: int| connect_looks(module@, i);
    while i < module.connects.len()
        invariant
            module@.wf(),
            i <= module.connects@.len(),
            row == (|i: int| connect_looks(module@, i)),
            list@ == gathered(row, i as nat),
        decreases module.connects.len() - i,
    {
        let ghost was = list@;
        let connect = module.connects[i];
        assert(module@.connect_ok(module@.connects[i as int]));
        if leaves_module(module, connect.target.signal) {
            list.push(
                FsmObservationCandidate { value: connect.value, excluded_for: Some(connect.value) },
            );
            if let Some(dynamic) = connect.target.dynamic {
                list.push(
                    FsmObservationCandidate {
                        value: dynamic.offset,
                        excluded_for: Some(connect.value),
                    },
                );
            }
        }
        assert(list@ =~= was + connect_looks(module@, i as int));
        i += 1;
    }
    list
}

fn operations_looked_at(module: &WordModule, uses: &Vec<u32>) -> (list: Vec<
    FsmObservationCandidate,
>)
    ensures
        list@ == gathered(
            |i: int| operation_looks(module@, uses@, i),
            module@.operations.len(),
        ),
{
    let mut list: Vec<FsmObservationCandidate> = Vec::new();
    let mut i: usize = 0;
    let ghost row = |i: int| operation_looks(module@, uses@, i);
    while i < module.operations.len()
        invariant
            i <= module.operations@.len(),
            row == (|i: int| operation_looks(module@, uses@, i)),
            list@ == gathered(row, i as nat),
        decreases module.operations.len() - i,
    {
        let ghost was = list@;
        let operation = &module.operations[i];
        assert(module@.operations[i as int] == operation@);
        let place: usize = operation.result.raw as usize;
        if place < uses.len() && uses[place] != 0 {
            match &operation.kind {
                OpKind::Register(register) => {
                    let inputs = operation_inputs(&operation.kind);
                    push_looks(&mut list, &inputs, Some(operation.result));
                    list.push(
                        FsmObservationCandidate { value: register.clock, excluded_for: None },
                    );
                },
                OpKind::Latch(_) => {
                    let inputs = operation_inputs(&operation.kind);
                    push_looks(&mut list, &inputs, None);
                },
                _ => {},
            }
        }
        assert(list@ =~= was + operation_looks(module@, uses@, i as int));
        i += 1;
    }
    list
}

fn append_looks(
    list: &mut Vec<FsmObservationCandidate>,
    more: &Vec<FsmObservationCandidate>,
)
    ensures
        final(list)@ == old(list)@ + more@,
{
    let mut i: usize = 0;
    while i < more.len()
        invariant
            i <= more@.len(),
            list@ == old(list)@ + more@.take(i as int),
        decreases more.len() - i,
    {
        list.push(more[i]);
        i += 1;
        assert(more@.take(i as int) =~= more@.take(i - 1).push(more@[i - 1]));
    }
    assert(more@.take(i as int) =~= more@);
}

/// One step of the summary.
proof fn lemma_summarize(
    list: Seq<FsmObservationCandidate>,
    next: FsmObservationCandidate,
    place: int,
    before: Seq<FsmObservationCandidate>,
    after: Seq<FsmObservationCandidate>,
)
    requires
        summarizes(list, before),
        match first_values(list).contains(next.value) {
            true => 0 <= place < before.len() && before[place].value == next.value && after
                == before.update(
                place,
                FsmObservationCandidate {
                    value: next.value,
                    excluded_for: if before[place].excluded_for == next.excluded_for {
                        next.excluded_for
                    } else {
                        None
                    },
                },
            ),
            false => after == before.push(next),
        },
    ensures
        summarizes(list.push(next), after),
{
    let now = list.push(next);
    assert(now.drop_last() =~= list);
    lemma_first_values(list);
    let values = |candidate: FsmObservationCandidate| candidate.value;
    let firsts = first_values(list);
    assert(before.map_values(values) == firsts);
    assert(after.map_values(values) =~= first_values(now));
    assert forall|k: int, excluded: ValueId| 0 <= k < after.len() implies ((
    after[k].excluded_for == Some(excluded)) <==> #[trigger] agreed(
        now,
        after[k].value,
        excluded,
    )) by {
        let value = after[k].value;
        if k < before.len() {
            assert(before.map_values(values)[k] == before[k].value);
            assert(after.map_values(values)[k] == first_values(now)[k]);
            assert(firsts[k] == before[k].value);
            assert(before[k].value == value);
            assert((before[k].excluded_for == Some(excluded)) <==> agreed(list, value, excluded));
            assert(firsts.contains(value));
            let first = choose|i: int| 0 <= i < list.len() && (#[trigger] list[i]).value == value;
            assert(now[first] == list[first]);
            if agreed(now, value, excluded) {
                assert forall|i: int| 0 <= i < list.len() && (#[trigger] list[i]).value
                    == value implies list[i].excluded_for == Some(excluded) by {
                    assert(now[i] == list[i]);
                }
                assert(agreed(list, value, excluded));
                assert(now[list.len() as int] == next);
            }
            if value == next.value {
                assert forall|i: int| 0 <= i < before.len() && before[i].value == value implies i
                    == k by {
                    assert(before.map_values(values)[i] == firsts[i]);
                }
            } else if agreed(list, value, excluded) {
                assert(agreed(now, value, excluded));
            }
            if agreed(list, value, excluded) && next.value == value && next.excluded_for == Some(
                excluded,
            ) {
                assert(agreed(now, value, excluded));
            }
        } else {
            assert(now[list.len() as int] == next);
            assert forall|i: int| 0 <= i < list.len() implies (#[trigger] list[i]).value
                != value by {
                if list[i].value == value {
                    assert(firsts.contains(value));
                }
            }
            if next.excluded_for == Some(excluded) {
                assert(agreed(now, value, excluded));
            }
        }
    }
}

/// The values at which a module's state is looked at.
#[verifier::rlimit(40)]
pub fn fsm_observation_candidates(module: &WordModule, uses: &Vec<u32>) -> (candidates: Vec<
    FsmObservationCandidate,
>)
    requires
        module@.wf(),
    ensures
        summarizes(looks(module@, uses@), candidates@),
{
    let mut list = connects_looked_at(module);
    let values = instance_values_of(module);
    push_looks(&mut list, &values, None);
    let values = read_port_values_of(module);
    push_looks(&mut list, &values, None);
    let values = write_port_values_of(module);
    push_looks(&mut list, &values, None);
    let more = operations_looked_at(module, uses);
    append_looks(&mut list, &more);
    let ghost all = looks(module@, uses@);
    assert(list@ =~= all);
    let mut candidates: Vec<FsmObservationCandidate> = Vec::new();
    let mut places = IdMap::new();
    let mut i: usize = 0;
    proof {
        assert(all.take(0) =~= Seq::empty());
        assert(candidates@.map_values(|candidate: FsmObservationCandidate| candidate.value)
            =~= Seq::empty());
    }
    while i < list.len()
        invariant
            i <= list@.len(),
            list@ == all,
            summarizes(all.take(i as int), candidates@),
            placed(places@, candidates@),
        decreases list.len() - i,
    {
        let ghost before = candidates@;
        let look = list[i];
        proof {
            assert(all.take(i + 1) =~= all.take(i as int).push(look));
            lemma_first_values(all.take(i as int));
            assert(before.map_values(|candidate: FsmObservationCandidate| candidate.value).len()
                == before.len());
        }
        let ghost mut at: int = 0;
        match places.get(look.value.raw as u64) {
            Some(place) => {
                let total: usize = candidates.len();
                assert(places@.contains_key(look.value.raw as u64));
                assert(place < total);
                let place: usize = place as usize;
                assert(before[place as int].value == look.value);
                proof {
                    at = place as int;
                }
                let held = candidates[place];
                let ghost values = before.map_values(
                    |candidate: FsmObservationCandidate| candidate.value,
                );
                assert(values[place as int] == look.value);
                assert(first_values(all.take(i as int)).contains(look.value));
                if !same_exclusion(held.excluded_for, look.excluded_for) {
                    candidates.set(
                        place,
                        FsmObservationCandidate { value: held.value, excluded_for: None },
                    );
                } else {
                    assert(before =~= before.update(place as int, held));
                }
                assert(candidates@ == before.update(
                    place as int,
                    FsmObservationCandidate {
                        value: look.value,
                        excluded_for: if before[place as int].excluded_for == look.excluded_for {
                            look.excluded_for
                        } else {
                            None
                        },
                    },
                ));
            },
            None => {
                let place: usize = candidates.len();
                let ghost was = places@;
                places.insert(look.value.raw as u64, place as u64);
                candidates.push(look);
                proof {
                    let firsts = first_values(all.take(i as int));
                    if firsts.contains(look.value) {
                        let k = choose|k: int| 0 <= k < firsts.len() && firsts[k] == look.value;
                        assert(before.map_values(
                            |candidate: FsmObservationCandidate| candidate.value,
                        )[k] == look.value);
                        assert(before[k].value == look.value);
                        assert(was.contains_key(before[k].value.raw as u64));
                    }
                    assert(candidates@ =~= before.push(look));
                }
            },
        }
        proof {
            lemma_summarize(all.take(i as int), look, at, before, candidates@);
        }
        i += 1;
    }
    assert(all.take(i as int) =~= all);
    candidates
}

/// A table that says where the candidate of a value stands.
pub open spec fn placed(places: Map<u64, u64>, candidates: Seq<FsmObservationCandidate>) -> bool {
    &&& forall|k: int|
        0 <= k < candidates.len() ==> places.contains_key(
            (#[trigger] candidates[k]).value.raw as u64,
        )
    &&& forall|x: u64| #[trigger]
        places.contains_key(x) ==> places[x] < candidates.len()
            && candidates[places[x] as int].value.raw == x
}

proof fn lemma_gathered_has<T>(
    row: spec_fn(int) -> Seq<T>,
    count: nat,
    fits: spec_fn(T) -> bool,
)
    requires
        forall|i: int, j: int|
            0 <= i < count && 0 <= j < row(i).len() ==> fits(#[trigger] row(i)[j]),
    ensures
        forall|k: int|
            0 <= k < gathered(row, count).len() ==> fits(#[trigger] gathered(row, count)[k]),
    decreases count,
{
    if count > 0 {
        let below = (count - 1) as nat;
        lemma_gathered_has(row, below, fits);
        let all = gathered(row, count);
        let head = gathered(row, below);
        assert forall|k: int| 0 <= k < all.len() implies fits(#[trigger] all[k]) by {
            if k < head.len() {
                assert(all[k] == head[k]);
            } else {
                assert(all[k] == row(below as int)[k - head.len()]);
            }
        }
    }
}

/// Every look is at a value of the module.
#[verifier::rlimit(40)]
pub proof fn lemma_looks_has(
    module: ModuleView,
    uses: Seq<u32>,
    candidates: Seq<FsmObservationCandidate>,
)
    requires
        module.wf(),
        summarizes(looks(module, uses), candidates),
    ensures
        forall|k: int| 0 <= k < candidates.len() ==> module.has((#[trigger] candidates[k]).value),
{
    let list = looks(module, uses);
    let fits = |look: FsmObservationCandidate| module.has(look.value);
    let has = |value: ValueId| module.has(value);
    let connects = |i: int| connect_looks(module, i);
    assert forall|i: int, j: int|
        0 <= i < module.connects.len() && 0 <= j < connects(i).len() implies fits(
        #[trigger] connects(i)[j],
    ) by {
        assert(module.connect_ok(module.connects[i]));
    }
    lemma_gathered_has(connects, module.connects.len(), fits);
    let instances = |i: int| instance_values(module, i);
    assert forall|i: int, j: int|
        0 <= i < module.instances.len() && 0 <= j < instances(i).len() implies has(
        #[trigger] instances(i)[j],
    ) by {
        assert(module.instances[i].connections[j].value.raw < module.values.len());
    }
    lemma_gathered_has(instances, module.instances.len(), has);
    let reads = |i: int| read_port_values(module, i);
    assert forall|i: int, j: int|
        0 <= i < module.memory_reads.len() && 0 <= j < reads(i).len() implies has(
        #[trigger] reads(i)[j],
    ) by {
        assert(module.read_port_ok(module.memory_reads[i]));
    }
    lemma_gathered_has(reads, module.memory_reads.len(), has);
    let writes = |i: int| write_port_values(module, i);
    assert forall|i: int, j: int|
        0 <= i < module.memory_writes.len() && 0 <= j < writes(i).len() implies has(
        #[trigger] writes(i)[j],
    ) by {
        assert(module.write_port_ok(module.memory_writes[i]));
    }
    lemma_gathered_has(writes, module.memory_writes.len(), has);
    let operations = |i: int| operation_looks(module, uses, i);
    assert forall|i: int, j: int|
        0 <= i < module.operations.len() && 0 <= j < operations(i).len() implies fits(
        #[trigger] operations(i)[j],
    ) by {
        assert(module.operation_ok(i));
        let kind = module.operations[i].kind;
        if j < op_inputs(kind).len() {
            assert(op_inputs(kind)[j].raw < module.values.len());
        } else {
            assert(op_inputs(kind)[1].raw < module.values.len());
        }
    }
    lemma_gathered_has(operations, module.operations.len(), fits);
    assert forall|k: int| 0 <= k < list.len() implies module.has((#[trigger] list[k]).value) by {
        let a = gathered(connects, module.connects.len());
        let b = plain_looks(gathered(instances, module.instances.len()), None);
        let c = plain_looks(gathered(reads, module.memory_reads.len()), None);
        let d = plain_looks(gathered(writes, module.memory_writes.len()), None);
        let e = gathered(operations, module.operations.len());
        assert(list =~= a + b + c + d + e);
        if k < a.len() {
            assert(fits(a[k]));
        } else if k < a.len() + b.len() {
            assert(has(gathered(instances, module.instances.len())[k - a.len()]));
        } else if k < a.len() + b.len() + c.len() {
            assert(has(gathered(reads, module.memory_reads.len())[k - a.len() - b.len()]));
        } else if k < a.len() + b.len() + c.len() + d.len() {
            assert(has(
                gathered(writes, module.memory_writes.len())[k - a.len() - b.len() - c.len()],
            ));
        } else {
            assert(fits(e[k - a.len() - b.len() - c.len() - d.len()]));
        }
    }
    lemma_first_values(list);
    assert forall|k: int| 0 <= k < candidates.len() implies module.has(
        (#[trigger] candidates[k]).value,
    ) by {
        let values = candidates.map_values(|candidate: FsmObservationCandidate| candidate.value);
        assert(values[k] == candidates[k].value);
        assert(first_values(list).contains(candidates[k].value));
    }
}

} // verus!
