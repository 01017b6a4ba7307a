//! Where the values of a module are used.

use super::module::{MemoryReadTiming, ModuleView, WordModule};
use super::types::{op_inputs, operation_inputs, ValueId};
use crate::error::{Resource, SynthError};
use vstd::prelude::*;

verus! {

/// The rows of a function, one after the other.
pub open spec fn gathered<T>(row: spec_fn(int) -> Seq<T>, count: nat) -> Seq<T>
    decreases count,
{
    if count == 0 {
        seq![]
    } else {
        gathered(row, (count - 1) as nat) + row(count - 1)
    }
}

/// How often a value occurs in a list.
pub open spec fn occurrences(list: Seq<ValueId>, value: ValueId) -> nat
    decreases list.len(),
{
    if list.len() == 0 {
        0
    } else {
        occurrences(list.drop_last(), value) + (if list.last() == value {
            1nat
        } else {
            0
        })
    }
}

pub open spec fn connect_values(module: ModuleView, i: int) -> Seq<ValueId> {
    match module.connects[i].target.dynamic {
        Some(dynamic) => seq![module.connects[i].value, dynamic.offset],
        None => seq![module.connects[i].value],
    }
}

pub open spec fn instance_values(module: ModuleView, i: int) -> Seq<ValueId> {
    Seq::new(
        module.instances[i].connections.len(),
        |j: int| module.instances[i].connections[j].value,
    )
}

pub open spec fn read_port_values(module: ModuleView, i: int) -> Seq<ValueId> {
    let port = module.memory_reads[i];
    match port.timing {
        MemoryReadTiming::Asynchronous => seq![port.address],
        MemoryReadTiming::Synchronous { clock, enable, disabled } => match enable {
            Some(enable) => seq![port.address, clock.value, enable.value],
            None => seq![port.address, clock.value],
        },
    }
}

pub open spec fn write_port_values(module: ModuleView, i: int) -> Seq<ValueId> {
    let port = module.memory_writes[i];
    seq![port.address, port.data, port.clock.value] + (match port.enable {
        Some(enable) => seq![enable.value],
        None => seq![],
    }) + (match port.mask {
        Some(mask) => seq![mask.value],
        None => seq![],
    })
}

pub open spec fn operation_values(module: ModuleView, i: int) -> Seq<ValueId> {
    op_inputs(module.operations[i].kind)
}

/// Every use of a value in a module.
pub open spec fn used_values(module: ModuleView) -> Seq<ValueId> {
    gathered(|i: int| connect_values(module, i), module.connects.len()) + gathered(
        |i: int| instance_values(module, i),
        module.instances.len(),
    ) + gathered(|i: int| read_port_values(module, i), module.memory_reads.len()) + gathered(
        |i: int| write_port_values(module, i),
        module.memory_writes.len(),
    ) + gathered(|i: int| operation_values(module, i), module.operations.len())
}

fn push_all(list: &mut Vec<ValueId>, more: &Vec<ValueId>)
    ensures
        final(list)@ == old(list)@ + more@,
{
    let mut i: usize = 0;
    while i < more.len()
        invariant
            i <= more@.len(),
            list@ == old(list)@ + more@.take(i as int),
        decreases more.len() - i,
    {
        list.push(more[i]);
        i += 1;
        assert(more@.take(i as int) =~= more@.take(i - 1).push(more@[i - 1]));
    }
    assert(more@.take(i as int) =~= more@);
}

pub fn connects_of(module: &WordModule) -> (list: Vec<ValueId>)
    ensures
        list@ == gathered(|i: int| connect_values(module@, i), module@.connects.len()),
{
    let mut list: Vec<ValueId> = Vec::new();
    let mut i: usize = 0;
    let ghost row = |i: int| connect_values(module@, i);
    while i < module.connects.len()
        invariant
            i <= module.connects@.len(),
            row == (|i: int| connect_values(module@, i)),
            list@ == gathered(row, i as nat),
        decreases module.connects.len() - i,
    {
        let ghost was = list@;
        let connect = module.connects[i];
        list.push(connect.value);
        if let Some(dynamic) = connect.target.dynamic {
            list.push(dynamic.offset);
        }
        assert(list@ =~= was + connect_values(module@, i as int));
        i += 1;
    }
    list
}

pub fn instance_values_of(module: &WordModule) -> (list: Vec<ValueId>)
    ensures
        list@ == gathered(|i: int| instance_values(module@, i), module@.instances.len()),
{
    let mut list: Vec<ValueId> = Vec::new();
    let mut i: usize = 0;
    let ghost row = |i: int| instance_values(module@, i);
    while i < module.instances.len()
        invariant
            i <= module.instances@.len(),
            row == (|i: int| instance_values(module@, i)),
            list@ == gathered(row, i as nat),
        decreases module.instances.len() - i,
    {
        let ghost was = list@;
        let instance = &module.instances[i];
        let ghost view = module@;
        assert(view.instances[i as int] == instance@);
        let mut j: usize = 0;
        while j < instance.connections.len()
            invariant
                j <= instance.connections@.len(),
                list@ == was + instance_values(view, i as int).take(j as int),
                view.instances[i as int] == instance@,
            decreases instance.connections.len() - j,
        {
            list.push(instance.connections[j].value);
            j += 1;
            assert(instance_values(view, i as int).take(j as int) =~= instance_values(
                view,
                i as int,
            ).take(j - 1).push(instance.connections@[j - 1].value));
        }
        assert(instance_values(view, i as int).take(j as int) =~= instance_values(view, i as int));
        i += 1;
    }
    list
}

pub fn read_port_values_of(module: &WordModule) -> (list: Vec<ValueId>)
    ensures
        list@ == gathered(|i: int| read_port_values(module@, i), module@.memory_reads.len()),
{
    let mut list: Vec<ValueId> = Vec::new();
    let mut i: usize = 0;
    let ghost row = |i: int| read_port_values(module@, i);
    while i < module.memory_reads.len()
        invariant
            i <= module.memory_reads@.len(),
            row == (|i: int| read_port_values(module@, i)),
            list@ == gathered(row, i as nat),
        decreases module.memory_reads.len() - i,
    {
        let ghost was = list@;
        let port = module.memory_reads[i];
        list.push(port.address);
        if let MemoryReadTiming::Synchronous { clock, enable, disabled } = port.timing {
            list.push(clock.value);
            if let Some(enable) = enable {
                list.push(enable.value);
            }
        }
        assert(list@ =~= was + read_port_values(module@, i as int));
        i += 1;
    }
    list
}

pub fn write_port_values_of(module: &WordModule) -> (list: Vec<ValueId>)
    ensures
        list@ == gathered(|i: int| write_port_values(module@, i), module@.memory_writes.len()),
{
    let mut list: Vec<ValueId> = Vec::new();
    let mut i: usize = 0;
    let ghost row = |i: int| write_port_values(module@, i);
    while i < module.memory_writes.len()
        invariant
            i <= module.memory_writes@.len(),
            row == (|i: int| write_port_values(module@, i)),
            list@ == gathered(row, i as nat),
        decreases module.memory_writes.len() - i,
    {
        let ghost was = list@;
        let port = module.memory_writes[i];
        list.push(port.address);
        list.push(port.data);
        list.push(port.clock.value);
        if let Some(enable) = port.enable {
            list.push(enable.value);
        }
        if let Some(mask) = port.mask {
            list.push(mask.value);
        }
        assert(list@ =~= was + write_port_values(module@, i as int));
        i += 1;
    }
    list
}

fn operation_values_of(module: &WordModule) -> (list: Vec<ValueId>)
    ensures
        list@ == gathered(|i: int| operation_values(module@, i), module@.operations.len()),
{
    let mut list: Vec<ValueId> = Vec::new();
    let mut i: usize = 0;
    let ghost row = |i: int| operation_values(module@, i);
    while i < module.operations.len()
        invariant
            i <= module.operations@.len(),
            row == (|i: int| operation_values(module@, i)),
            list@ == gathered(row, i as nat),
        decreases module.operations.len() - i,
    {
        let ghost was = list@;
        assert(module@.operations[i as int] == module.operations@[i as int]@);
        let inputs = operation_inputs(&module.operations[i].kind);
        push_all(&mut list, &inputs);
        assert(list@ =~= was + operation_values(module@, i as int));
        i += 1;
    }
    list
}

proof fn lemma_occurrences_prefix(list: Seq<ValueId>, count: int, value: ValueId)
    requires
        0 <= count <= list.len(),
    ensures
        occurrences(list.take(count), value) <= occurrences(list, value),
    decreases list.len() - count,
{
    if count < list.len() {
        assert(list.take(count + 1).drop_last() =~= list.take(count));
        lemma_occurrences_prefix(list, count + 1, value);
    } else {
        assert(list.take(count) =~= list);
    }
}

/// Every use of a value in a module.
pub fn direct_value_uses(module: &WordModule) -> (list: Vec<ValueId>)
    ensures
        list@ == used_values(module@),
{
    let mut list = connects_of(module);
    let more = instance_values_of(module);
    push_all(&mut list, &more);
    let more = read_port_values_of(module);
    push_all(&mut list, &more);
    let more = write_port_values_of(module);
    push_all(&mut list, &more);
    let more = operation_values_of(module);
    push_all(&mut list, &more);
    assert(list@ =~= used_values(module@));
    list
}

/// How often each value of a module is used.
pub fn value_use_counts(module: &WordModule) -> (result: Result<Vec<u32>, SynthError>)
    requires
        module@.wf(),
    ensures
        result matches Ok(counts) ==> counts@.len() == module@.values.len() && forall|v: int|
            0 <= v < counts@.len() ==> (#[trigger] counts@[v]) == occurrences(
                used_values(module@),
                ValueId { raw: v as u32 },
            ),
        result is Err <==> exists|value: ValueId| #[trigger]
            module@.has(value) && occurrences(used_values(module@), value) > u32::MAX,
        result matches Err(error) ==> error == SynthError::Capacity(Resource::Values),
{
    let list = direct_value_uses(module);
    let ghost all = used_values(module@);
    let mut counts: Vec<u32> = Vec::new();
    counts.resize(module.values.len(), 0);
    let mut i: usize = 0;
    while i < list.len()
        invariant
            module@.wf(),
            all == used_values(module@),
            list@ == all,
            i <= list@.len(),
            counts@.len() == module@.values.len(),
            forall|v: int|
                0 <= v < counts@.len() ==> (#[trigger] counts@[v]) == occurrences(
                    all.take(i as int),
                    ValueId { raw: v as u32 },
                ),
        decreases list.len() - i,
    {
        let value = list[i];
        proof {
            assert(all.take(i + 1).drop_last() =~= all.take(i as int));
            lemma_occurrences_prefix(all, i + 1, value);
        }
        if (value.raw as usize) < counts.len() {
            let count: u32 = counts[value.raw as usize];
            assert(value == (ValueId { raw: value.raw as int as u32 }));
            if count == u32::MAX {
                assert(module@.has(value));
                return Err(SynthError::Capacity(Resource::Values));
            }
            counts.set(value.raw as usize, count + 1);
        }
        i += 1;
    }
    proof {
        assert(all.take(i as int) =~= all);
        assert forall|value: ValueId| #[trigger] module@.has(value) implies occurrences(all, value)
            <= u32::MAX by {
            assert(value == (ValueId { raw: value.raw as int as u32 }));
            assert(counts@[value.raw as int] == occurrences(all, value));
        }
    }
    Ok(counts)
}

} // verus!
