//! The ports of a memory, checked and in order.

use super::bank::{write_fits, write_present};
use super::reads::read_fits;
use crate::word::module::{
    Memory, MemoryReadPort, MemoryReadTiming, MemoryWritePort, ModuleView, WordModule,
};
use vstd::prelude::*;

verus! {

/// A memory has words, and a name.
pub open spec fn memory_ok(module: ModuleView, memory: Memory) -> bool {
    memory.depth >= 1 && memory.element_type.width >= 1 && memory.name.raw < module.names.len()
}

/// A write has the widths that its memory asks for.
pub open spec fn write_ok(module: ModuleView, write: MemoryWritePort) -> bool {
    &&& write_present(module, write)
    &&& module.ty(write.clock.value).width == 1
    &&& write_fits(
        module,
        write,
        module.memories[write.memory.raw as int].element_type.width as int,
    )
}

/// All memories and their ports fit together.
pub open spec fn memories_fit(module: ModuleView) -> bool {
    &&& forall|i: int|
        0 <= i < module.memories.len() ==> memory_ok(module, #[trigger] module.memories[i])
    &&& forall|i: int|
        0 <= i < module.memory_writes.len() ==> write_ok(module, #[trigger] module.memory_writes[i])
    &&& forall|i: int|
        0 <= i < module.memory_reads.len() ==> read_fits(module, #[trigger] module.memory_reads[i])
}

fn check_write(module: &WordModule, write: &MemoryWritePort) -> (fits: bool)
    requires
        module@.wf(),
        module@.write_port_ok(*write),
    ensures
        fits == write_ok(module@, *write),
{
    let width: u32 = module.memories[write.memory.raw as usize].element_type.width;
    if module.values[write.clock.value.raw as usize].ty.width != 1
        || module.values[write.data.raw as usize].ty.width != width {
        return false;
    }
    match write.mask {
        None => true,
        Some(mask) => {
            assert(module@.value_ok(write.data.raw as int));
            mask.granularity > 0 && (width - 1) / mask.granularity
                < module.values[mask.value.raw as usize].ty.width
        },
    }
}

fn check_read(module: &WordModule, read: &MemoryReadPort) -> (fits: bool)
    requires
        module@.read_port_ok(*read),
    ensures
        fits == read_fits(module@, *read),
{
    match read.timing {
        MemoryReadTiming::Asynchronous => true,
        MemoryReadTiming::Synchronous { clock, enable, disabled } => {
            module.values[clock.value.raw as usize].ty.width == 1 && match enable {
                Some(enable) => module.values[enable.value.raw as usize].ty.width == 1,
                None => true,
            }
        },
    }
}

/// Whether all memories and their ports fit together.
pub fn validate_memories(module: &WordModule) -> (fits: bool)
    requires
        module@.wf(),
    ensures
        fits == memories_fit(module@),
{
    let mut i: usize = 0;
    while i < module.memories.len()
        invariant
            i <= module@.memories.len(),
            forall|k: int| 0 <= k < i ==> memory_ok(module@, #[trigger] module@.memories[k]),
        decreases module.memories.len() - i,
    {
        let memory = &module.memories[i];
        if memory.depth == 0 || memory.element_type.width == 0 || memory.name.raw as usize
            >= module.names.len() {
            assert(!memory_ok(module@, module@.memories[i as int]));
            return false;
        }
        i += 1;
    }
    let mut j: usize = 0;
    while j < module.memory_writes.len()
        invariant
            module@.wf(),
            j <= module@.memory_writes.len(),
            forall|k: int| 0 <= k < j ==> write_ok(module@, #[trigger] module@.memory_writes[k]),
        decreases module.memory_writes.len() - j,
    {
        assert(module@.write_port_ok(module@.memory_writes[j as int]));
        if !check_write(module, &module.memory_writes[j]) {
            assert(!write_ok(module@, module@.memory_writes[j as int]));
            return false;
        }
        j += 1;
    }
    let mut k: usize = 0;
    while k < module.memory_reads.len()
        invariant
            module@.wf(),
            k <= module@.memory_reads.len(),
            forall|i: int| 0 <= i < k ==> read_fits(module@, #[trigger] module@.memory_reads[i]),
        decreases module.memory_reads.len() - k,
    {
        assert(module@.read_port_ok(module@.memory_reads[k as int]));
        if !check_read(module, &module.memory_reads[k]) {
            assert(!read_fits(module@, module@.memory_reads[k as int]));
            return false;
        }
        k += 1;
    }
    true
}

/// Where a write with a priority goes: behind all that do not come after it.
pub open spec fn priority_place(writes: Seq<MemoryWritePort>, priority: u32, end: nat) -> nat
    decreases end,
{
    if end == 0 || writes[end - 1].priority <= priority {
        end
    } else {
        priority_place(writes, priority, (end - 1) as nat)
    }
}

/// The first writes in the order of their priorities; those with one priority
/// stay as they were.
pub open spec fn by_priority(writes: Seq<MemoryWritePort>, count: nat) -> Seq<MemoryWritePort>
    decreases count,
{
    if count == 0 {
        seq![]
    } else {
        let before = by_priority(writes, (count - 1) as nat);
        before.insert(
            priority_place(before, writes[count - 1].priority, before.len()) as int,
            writes[count - 1],
        )
    }
}

proof fn lemma_place(writes: Seq<MemoryWritePort>, priority: u32, end: nat)
    requires
        end <= writes.len(),
    ensures
        priority_place(writes, priority, end) <= end,
        forall|k: int|
            priority_place(writes, priority, end) <= k < end ==> (#[trigger] writes[k]).priority
                > priority,
        priority_place(writes, priority, end) > 0 ==> writes[priority_place(writes, priority, end)
            - 1].priority <= priority,
    decreases end,
{
    if end > 0 && writes[end - 1].priority > priority {
        lemma_place(writes, priority, (end - 1) as nat);
    }
}

proof fn lemma_by_priority(writes: Seq<MemoryWritePort>, count: nat)
    requires
        count <= writes.len(),
    ensures
        by_priority(writes, count).len() == count,
        forall|i: int, j: int|
            0 <= i <= j < count ==> (#[trigger] by_priority(writes, count)[i]).priority <= (
            #[trigger] by_priority(writes, count)[j]).priority,
        forall|i: int|
            0 <= i < count ==> writes.contains(#[trigger] by_priority(writes, count)[i]),
    decreases count,
{
    if count > 0 {
        lemma_by_priority(writes, (count - 1) as nat);
        let before = by_priority(writes, (count - 1) as nat);
        let write = writes[count - 1];
        lemma_place(before, write.priority, before.len());
        let place = priority_place(before, write.priority, before.len()) as int;
        let row = before.insert(place, write);
        assert forall|i: int, j: int| 0 <= i <= j < count implies (#[trigger] row[i]).priority <= (
        #[trigger] row[j]).priority by {
            if i < place && j < place {
                assert(before[i].priority <= before[j].priority);
            } else if i < place && j == place {
                assert(before[i].priority <= before[place - 1].priority);
            } else if i < place {
                assert(before[i].priority <= before[j - 1].priority);
            } else if i == place && j > place {
                assert(before[j - 1].priority > write.priority);
            } else if i > place {
                assert(before[i - 1].priority <= before[j - 1].priority);
            }
        }
        assert forall|i: int| 0 <= i < count implies writes.contains(#[trigger] row[i]) by {
            if i < place {
                assert(writes.contains(before[i]));
            } else if i > place {
                assert(writes.contains(before[i - 1]));
            } else {
                assert(writes[count - 1] == row[i]);
            }
        }
    }
}

/// Writes come in the order of their priorities, and none is made up.
pub proof fn priorities_are_ordered(writes: Seq<MemoryWritePort>)
    ensures
        by_priority(writes, writes.len()).len() == writes.len(),
        forall|i: int, j: int|
            0 <= i <= j < writes.len() ==> (#[trigger] by_priority(
                writes,
                writes.len(),
            )[i]).priority <= (#[trigger] by_priority(writes, writes.len())[j]).priority,
        forall|i: int|
            0 <= i < writes.len() ==> writes.contains(
                #[trigger] by_priority(writes, writes.len())[i],
            ),
{
    lemma_by_priority(writes, writes.len());
}

/// Puts writes in the order of their priorities.
pub fn sort_by_priority(writes: &Vec<MemoryWritePort>) -> (sorted: Vec<MemoryWritePort>)
    ensures
        sorted@ == by_priority(writes@, writes@.len()),
{
    let mut sorted: Vec<MemoryWritePort> = Vec::new();
    let mut i: usize = 0;
    while i < writes.len()
        invariant
            i <= writes@.len(),
            sorted@ == by_priority(writes@, i as nat),
        decreases writes.len() - i,
    {
        let write = writes[i];
        let mut place: usize = sorted.len();
        while place > 0 && sorted[place - 1].priority > write.priority
            invariant
                place <= sorted@.len(),
                priority_place(sorted@, write.priority, sorted@.len()) == priority_place(
                    sorted@,
                    write.priority,
                    place as nat,
                ),
            decreases place,
        {
            place -= 1;
        }
        sorted.insert(place, write);
        i += 1;
    }
    sorted
}

} // verus!
