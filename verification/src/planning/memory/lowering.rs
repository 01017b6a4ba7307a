//! Lowering the memories of a module to what was selected for them.

use super::bank::{writes_fit, writes_present, write_fits, write_present, Bank};
use super::clocks::{
    bank_clocks, collect_writes, register_bank_word_clocks, word_clock, writes_of, Ranges,
};
use super::macros::{
    collect_reads, memory_macro_is_compatible, reads_of, suiting_pins_are_numbered, suits,
};
use super::pins::{first_for_pin, pin_requests, PinSource, Request};
use super::placing::{
    all_ok, cell_placed, materialize_macro, placing_fails, request_ok, sources_meet,
};
use super::ports::{
    by_priority, memories_fit, memory_ok, priorities_are_ordered, sort_by_priority,
    validate_memories, write_ok,
};
use super::reads::{bank_present, materialize_read, read_fits, read_made, read_present};
use super::storage::{
    bank_made, materialize_storage, only_connected, resources_stay, storage_fits, word_done,
    word_ready,
};
use super::target::TargetCell;
use crate::error::{Invariant, SynthError, Unsupported};
use crate::planning::fsm::transition::facts_view;
use crate::planning::regional::decision::MemoryImplementationCandidate;
use crate::word::emit::exhausted;
use crate::word::module::{
    LValue, Memory, MemoryClock, MemoryReadPort, MemoryWritePort, ModuleView, WordModule,
};
use crate::word::resources::{kept, lemma_kept, lemma_kept_trans, MemoryResources};
use crate::word::types::{BitVal, ConstBits, MemoryId, OpId, OpKind, OpView, ValueId};
use vstd::prelude::*;

verus! {

/// What is wrong with the implementation of a memory.
pub open spec fn fault(
    module: ModuleView,
    facts: Seq<Option<Seq<BitVal>>>,
    ranges: Seq<Option<(u128, u128)>>,
    implementation: Option<MemoryImplementationCandidate>,
    cells: Seq<TargetCell>,
    memory: MemoryId,
) -> Option<SynthError> {
    match implementation {
        None => None,
        Some(MemoryImplementationCandidate::RegisterBank) => {
            let writes = writes_of(module.memory_writes, memory, module.memory_writes.len());
            if writes.len() == 0 {
                Some(SynthError::Unsupported(Unsupported::NoWritableStorage(memory)))
            } else if bank_clocks(
                module,
                writes,
                ranges,
                module.memories[memory.raw as int].depth as nat,
            ) is None {
                Some(SynthError::Unsupported(Unsupported::SharedWriteClocks(memory)))
            } else {
                None
            }
        },
        Some(MemoryImplementationCandidate::Macro(cell)) => if cell >= cells.len() {
            Some(SynthError::Invariant(Invariant::UnknownMacro))
        } else if cells[cell as int].memory is Some && suits(
            module,
            facts,
            ranges,
            memory,
            cells[cell as int].memory->0,
        ) {
            None
        } else {
            Some(SynthError::Invariant(Invariant::IncompatibleMacro))
        },
    }
}

/// The first thing that is wrong with the implementations of the first memories.
pub open spec fn first_fault(
    module: ModuleView,
    facts: Seq<Option<Seq<BitVal>>>,
    ranges: Seq<Option<(u128, u128)>>,
    implementations: Seq<Option<MemoryImplementationCandidate>>,
    cells: Seq<TargetCell>,
    count: nat,
) -> Option<SynthError>
    decreases count,
{
    if count == 0 {
        None
    } else {
        match first_fault(module, facts, ranges, implementations, cells, (count - 1) as nat) {
            Some(found) => Some(found),
            None => fault(
                module,
                facts,
                ranges,
                implementations[count - 1],
                cells,
                MemoryId { raw: (count - 1) as u32 },
            ),
        }
    }
}

proof fn lemma_fault_stays(
    module: ModuleView,
    facts: Seq<Option<Seq<BitVal>>>,
    ranges: Seq<Option<(u128, u128)>>,
    implementations: Seq<Option<MemoryImplementationCandidate>>,
    cells: Seq<TargetCell>,
    count: nat,
    total: nat,
)
    requires
        count <= total,
        first_fault(module, facts, ranges, implementations, cells, count) is Some,
    ensures
        first_fault(module, facts, ranges, implementations, cells, total) == first_fault(
            module,
            facts,
            ranges,
            implementations,
            cells,
            count,
        ),
    decreases total - count,
{
    if count < total {
        lemma_fault_stays(
            module,
            facts,
            ranges,
            implementations,
            cells,
            count,
            (total - 1) as nat,
        );
    }
}

/// The clocks of a memory that becomes a bank.
pub open spec fn planned_clocks(
    module: ModuleView,
    ranges: Seq<Option<(u128, u128)>>,
    implementation: Option<MemoryImplementationCandidate>,
    memory: MemoryId,
) -> Option<Seq<MemoryClock>> {
    if implementation == Some(MemoryImplementationCandidate::RegisterBank) {
        bank_clocks(
            module,
            writes_of(module.memory_writes, memory, module.memory_writes.len()),
            ranges,
            module.memories[memory.raw as int].depth as nat,
        )
    } else {
        Some(seq![])
    }
}

/// Checks one implementation, and finds the clocks of a bank.
fn check_memory(
    module: &WordModule,
    facts: &Vec<Option<ConstBits>>,
    ranges: &Ranges,
    implementation: Option<MemoryImplementationCandidate>,
    cells: &Vec<TargetCell>,
    memory: MemoryId,
) -> (result: Result<Vec<MemoryClock>, SynthError>)
    requires
        module@.wf(),
        memory.raw < module@.memories.len(),
    ensures
        match result {
            Ok(clocks) => fault(
                module@,
                facts_view(facts@),
                ranges@,
                implementation,
                cells@,
                memory,
            ) is None && planned_clocks(module@, ranges@, implementation, memory) == Some(clocks@),
            Err(error) => match fault(
                module@,
                facts_view(facts@),
                ranges@,
                implementation,
                cells@,
                memory,
            ) {
                Some(found) => error == found,
                None => false,
            },
        },
{
    match implementation {
        None => {
            let none: Vec<MemoryClock> = Vec::new();
            assert(none@ =~= seq![]);
            Ok(none)
        },
        Some(MemoryImplementationCandidate::RegisterBank) => {
            let writes = collect_writes(&module.memory_writes, memory);
            if writes.len() == 0 {
                return Err(SynthError::Unsupported(Unsupported::NoWritableStorage(memory)));
            }
            match register_bank_word_clocks(module, memory, ranges) {
                Some(clocks) => Ok(clocks),
                None => Err(SynthError::Unsupported(Unsupported::SharedWriteClocks(memory))),
            }
        },
        Some(MemoryImplementationCandidate::Macro(cell)) => {
            if cell as usize >= cells.len() {
                return Err(SynthError::Invariant(Invariant::UnknownMacro));
            }
            match memory_macro_is_compatible(module, facts, ranges, memory, &cells[cell as usize]) {
                Ok(true) => {
                    let none: Vec<MemoryClock> = Vec::new();
                    assert(none@ =~= seq![]);
                    Ok(none)
                },
                Ok(false) => Err(SynthError::Invariant(Invariant::IncompatibleMacro)),
                Err(error) => Err(error),
            }
        },
    }
}

/// Checks all implementations, and finds the clocks of the banks.
fn preflight(
    module: &WordModule,
    facts: &Vec<Option<ConstBits>>,
    ranges: &Ranges,
    implementations: &Vec<Option<MemoryImplementationCandidate>>,
    cells: &Vec<TargetCell>,
) -> (result: Result<Vec<Vec<MemoryClock>>, SynthError>)
    requires
        module@.wf(),
        implementations@.len() == module@.memories.len(),
        module@.memories.len() <= u32::MAX,
    ensures
        match result {
            Ok(clocks) => {
                &&& first_fault(
                    module@,
                    facts_view(facts@),
                    ranges@,
                    implementations@,
                    cells@,
                    implementations@.len(),
                ) is None
                &&& clocks@.len() == implementations@.len()
                &&& forall|i: int|
                    0 <= i < clocks@.len() ==> planned_clocks(
                        module@,
                        ranges@,
                        implementations@[i],
                        MemoryId { raw: i as u32 },
                    ) == Some((#[trigger] clocks@[i])@) && fault(
                        module@,
                        facts_view(facts@),
                        ranges@,
                        implementations@[i],
                        cells@,
                        MemoryId { raw: i as u32 },
                    ) is None
            },
            Err(error) => match first_fault(
                module@,
                facts_view(facts@),
                ranges@,
                implementations@,
                cells@,
                implementations@.len(),
            ) {
                Some(found) => error == found,
                None => false,
            },
        },
{
    let mut clocks: Vec<Vec<MemoryClock>> = Vec::new();
    let mut i: usize = 0;
    while i < implementations.len()
        invariant
            module@.wf(),
            implementations@.len() == module@.memories.len(),
            module@.memories.len() <= u32::MAX,
            i <= implementations@.len(),
            clocks@.len() == i,
            first_fault(
                module@,
                facts_view(facts@),
                ranges@,
                implementations@,
                cells@,
                i as nat,
            ) is None,
            forall|k: int|
                0 <= k < i ==> planned_clocks(
                    module@,
                    ranges@,
                    implementations@[k],
                    MemoryId { raw: k as u32 },
                ) == Some((#[trigger] clocks@[k])@) && fault(
                    module@,
                    facts_view(facts@),
                    ranges@,
                    implementations@[k],
                    cells@,
                    MemoryId { raw: k as u32 },
                ) is None,
        decreases implementations.len() - i,
    {
        match check_memory(
            module,
            facts,
            ranges,
            implementations[i],
            cells,
            MemoryId { raw: i as u32 },
        ) {
            Ok(row) => clocks.push(row),
            Err(error) => {
                proof {
                    lemma_fault_stays(
                        module@,
                        facts_view(facts@),
                        ranges@,
                        implementations@,
                        cells@,
                        (i + 1) as nat,
                        implementations@.len(),
                    );
                }
                return Err(error);
            },
        }
        i += 1;
    }
    Ok(clocks)
}

/// One read of a bank.
pub open spec fn read_lowered(
    before: ModuleView,
    after: ModuleView,
    bank: Bank,
    writes: Seq<MemoryWritePort>,
    read: MemoryReadPort,
) -> bool {
    let connect = after.connects.last();
    &&& kept(before, after)
    &&& only_connected(before, after)
    &&& after.connects == before.connects.push(connect)
    &&& connect.target == LValue::whole(read.data)
    &&& connect.source == read.source
    &&& read_made(before, after, bank, read, writes, connect.value)
}

/// A bank with its reads, one after the other.
pub open spec fn bank_stages(
    before: ModuleView,
    after: ModuleView,
    memory: Memory,
    reads: Seq<MemoryReadPort>,
    writes: Seq<MemoryWritePort>,
    ranges: Seq<Option<(u128, u128)>>,
    clocks: Seq<MemoryClock>,
    bank: Bank,
    stages: Seq<ModuleView>,
) -> bool {
    &&& stages.len() == reads.len() + 1
    &&& kept(before, stages[0])
    &&& resources_stay(before, stages[0])
    &&& bank_made(before, stages[0], memory, writes, ranges, clocks, bank)
    &&& stages.last() == after
    &&& forall|r: int|
        0 <= r < reads.len() ==> read_lowered(
            stages[r],
            stages[r + 1],
            bank,
            writes,
            #[trigger] reads[r],
        )
}

/// A memory became a bank.
pub open spec fn bank_lowered(
    before: ModuleView,
    after: ModuleView,
    memory: Memory,
    reads: Seq<MemoryReadPort>,
    writes: Seq<MemoryWritePort>,
    ranges: Seq<Option<(u128, u128)>>,
    clocks: Seq<MemoryClock>,
) -> bool {
    exists|bank: Bank, stages: Seq<ModuleView>| #[trigger]
        bank_stages(before, after, memory, reads, writes, ranges, clocks, bank, stages)
}

pub open spec fn reads_present(module: ModuleView, reads: Seq<MemoryReadPort>) -> bool {
    forall|i: int| 0 <= i < reads.len() ==> read_present(module, #[trigger] reads[i])
}

pub open spec fn reads_fit(module: ModuleView, reads: Seq<MemoryReadPort>) -> bool {
    forall|i: int| 0 <= i < reads.len() ==> read_fits(module, #[trigger] reads[i])
}

proof fn lemma_present_kept(
    before: ModuleView,
    after: ModuleView,
    reads: Seq<MemoryReadPort>,
    writes: Seq<MemoryWritePort>,
)
    requires
        kept(before, after),
        reads_present(before, reads),
        writes_present(before, writes),
    ensures
        reads_present(after, reads),
        writes_present(after, writes),
        reads_fit(before, reads) ==> reads_fit(after, reads),
{
    assert forall|i: int| 0 <= i < reads.len() implies read_present(after, #[trigger] reads[i]) by {
        assert(read_present(before, reads[i]));
    }
    assert forall|i: int| 0 <= i < writes.len() implies write_present(
        after,
        #[trigger] writes[i],
    ) by {
        assert(write_present(before, writes[i]));
    }
    if reads_fit(before, reads) {
        assert forall|i: int| 0 <= i < reads.len() implies read_fits(after, #[trigger] reads[i]) by {
            assert(read_present(before, reads[i]));
            assert(read_fits(before, reads[i]));
        }
    }
}

proof fn lemma_bank_present(
    start: ModuleView,
    module: ModuleView,
    memory: Memory,
    writes: Seq<MemoryWritePort>,
    ranges: Seq<Option<(u128, u128)>>,
    clocks: Seq<MemoryClock>,
    bank: Bank,
)
    requires
        bank_made(start, module, memory, writes, ranges, clocks, bank),
        memory.depth >= 1,
    ensures
        bank_present(module, bank),
{
    let name = start.names[memory.name.raw as int];
    let first = start.signals.len() as int;
    let width = memory.element_type.width as int;
    assert(word_ready(module, memory, name, first, 0, bank.words@[0]));
    assert forall|i: int| 0 <= i < bank.words@.len() implies module.has(#[trigger] bank.words@[i])
        && module.ty(bank.words@[i]).width == width by {
        assert(word_ready(module, memory, name, first, i, bank.words@[i]));
    }
    assert forall|i: int| 0 <= i < bank.next@.len() implies module.has(#[trigger] bank.next@[i])
        && module.ty(bank.next@[i]).width == width by {
        assert(word_done(
            module,
            start,
            memory,
            writes,
            ranges,
            clocks[i],
            start.signals.len() + i,
            i as nat,
            bank.words@[i],
            bank.next@[i],
            module.connects[start.connects.len() + i],
        ));
    }
}

proof fn lemma_bank_kept(before: ModuleView, after: ModuleView, bank: Bank)
    requires
        kept(before, after),
        bank_present(before, bank),
    ensures
        bank_present(after, bank),
{
    let width = before.ty(bank.words@[0]).width as int;
    assert(before.has(bank.words@[0]));
    assert forall|i: int| 0 <= i < bank.words@.len() implies after.has(#[trigger] bank.words@[i])
        && after.ty(bank.words@[i]).width == width by {
        assert(before.has(bank.words@[i]));
    }
    assert forall|i: int| 0 <= i < bank.next@.len() implies after.has(#[trigger] bank.next@[i])
        && after.ty(bank.next@[i]).width == width by {
        assert(before.has(bank.next@[i]));
    }
}

/// Lowers a memory to a bank.
#[verifier::rlimit(40)]
fn lower_bank(
    module: &mut WordModule,
    memory: &Memory,
    reads: &Vec<MemoryReadPort>,
    writes: &Vec<MemoryWritePort>,
    ranges: &Ranges,
    clocks: &Vec<MemoryClock>,
) -> (result: Result<(), SynthError>)
    requires
        old(module)@.wf(),
        memory_ok(old(module)@, *memory),
        writes_present(old(module)@, writes@),
        reads_present(old(module)@, reads@),
        reads_fit(old(module)@, reads@),
        storage_fits(old(module)@, *memory, writes@, clocks@),
        forall|i: int|
            0 <= i < clocks@.len() ==> old(module)@.has((#[trigger] clocks@[i]).value),
    ensures
        kept(old(module)@, final(module)@),
        resources_stay(old(module)@, final(module)@),
        match result {
            Ok(()) => bank_lowered(
                old(module)@,
                final(module)@,
                *memory,
                reads@,
                writes@,
                ranges@,
                clocks@,
            ),
            Err(error) => exhausted(final(module)@, error),
        },
{
    let ghost start = module@;
    let bank = match materialize_storage(module, memory, writes, ranges, clocks) {
        Ok(bank) => bank,
        Err(error) => return Err(error),
    };
    let ghost mut stages: Seq<ModuleView> = seq![module@];
    proof {
        lemma_bank_present(start, module@, *memory, writes@, ranges@, clocks@, bank);
        lemma_present_kept(start, module@, reads@, writes@);
    }
    let mut i: usize = 0;
    while i < reads.len()
        invariant
            start == old(module)@,
            kept(start, module@),
            resources_stay(start, module@),
            bank_present(module@, bank),
            writes_present(module@, writes@),
            reads_present(module@, reads@),
            reads_fit(module@, reads@),
            i <= reads@.len(),
            stages.len() == i + 1,
            kept(start, stages[0]),
            resources_stay(start, stages[0]),
            bank_made(start, stages[0], *memory, writes@, ranges@, clocks@, bank),
            stages.last() == module@,
            forall|r: int|
                0 <= r < i ==> read_lowered(
                    stages[r],
                    stages[r + 1],
                    bank,
                    writes@,
                    #[trigger] reads@[r],
                ),
        decreases reads.len() - i,
    {
        let ghost before = module@;
        let ghost row = stages;
        assert(read_present(before, reads@[i as int]));
        assert(read_fits(before, reads@[i as int]));
        match materialize_read(module, &bank, writes, &reads[i]) {
            Ok(()) => {},
            Err(error) => {
                proof {
                    lemma_kept_trans(start, before, module@);
                }
                return Err(error);
            },
        }
        proof {
            lemma_kept_trans(start, before, module@);
            lemma_present_kept(before, module@, reads@, writes@);
            lemma_bank_kept(before, module@, bank);
            stages = stages.push(module@);
            assert forall|r: int| 0 <= r < i + 1 implies read_lowered(
                stages[r],
                stages[r + 1],
                bank,
                writes@,
                #[trigger] reads@[r],
            ) by {
                if r < i {
                    assert(stages[r] == row[r] && stages[r + 1] == row[r + 1]);
                }
            }
        }
        i += 1;
    }
    assert(bank_stages(
        start,
        module@,
        *memory,
        reads@,
        writes@,
        ranges@,
        clocks@,
        bank,
        stages,
    ));
    Ok(())
}

/// A memory became an instance of a cell.
pub open spec fn cell_lowered(
    before: ModuleView,
    after: ModuleView,
    memory: Memory,
    reads: Seq<MemoryReadPort>,
    writes: Seq<MemoryWritePort>,
    cell: TargetCell,
) -> bool {
    let last = after.instances.last();
    &&& cell.memory is Some
    &&& after == (ModuleView {
        values: after.values,
        operations: after.operations,
        instances: before.instances.push(last),
        names: after.names,
        ..before
    })
    &&& last.source == memory.source
    &&& after.names[last.cell.raw as int] == cell.name@
    &&& super::storage::named_after(
        after.names[last.name.raw as int],
        before.names[memory.name.raw as int],
    )
    &&& cell_placed(after, last.connections, pin_requests(reads, writes, cell.memory->0))
}

/// What became of one memory of a module.
#[verifier::opaque]
pub open spec fn memory_lowered(
    module: ModuleView,
    ranges: Seq<Option<(u128, u128)>>,
    implementation: Option<MemoryImplementationCandidate>,
    cells: Seq<TargetCell>,
    memory: MemoryId,
    before: ModuleView,
    after: ModuleView,
) -> bool {
    let shape = module.memories[memory.raw as int];
    let reads = reads_of(module.memory_reads, memory, module.memory_reads.len());
    let found = writes_of(module.memory_writes, memory, module.memory_writes.len());
    let writes = by_priority(found, found.len());
    kept(before, after) && match implementation {
        None => after == before,
        Some(MemoryImplementationCandidate::RegisterBank) => bank_lowered(
            before,
            after,
            shape,
            reads,
            writes,
            ranges,
            bank_clocks(module, found, ranges, shape.depth as nat)->0,
        ),
        Some(MemoryImplementationCandidate::Macro(cell)) => cell_lowered(
            before,
            after,
            shape,
            reads,
            writes,
            cells[cell as int],
        ),
    }
}

/// A module without its memories.
pub open spec fn without_memories(module: ModuleView) -> ModuleView {
    ModuleView { memories: seq![], memory_reads: seq![], memory_writes: seq![], ..module }
}

/// What became of the memories of a module, one after the other.
pub open spec fn memories_lowered(
    module: ModuleView,
    ranges: Seq<Option<(u128, u128)>>,
    implementations: Seq<Option<MemoryImplementationCandidate>>,
    cells: Seq<TargetCell>,
    stages: Seq<ModuleView>,
) -> bool {
    &&& stages.len() > 0
    &&& stages[0] == without_memories(module)
    &&& forall|i: int|
        0 <= i < stages.len() - 1 ==> memory_lowered(
            module,
            ranges,
            implementations[i],
            cells,
            MemoryId { raw: i as u32 },
            #[trigger] stages[i],
            stages[i + 1],
        )
}

/// What was made for one memory.
#[derive(Debug)]
pub struct MemoryLoweringRow {
    pub operations: Vec<OpId>,
    pub state_values: Vec<ValueId>,
}

/// What was made for every memory.
#[derive(Debug)]
pub struct MemoryLoweringBinding {
    pub memories: Vec<MemoryLoweringRow>,
}

pub open spec fn holds_state(kind: OpView) -> bool {
    kind is Register || kind is Latch
}

/// The operations in a run that hold no state.
pub open spec fn operations_between(module: ModuleView, from: int, to: int) -> Seq<OpId>
    decreases to - from,
{
    if to <= from {
        seq![]
    } else {
        let before = operations_between(module, from, to - 1);
        if holds_state(module.operations[to - 1].kind) {
            before
        } else {
            before.push(OpId { raw: (to - 1) as u32 })
        }
    }
}

/// The results of the operations in a run that hold state.
pub open spec fn states_between(module: ModuleView, from: int, to: int) -> Seq<ValueId>
    decreases to - from,
{
    if to <= from {
        seq![]
    } else {
        let before = states_between(module, from, to - 1);
        if holds_state(module.operations[to - 1].kind) {
            before.push(module.operations[to - 1].result)
        } else {
            before
        }
    }
}

/// A row lists the operations of a run.
pub open spec fn row_lists(
    row: MemoryLoweringRow,
    module: ModuleView,
    from: int,
    to: int,
) -> bool {
    row.operations@ == operations_between(module, from, to) && row.state_values@
        == states_between(module, from, to)
}

proof fn lemma_rows_kept(before: ModuleView, after: ModuleView, from: int, to: int)
    requires
        kept(before, after),
        0 <= from,
        to <= before.operations.len(),
    ensures
        operations_between(after, from, to) == operations_between(before, from, to),
        states_between(after, from, to) == states_between(before, from, to),
    decreases to - from,
{
    if from < to {
        lemma_rows_kept(before, after, from, to - 1);
    }
}

fn list_row(module: &WordModule, from: usize) -> (row: MemoryLoweringRow)
    requires
        module@.wf(),
    ensures
        row_lists(row, module@, from as int, module@.operations.len() as int),
{
    let mut operations: Vec<OpId> = Vec::new();
    let mut state_values: Vec<ValueId> = Vec::new();
    let mut i: usize = from;
    while i < module.operations.len()
        invariant
            module@.wf(),
            from <= i,
            i <= module@.operations.len() || i == from,
            operations@ == operations_between(module@, from as int, i as int),
            state_values@ == states_between(module@, from as int, i as int),
        decreases module.operations.len() - i,
    {
        let stored = &module.operations[i];
        assert(module@.operations[i as int].kind == stored.kind@);
        let held: bool = match &stored.kind {
            OpKind::Register(_) => true,
            OpKind::Latch(_) => true,
            _ => false,
        };
        if held {
            state_values.push(stored.result);
        } else {
            operations.push(OpId { raw: i as u32 });
        }
        i += 1;
    }
    proof {
        if module@.operations.len() < from {
            assert(operations@ =~= operations_between(
                module@,
                from as int,
                module@.operations.len() as int,
            ));
            assert(state_values@ =~= states_between(
                module@,
                from as int,
                module@.operations.len() as int,
            ));
        }
    }
    MemoryLoweringRow { operations, state_values }
}

impl MemoryLoweringBinding {
    /// The operations that were made, each with its memory.
    pub open spec fn listed_operations(&self, count: nat) -> Seq<(OpId, MemoryId)>
        decreases count,
    {
        if count == 0 {
            seq![]
        } else {
            let row = self.memories@[count - 1].operations@;
            self.listed_operations((count - 1) as nat) + Seq::new(
                row.len(),
                |i: int| (row[i], MemoryId { raw: (count - 1) as u32 }),
            )
        }
    }

    pub fn operations(&self) -> (list: Vec<(OpId, MemoryId)>)
        requires
            self.memories@.len() <= u32::MAX,
        ensures
            list@ == self.listed_operations(self.memories@.len()),
    {
        let mut list: Vec<(OpId, MemoryId)> = Vec::new();
        let mut m: usize = 0;
        while m < self.memories.len()
            invariant
                self.memories@.len() <= u32::MAX,
                m <= self.memories@.len(),
                list@ == self.listed_operations(m as nat),
            decreases self.memories.len() - m,
        {
            let row = &self.memories[m].operations;
            let ghost start = list@;
            let ghost all = Seq::new(
                row@.len(),
                |i: int| (row@[i], MemoryId { raw: m as u32 }),
            );
            let mut i: usize = 0;
            while i < row.len()
                invariant
                    i <= row@.len(),
                    all == Seq::new(row@.len(), |i: int| (row@[i], MemoryId { raw: m as u32 })),
                    list@ == start + all.take(i as int),
                decreases row.len() - i,
            {
                list.push((row[i], MemoryId { raw: m as u32 }));
                assert(list@ =~= start + all.take(i + 1));
                i += 1;
            }
            assert(all.take(i as int) =~= all);
            m += 1;
        }
        list
    }

    /// The states that were made, each with its memory.
    pub open spec fn listed_states(&self, count: nat) -> Seq<(ValueId, MemoryId)>
        decreases count,
    {
        if count == 0 {
            seq![]
        } else {
            let row = self.memories@[count - 1].state_values@;
            self.listed_states((count - 1) as nat) + Seq::new(
                row.len(),
                |i: int| (row[i], MemoryId { raw: (count - 1) as u32 }),
            )
        }
    }

    pub fn state_values(&self) -> (list: Vec<(ValueId, MemoryId)>)
        requires
            self.memories@.len() <= u32::MAX,
        ensures
            list@ == self.listed_states(self.memories@.len()),
    {
        let mut list: Vec<(ValueId, MemoryId)> = Vec::new();
        let mut m: usize = 0;
        while m < self.memories.len()
            invariant
                self.memories@.len() <= u32::MAX,
                m <= self.memories@.len(),
                list@ == self.listed_states(m as nat),
            decreases self.memories.len() - m,
        {
            let row = &self.memories[m].state_values;
            let ghost start = list@;
            let ghost all = Seq::new(
                row@.len(),
                |i: int| (row@[i], MemoryId { raw: m as u32 }),
            );
            let mut i: usize = 0;
            while i < row.len()
                invariant
                    i <= row@.len(),
                    all == Seq::new(row@.len(), |i: int| (row@[i], MemoryId { raw: m as u32 })),
                    list@ == start + all.take(i as int),
                decreases row.len() - i,
            {
                list.push((row[i], MemoryId { raw: m as u32 }));
                assert(list@ =~= start + all.take(i + 1));
                i += 1;
            }
            assert(all.take(i as int) =~= all);
            m += 1;
        }
        list
    }

    /// An operation of a memory by its place.
    pub fn operation(&self, memory: MemoryId, ordinal: u32) -> (operation: Option<OpId>)
        ensures
            operation == (if memory.raw < self.memories@.len() && ordinal
                < self.memories@[memory.raw as int].operations@.len() {
                Some(self.memories@[memory.raw as int].operations@[ordinal as int])
            } else {
                None
            }),
    {
        if (memory.raw as usize) < self.memories.len() && (ordinal as usize)
            < self.memories[memory.raw as usize].operations.len() {
            Some(self.memories[memory.raw as usize].operations[ordinal as usize])
        } else {
            None
        }
    }

    /// A state of a memory by its place.
    pub fn state_value(&self, memory: MemoryId, ordinal: u32) -> (value: Option<ValueId>)
        ensures
            value == (if memory.raw < self.memories@.len() && ordinal
                < self.memories@[memory.raw as int].state_values@.len() {
                Some(self.memories@[memory.raw as int].state_values@[ordinal as int])
            } else {
                None
            }),
    {
        if (memory.raw as usize) < self.memories.len() && (ordinal as usize)
            < self.memories[memory.raw as usize].state_values.len() {
            Some(self.memories[memory.raw as usize].state_values[ordinal as usize])
        } else {
            None
        }
    }
}

/// The clock of a word is that of a write.
proof fn lemma_word_clock(
    module: ModuleView,
    writes: Seq<MemoryWritePort>,
    ranges: Seq<Option<(u128, u128)>>,
    index: nat,
    count: nat,
)
    requires
        count <= writes.len(),
    ensures
        word_clock(module, writes, ranges, index, count) matches Some(Some(clock)) ==> clock_of_write(
            writes,
            clock,
        ),
    decreases count,
{
    if count > 0 {
        lemma_word_clock(module, writes, ranges, index, (count - 1) as nat);
        assert(writes[count - 1].clock == writes[count - 1].clock);
        assert(clock_of_write(writes, writes[count - 1].clock));
    }
}

spec fn clock_of_write(writes: Seq<MemoryWritePort>, clock: MemoryClock) -> bool {
    exists|i: int| 0 <= i < writes.len() && (#[trigger] writes[i]).clock == clock
}

proof fn lemma_found_writes(module: ModuleView, memory: MemoryId, count: nat)
    requires
        count <= module.memory_writes.len(),
    ensures
        forall|i: int|
            0 <= i < writes_of(module.memory_writes, memory, count).len() ==> (
            #[trigger] writes_of(module.memory_writes, memory, count)[i]).memory == memory
                && module.memory_writes.contains(
                writes_of(module.memory_writes, memory, count)[i],
            ),
    decreases count,
{
    if count > 0 {
        lemma_found_writes(module, memory, (count - 1) as nat);
        let before = writes_of(module.memory_writes, memory, (count - 1) as nat);
        let found = writes_of(module.memory_writes, memory, count);
        assert(module.memory_writes.contains(module.memory_writes[count - 1]));
        assert forall|i: int| 0 <= i < found.len() implies (#[trigger] found[i]).memory == memory
            && module.memory_writes.contains(found[i]) by {
            if i < before.len() {
                assert(before[i].memory == memory);
            }
        }
    }
}

proof fn lemma_found_reads(module: ModuleView, memory: MemoryId, count: nat)
    requires
        count <= module.memory_reads.len(),
    ensures
        forall|i: int|
            0 <= i < reads_of(module.memory_reads, memory, count).len()
                ==> module.memory_reads.contains(
                #[trigger] reads_of(module.memory_reads, memory, count)[i],
            ),
    decreases count,
{
    if count > 0 {
        lemma_found_reads(module, memory, (count - 1) as nat);
        let before = reads_of(module.memory_reads, memory, (count - 1) as nat);
        let found = reads_of(module.memory_reads, memory, count);
        assert(module.memory_reads.contains(module.memory_reads[count - 1]));
        assert forall|i: int| 0 <= i < found.len() implies module.memory_reads.contains(
            #[trigger] found[i],
        ) by {
            if i < before.len() {
                assert(module.memory_reads.contains(before[i]));
            }
        }
    }
}

/// The ports of a memory are as they have to be, also later on.
proof fn lemma_ports_ready(module: ModuleView, current: ModuleView, memory: MemoryId)
    requires
        module.wf(),
        memories_fit(module),
        memory.raw < module.memories.len(),
        kept(without_memories(module), current),
    ensures
        ({
            let found = writes_of(module.memory_writes, memory, module.memory_writes.len());
            let writes = by_priority(found, found.len());
            let reads = reads_of(module.memory_reads, memory, module.memory_reads.len());
            &&& writes_present(current, writes)
            &&& reads_present(current, reads)
            &&& reads_fit(current, reads)
            &&& writes_fit(
                current,
                writes,
                module.memories[memory.raw as int].element_type.width as int,
            )
            &&& forall|i: int|
                0 <= i < found.len() ==> current.has((#[trigger] found[i]).clock.value)
                    && current.ty(found[i].clock.value).width == 1
        }),
{
    let found = writes_of(module.memory_writes, memory, module.memory_writes.len());
    let writes = by_priority(found, found.len());
    let reads = reads_of(module.memory_reads, memory, module.memory_reads.len());
    let width = module.memories[memory.raw as int].element_type.width as int;
    let bare = without_memories(module);
    lemma_found_writes(module, memory, module.memory_writes.len());
    lemma_found_reads(module, memory, module.memory_reads.len());
    priorities_are_ordered(found);
    assert forall|i: int| 0 <= i < found.len() implies write_present(current, #[trigger] found[i])
        && write_fits(current, found[i], width) && current.ty(found[i].clock.value).width == 1 by {
        assert(module.memory_writes.contains(found[i]));
        let k = choose|k: int|
            0 <= k < module.memory_writes.len() && module.memory_writes[k] == found[i];
        assert(write_ok(module, module.memory_writes[k]));
        assert(bare.values == module.values);
        assert(write_present(bare, found[i]));
    }
    assert forall|i: int| 0 <= i < writes.len() implies write_present(current, #[trigger] writes[i])
        && write_fits(current, writes[i], width) by {
        assert(found.contains(writes[i]));
        let k = choose|k: int| 0 <= k < found.len() && found[k] == writes[i];
        assert(write_present(current, found[k]));
    }
    assert forall|i: int| 0 <= i < reads.len() implies read_present(current, #[trigger] reads[i])
        && read_fits(current, reads[i]) by {
        assert(module.memory_reads.contains(reads[i]));
        let k = choose|k: int|
            0 <= k < module.memory_reads.len() && module.memory_reads[k] == reads[i];
        assert(module.read_port_ok(module.memory_reads[k]));
        assert(read_fits(module, module.memory_reads[k]));
        assert(bare.values == module.values && bare.signals == module.signals);
    }
}

/// Lowers one memory as selected.
#[verifier::rlimit(40)]
fn lower_memory(
    module: &mut WordModule,
    memory: &Memory,
    reads: &Vec<MemoryReadPort>,
    writes: &Vec<MemoryWritePort>,
    ranges: &Ranges,
    implementation: Option<MemoryImplementationCandidate>,
    clocks: &Vec<MemoryClock>,
    cells: &Vec<TargetCell>,
    Ghost(original): Ghost<ModuleView>,
    Ghost(facts): Ghost<Seq<Option<Seq<BitVal>>>>,
    Ghost(id): Ghost<MemoryId>,
) -> (result: Result<(), SynthError>)
    requires
        original.wf(),
        memories_fit(original),
        id.raw < original.memories.len(),
        *memory == original.memories[id.raw as int],
        kept(without_memories(original), old(module)@),
        original.names.len() <= old(module)@.names.len(),
        reads@ == reads_of(original.memory_reads, id, original.memory_reads.len()),
        ({
            let found = writes_of(original.memory_writes, id, original.memory_writes.len());
            writes@ == by_priority(found, found.len())
        }),
        planned_clocks(original, ranges@, implementation, id) == Some(clocks@),
        fault(original, facts, ranges@, implementation, cells@, id) is None,
    ensures
        kept(old(module)@, final(module)@),
        final(module)@.memories == old(module)@.memories,
        final(module)@.memory_reads == old(module)@.memory_reads,
        final(module)@.memory_writes == old(module)@.memory_writes,
        final(module)@.ports == old(module)@.ports,
        old(module)@.names.len() <= final(module)@.names.len(),
        match result {
            Ok(()) => memory_lowered(
                original,
                ranges@,
                implementation,
                cells@,
                id,
                old(module)@,
                final(module)@,
            ),
            Err(error) => exhausted(final(module)@, error) || macro_fails(
                original,
                implementation,
                cells@,
                id,
                error,
            ),
        },
{
    let ghost start = module@;
    let ghost found = writes_of(original.memory_writes, id, original.memory_writes.len());
    proof {
        reveal(memory_lowered);
        lemma_kept(start, start);
        lemma_ports_ready(original, start, id);
        assert(memory_ok(original, original.memories[id.raw as int]));
    }
    match implementation {
        None => Ok(()),
        Some(MemoryImplementationCandidate::RegisterBank) => {
            proof {
                assert(clocks@.len() == memory.depth);
                assert forall|i: int| 0 <= i < clocks@.len() implies start.has(
                    (#[trigger] clocks@[i]).value,
                ) && start.ty(clocks@[i].value).width == 1 by {
                    lemma_word_clock(original, found, ranges@, i as nat, found.len());
                    let held = word_clock(original, found, ranges@, i as nat, found.len());
                    assert(held is Some);
                    if let Some(Some(clock)) = held {
                        assert(clock_of_write(found, clock));
                        let k = choose|k: int|
                            0 <= k < found.len() && (#[trigger] found[k]).clock == clock;
                        assert(start.has(found[k].clock.value));
                    } else {
                        assert(start.has(found[0].clock.value));
                    }
                }
            }
            lower_bank(module, memory, reads, writes, ranges, clocks)
        },
        Some(MemoryImplementationCandidate::Macro(cell)) => {
            let chosen = &cells[cell as usize];
            match &chosen.memory {
                Some(target) => {
                    proof {
                        suiting_pins_are_numbered(original, facts, ranges@, id, *target);
                    }
                    let result = materialize_macro(
                        module,
                        memory,
                        reads,
                        writes,
                        &chosen.name,
                        target,
                    );
                    proof {
                        if result is Err {
                            let error = result->Err_0;
                            if !exhausted(module@, error) {
                                lemma_placing_fails(
                                    original,
                                    start,
                                    pin_requests(reads@, writes@, *target),
                                    error,
                                );
                            }
                        }
                    }
                    result
                },
                None => Err(SynthError::Invariant(Invariant::IncompatibleMacro)),
            }
        },
    }
}

/// What was made is listed by memory.
pub open spec fn rows_listed(
    rows: Seq<MemoryLoweringRow>,
    module: ModuleView,
    stages: Seq<ModuleView>,
) -> bool {
    forall|i: int|
        0 <= i < rows.len() ==> row_lists(
            #[trigger] rows[i],
            module,
            stages[i].operations.len() as int,
            stages[i + 1].operations.len() as int,
        )
}

/// All memories of a module were lowered.
pub open spec fn lowering_done(
    module: ModuleView,
    after: ModuleView,
    ranges: Seq<Option<(u128, u128)>>,
    implementations: Seq<Option<MemoryImplementationCandidate>>,
    cells: Seq<TargetCell>,
    binding: MemoryLoweringBinding,
    stages: Seq<ModuleView>,
) -> bool {
    &&& stages.len() == module.memories.len() + 1
    &&& stages.last() == after
    &&& memories_lowered(module, ranges, implementations, cells, stages)
    &&& binding.memories@.len() == module.memories.len()
    &&& rows_listed(binding.memories@, after, stages)
}

/// All memories of a module were lowered, in some stages.
pub open spec fn fully_lowered(
    module: ModuleView,
    after: ModuleView,
    ranges: Seq<Option<(u128, u128)>>,
    implementations: Seq<Option<MemoryImplementationCandidate>>,
    cells: Seq<TargetCell>,
    binding: MemoryLoweringBinding,
) -> bool {
    exists|stages: Seq<ModuleView>| #[trigger]
        lowering_done(module, after, ranges, implementations, cells, binding, stages)
}

/// The cell of a memory cannot be placed.
pub open spec fn macro_fails(
    module: ModuleView,
    implementation: Option<MemoryImplementationCandidate>,
    cells: Seq<TargetCell>,
    id: MemoryId,
    error: SynthError,
) -> bool {
    &&& implementation matches Some(MemoryImplementationCandidate::Macro(cell))
    &&& cell < cells.len()
    &&& cells[cell as int].memory matches Some(target)
    &&& placing_fails(
        module,
        pin_requests(
            reads_of(module.memory_reads, id, module.memory_reads.len()),
            ({
                let found = writes_of(module.memory_writes, id, module.memory_writes.len());
                by_priority(found, found.len())
            }),
            target,
        ),
        error,
    )
}

/// The cell of some memory cannot be placed.
pub open spec fn some_macro_fails(
    module: ModuleView,
    implementations: Seq<Option<MemoryImplementationCandidate>>,
    cells: Seq<TargetCell>,
    error: SynthError,
) -> bool {
    exists|i: int|
        0 <= i < implementations.len() && macro_fails(
            module,
            #[trigger] implementations[i],
            cells,
            MemoryId { raw: i as u32 },
            error,
        )
}

proof fn lemma_placing_fails(
    module: ModuleView,
    after: ModuleView,
    requests: Seq<Request>,
    error: SynthError,
)
    requires
        module.wf(),
        kept(without_memories(module), after),
        placing_fails(after, requests, error),
    ensures
        placing_fails(module, requests, error),
{
    if all_ok(module, requests) {
        assert forall|r: int| 0 <= r < requests.len() implies request_ok(
            after,
            (#[trigger] requests[r]).source,
        ) by {
            assert(request_ok(module, requests[r].source));
            lemma_request_kept(module, after, requests[r].source);
        }
        let (i, j) = choose|i: int, j: int|
            0 <= i < j < requests.len() && #[trigger] requests[i].pin == #[trigger] requests[j].pin
                && first_for_pin(requests, i) && !sources_meet(
                after,
                requests[i].source,
                requests[j].source,
            );
        assert(request_ok(module, requests[i].source));
        assert(request_ok(module, requests[j].source));
        lemma_request_kept(module, after, requests[i].source);
        lemma_request_kept(module, after, requests[j].source);
        assert(requests[i].pin == requests[j].pin);
        assert(!sources_meet(module, requests[i].source, requests[j].source));
    }
}

/// What a request asks for is the same once the memories are gone.
proof fn lemma_request_kept(module: ModuleView, after: ModuleView, source: PinSource)
    requires
        module.wf(),
        kept(without_memories(module), after),
        request_ok(module, source),
    ensures
        request_ok(after, source),
        match source {
            PinSource::Bit(value, _) => after.values[value.raw as int]
                == module.values[value.raw as int] && after.op_of(value) == module.op_of(value),
            PinSource::Whole(value) => after.values[value.raw as int]
                == module.values[value.raw as int] && after.op_of(value) == module.op_of(value),
            PinSource::Driven(signal, _) => after.signals[signal.raw as int]
                == module.signals[signal.raw as int],
        },
{
    match source {
        PinSource::Bit(value, _) => {
            assert(module.value_ok(value.raw as int));
        },
        PinSource::Whole(value) => {
            assert(module.value_ok(value.raw as int));
        },
        _ => {},
    }
}

/// Every selection can be made, with these clocks.
#[verifier::opaque]
spec fn all_planned(
    module: ModuleView,
    facts: Seq<Option<Seq<BitVal>>>,
    ranges: Seq<Option<(u128, u128)>>,
    implementations: Seq<Option<MemoryImplementationCandidate>>,
    cells: Seq<TargetCell>,
    clocks: Seq<Vec<MemoryClock>>,
) -> bool {
    &&& clocks.len() == implementations.len()
    &&& forall|k: int|
        0 <= k < clocks.len() ==> planned_clocks(
            module,
            ranges,
            implementations[k],
            MemoryId { raw: k as u32 },
        ) == Some((#[trigger] clocks[k])@) && fault(
            module,
            facts,
            ranges,
            implementations[k],
            cells,
            MemoryId { raw: k as u32 },
        ) is None
}

/// One more memory was lowered.
#[verifier::spinoff_prover]
proof fn lemma_stage(
    module: ModuleView,
    ranges: Seq<Option<(u128, u128)>>,
    implementations: Seq<Option<MemoryImplementationCandidate>>,
    cells: Seq<TargetCell>,
    past: Seq<ModuleView>,
    after: ModuleView,
    was: Seq<MemoryLoweringRow>,
    row: MemoryLoweringRow,
)
    requires
        past.len() == was.len() + 1,
        memories_lowered(module, ranges, implementations, cells, past),
        rows_listed(was, past.last(), past),
        forall|k: int|
            0 <= k < past.len() ==> (#[trigger] past[k]).operations.len()
                <= past.last().operations.len(),
        kept(past.last(), after),
        memory_lowered(
            module,
            ranges,
            implementations[was.len() as int],
            cells,
            MemoryId { raw: was.len() as u32 },
            past.last(),
            after,
        ),
        row_lists(
            row,
            after,
            past.last().operations.len() as int,
            after.operations.len() as int,
        ),
    ensures
        memories_lowered(module, ranges, implementations, cells, past.push(after)),
        rows_listed(was.push(row), after, past.push(after)),
        forall|k: int|
            0 <= k < past.push(after).len() ==> (#[trigger] past.push(after)[k]).operations.len()
                <= after.operations.len(),
{
    let stages = past.push(after);
    let rows = was.push(row);
    assert forall|k: int| 0 <= k < stages.len() - 1 implies memory_lowered(
        module,
        ranges,
        implementations[k],
        cells,
        MemoryId { raw: k as u32 },
        #[trigger] stages[k],
        stages[k + 1],
    ) by {
        if k < past.len() - 1 {
            assert(stages[k] == past[k] && stages[k + 1] == past[k + 1]);
            assert(memory_lowered(
                module,
                ranges,
                implementations[k],
                cells,
                MemoryId { raw: k as u32 },
                past[k],
                past[k + 1],
            ));
        }
    }
    assert forall|k: int| 0 <= k < rows.len() implies row_lists(
        #[trigger] rows[k],
        after,
        stages[k].operations.len() as int,
        stages[k + 1].operations.len() as int,
    ) by {
        if k < was.len() {
            assert(rows[k] == was[k]);
            assert(stages[k] == past[k] && stages[k + 1] == past[k + 1]);
            lemma_rows_kept(
                past.last(),
                after,
                past[k].operations.len() as int,
                past[k + 1].operations.len() as int,
            );
        }
    }
    assert forall|k: int| 0 <= k < stages.len() implies (#[trigger] stages[k]).operations.len()
        <= after.operations.len() by {
        if k < past.len() {
            assert(past[k].operations.len() <= past.last().operations.len());
        }
    }
}

/// Lowers the memories that were taken out of a module.
#[verifier::rlimit(60)]
#[verifier::spinoff_prover]
fn lower_resources(
    module: &mut WordModule,
    resources: &MemoryResources,
    implementations: &Vec<Option<MemoryImplementationCandidate>>,
    cells: &Vec<TargetCell>,
    clocks: &Vec<Vec<MemoryClock>>,
    ranges: &Ranges,
    Ghost(original): Ghost<ModuleView>,
    Ghost(known): Ghost<Seq<Option<Seq<BitVal>>>>,
) -> (result: Result<MemoryLoweringBinding, SynthError>)
    requires
        original.wf(),
        original.memories.len() <= u32::MAX,
        memories_fit(original),
        implementations@.len() == original.memories.len(),
        all_planned(original, known, ranges@, implementations@, cells@, clocks@),
        resources.memories@ == original.memories,
        resources.reads@ == original.memory_reads,
        resources.writes@ == original.memory_writes,
        old(module)@.wf(),
        old(module)@ == without_memories(original),
    ensures
        kept(old(module)@, final(module)@),
        final(module)@.memories.len() == 0,
        final(module)@.memory_reads.len() == 0,
        final(module)@.memory_writes.len() == 0,
        final(module)@.ports == original.ports,
        match result {
            Ok(binding) => fully_lowered(
                original,
                final(module)@,
                ranges@,
                implementations@,
                cells@,
                binding,
            ),
            Err(error) => exhausted(final(module)@, error) || some_macro_fails(
                original,
                implementations@,
                cells@,
                error,
            ),
        },
{
    let ghost bare = module@;
    let mut rows: Vec<MemoryLoweringRow> = Vec::new();
    let ghost mut stages: Seq<ModuleView> = seq![bare];
    proof {
        lemma_kept(bare, bare);
        reveal(all_planned);
        assert(clocks@.len() == implementations@.len());
    }
    let mut i: usize = 0;
    while i < resources.memories.len()
        invariant
            bare == old(module)@,
            original.wf(),
            original.memories.len() <= u32::MAX,
            memories_fit(original),
            implementations@.len() == original.memories.len(),
            all_planned(original, known, ranges@, implementations@, cells@, clocks@),
            clocks@.len() == implementations@.len(),
            resources.memories@ == original.memories,
            resources.reads@ == original.memory_reads,
            resources.writes@ == original.memory_writes,
            bare == without_memories(original),
            kept(bare, module@),
            module@.memories.len() == 0,
            module@.memory_reads.len() == 0,
            module@.memory_writes.len() == 0,
            module@.ports == original.ports,
            original.names.len() <= module@.names.len(),
            i <= resources.memories@.len(),
            rows@.len() == i,
            stages.len() == i + 1,
            stages.last() == module@,
            memories_lowered(original, ranges@, implementations@, cells@, stages),
            rows_listed(rows@, module@, stages),
            forall|k: int|
                0 <= k < stages.len() ==> (#[trigger] stages[k]).operations.len()
                    <= module@.operations.len(),
        decreases resources.memories.len() - i,
    {
        let ghost before = module@;
        let ghost was = rows@;
        let ghost past = stages;
        let id = MemoryId { raw: i as u32 };
        let first: usize = module.operations.len();
        let reads = collect_reads(&resources.reads, id);
        let found = collect_writes(&resources.writes, id);
        let writes = sort_by_priority(&found);
        proof {
            reveal(all_planned);
            assert(clocks@[i as int]@ == clocks@[i as int]@);
        }
        match lower_memory(
            module,
            &resources.memories[i],
            &reads,
            &writes,
            ranges,
            implementations[i],
            &clocks[i],
            cells,
            Ghost(original),
            Ghost(known),
            Ghost(id),
        ) {
            Ok(()) => {},
            Err(error) => {
                proof {
                    lemma_kept_trans(bare, before, module@);
                    if !exhausted(module@, error) {
                        assert(macro_fails(original, implementations@[i as int], cells@, id, error));
                    }
                }
                return Err(error);
            },
        }
        let row = list_row(module, first);
        let ghost listed = row;
        rows.push(row);
        proof {
            lemma_kept_trans(bare, before, module@);
            lemma_stage(
                original,
                ranges@,
                implementations@,
                cells@,
                past,
                module@,
                was,
                listed,
            );
            stages = stages.push(module@);
            assert(rows@ =~= was.push(listed));
        }
        i += 1;
    }
    let binding = MemoryLoweringBinding { memories: rows };
    proof {
        assert(lowering_done(
            original,
            module@,
            ranges@,
            implementations@,
            cells@,
            binding,
            stages,
        ));
    }
    Ok(binding)
}

/// Removes the memories of a module and puts in their place what was selected for
/// them. A memory without a selection is dropped. Nothing changes where a
/// selection cannot be made.
#[verifier::rlimit(60)]
pub fn lower_selected_memories(
    module: &mut WordModule,
    implementations: &Vec<Option<MemoryImplementationCandidate>>,
    cells: &Vec<TargetCell>,
    facts: &Vec<Option<ConstBits>>,
    ranges: &Ranges,
) -> (result: Result<MemoryLoweringBinding, SynthError>)
    requires
        old(module)@.wf(),
        old(module)@.memories.len() <= u32::MAX,
    ensures
        final(module)@.wf(),
        if !memories_fit(old(module)@) {
            &&& result == Err::<MemoryLoweringBinding, SynthError>(
                SynthError::Invariant(Invariant::UnknownMemory),
            )
            &&& final(module)@ == old(module)@
        } else if implementations@.len() != old(module)@.memories.len() {
            &&& result == Err::<MemoryLoweringBinding, SynthError>(
                SynthError::Invariant(Invariant::BrokenSelection),
            )
            &&& final(module)@ == old(module)@
        } else {
            match first_fault(
                old(module)@,
                facts_view(facts@),
                ranges@,
                implementations@,
                cells@,
                implementations@.len(),
            ) {
                Some(found) => {
                    &&& result == Err::<MemoryLoweringBinding, SynthError>(
                        found,
                    )
                    &&& final(module)@ == old(module)@
                },
                None => {
                    &&& kept(old(module)@, final(module)@)
                    &&& final(module)@.memories.len() == 0
                    &&& final(module)@.memory_reads.len() == 0
                    &&& final(module)@.memory_writes.len() == 0
                    &&& final(module)@.ports == old(module)@.ports
                    &&& match result {
                        Ok(binding) => fully_lowered(
                            old(module)@,
                            final(module)@,
                            ranges@,
                            implementations@,
                            cells@,
                            binding,
                        ),
                        Err(error) => exhausted(final(module)@, error) || some_macro_fails(
                old(module)@,
                implementations@,
                cells@,
                error,
            ),
                    }
                },
            }
        },
{
    let ghost original = module@;
    let ghost known = facts_view(facts@);
    if !validate_memories(module) {
        return Err(SynthError::Invariant(Invariant::UnknownMemory));
    }
    if implementations.len() != module.memories.len() {
        return Err(SynthError::Invariant(Invariant::BrokenSelection));
    }
    let clocks = match preflight(module, facts, ranges, implementations, cells) {
        Ok(clocks) => clocks,
        Err(error) => return Err(error),
    };
    let resources = module.take_memory_resources();
    let ghost bare = module@;
    assert(bare == without_memories(original));
    proof {
        reveal(all_planned);
        assert(all_planned(original, known, ranges@, implementations@, cells@, clocks@));
    }
    let result = lower_resources(
        module,
        &resources,
        implementations,
        cells,
        &clocks,
        ranges,
        Ghost(original),
        Ghost(known),
    );
    proof {
        lemma_kept_trans(original, bare, module@);
    }
    result
}

} // verus!
