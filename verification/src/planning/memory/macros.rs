//! Which memory cells can stand for a memory.

use super::clocks::{
    clocks_agree, collect_writes, same_clock, writes_of, Ranges,
};
use super::enables::{enables_exclude, write_enables_are_mutually_exclusive};
use super::pins::{bindings_are_consistent, pin_requests, pins_numbered, requests_agree};
use super::target::{
    TargetCell, TargetMemory, TargetMemoryClock, TargetMemoryDisabledRead, TargetMemoryEdge,
    TargetMemoryEnable, TargetMemoryKind, TargetMemoryReadDuringWrite, TargetMemoryReadPort,
    TargetMemoryWritePort,
};
use crate::error::{Invariant, Resource, SynthError};
use crate::planning::fsm::transition::facts_view;
use crate::word::module::{
    DisabledRead, Memory, MemoryClock, MemoryReadPort, MemoryReadTiming, MemoryWriteMask,
    MemoryWritePort, ModuleView, ReadDuringWrite, WordModule,
};
use crate::word::types::{BitVal, ConstBits, Edge, Enable, MemoryId, ValueId};
use vstd::prelude::*;

verus! {

/// The reads of a memory among the first ones.
pub open spec fn reads_of(reads: Seq<MemoryReadPort>, memory: MemoryId, count: nat) -> Seq<
    MemoryReadPort,
>
    decreases count,
{
    if count == 0 {
        seq![]
    } else {
        let before = reads_of(reads, memory, (count - 1) as nat);
        if reads[count - 1].memory == memory {
            before.push(reads[count - 1])
        } else {
            before
        }
    }
}

pub fn collect_reads(reads: &Vec<MemoryReadPort>, memory: MemoryId) -> (found: Vec<MemoryReadPort>)
    ensures
        found@ == reads_of(reads@, memory, reads@.len()),
{
    let mut found: Vec<MemoryReadPort> = Vec::new();
    let mut i: usize = 0;
    while i < reads.len()
        invariant
            i <= reads@.len(),
            found@ == reads_of(reads@, memory, i as nat),
        decreases reads.len() - i,
    {
        if reads[i].memory.raw == memory.raw {
            found.push(reads[i]);
        }
        i += 1;
    }
    found
}

/// An address may be bound to fewer pins only where it is known to stay within
/// the memory.
pub open spec fn address_suits(
    module: ModuleView,
    ranges: Seq<Option<(u128, u128)>>,
    address: ValueId,
    pins: int,
    depth: u32,
) -> bool {
    module.has(address) && (module.ty(address).width == pins || (module.ty(address).width > pins
        && address.raw < ranges.len() && match ranges[address.raw as int] {
        Some(range) => range.1 < depth,
        None => false,
    }))
}

fn macro_address_matches(
    module: &WordModule,
    ranges: &Ranges,
    address: ValueId,
    pins: usize,
    depth: u32,
) -> (matching: bool)
    ensures
        matching == address_suits(module@, ranges@, address, pins as int, depth),
{
    if address.raw as usize >= module.values.len() {
        return false;
    }
    let width: usize = module.values[address.raw as usize].ty.width as usize;
    width == pins || (width > pins && (address.raw as usize) < ranges.len() && match ranges[
        address.raw as usize] {
        Some(range) => range.1 < depth as u128,
        None => false,
    })
}

pub open spec fn clock_suits(source: MemoryClock, target: TargetMemoryClock) -> bool {
    (source.edge is Pos && target.edge is Rising) || (source.edge is Neg && target.edge is Falling)
}

fn clock_matches(source: MemoryClock, target: &TargetMemoryClock) -> (matching: bool)
    ensures
        matching == clock_suits(source, *target),
{
    match (source.edge, target.edge) {
        (Edge::Pos, TargetMemoryEdge::Rising) => true,
        (Edge::Neg, TargetMemoryEdge::Falling) => true,
        _ => false,
    }
}

pub open spec fn enable_suits(source: Option<Enable>, target: Option<TargetMemoryEnable>) -> bool {
    match (source, target) {
        (None, None) => true,
        (Some(source), Some(target)) => source.active_high == target.active_high,
        _ => false,
    }
}

fn enable_matches(source: Option<Enable>, target: &Option<TargetMemoryEnable>) -> (matching: bool)
    ensures
        matching == enable_suits(source, *target),
{
    match (source, target) {
        (None, None) => true,
        (Some(source), Some(target)) => source.active_high == target.active_high,
        _ => false,
    }
}

pub open spec fn disabled_suits(source: DisabledRead, target: TargetMemoryDisabledRead) -> bool {
    (source is Hold) == (target is Hold)
}

pub open spec fn read_during_write_suits(
    source: ReadDuringWrite,
    target: TargetMemoryReadDuringWrite,
) -> bool {
    ||| source is OldData && target is OldData
    ||| source is NewData && target is NewData
    ||| source is NoChange && target is NoChange
    ||| source is Undefined && target is Undefined
}

fn read_during_write_matches(source: ReadDuringWrite, target: TargetMemoryReadDuringWrite)
    -> (matching: bool)
    ensures
        matching == read_during_write_suits(source, target),
{
    match (source, target) {
        (ReadDuringWrite::OldData, TargetMemoryReadDuringWrite::OldData) => true,
        (ReadDuringWrite::NewData, TargetMemoryReadDuringWrite::NewData) => true,
        (ReadDuringWrite::NoChange, TargetMemoryReadDuringWrite::NoChange) => true,
        (ReadDuringWrite::Undefined, TargetMemoryReadDuringWrite::Undefined) => true,
        _ => false,
    }
}

pub open spec fn timing_suits(source: MemoryReadTiming, target: TargetMemoryReadPort) -> bool {
    match (source, target.clock) {
        (MemoryReadTiming::Asynchronous, None) => target.enable is None,
        (MemoryReadTiming::Synchronous { clock, enable, disabled }, Some(pin)) => clock_suits(
            clock,
            pin,
        ) && enable_suits(enable, target.enable) && disabled_suits(disabled, target.disabled),
        _ => false,
    }
}

fn read_timing_matches(source: MemoryReadTiming, target: &TargetMemoryReadPort) -> (matching: bool)
    ensures
        matching == timing_suits(source, *target),
{
    match (source, &target.clock) {
        (MemoryReadTiming::Asynchronous, None) => target.enable.is_none(),
        (MemoryReadTiming::Synchronous { clock, enable, disabled }, Some(pin)) => {
            let kept: bool = match (disabled, target.disabled) {
                (DisabledRead::Hold, TargetMemoryDisabledRead::Hold) => true,
                (DisabledRead::Undefined, TargetMemoryDisabledRead::Undefined) => true,
                _ => false,
            };
            clock_matches(clock, pin) && enable_matches(enable, &target.enable) && kept
        },
        _ => false,
    }
}

pub open spec fn mask_suits(
    module: ModuleView,
    source: Option<MemoryWriteMask>,
    target: TargetMemoryWritePort,
) -> bool {
    match source {
        None => target.mask_pins@.len() == 0 && target.mask_granularity == 0,
        Some(source) => source.granularity == target.mask_granularity && source.active_high
            == target.mask_active_high && module.has(source.value) && module.ty(source.value).width
            == target.mask_pins@.len(),
    }
}

fn mask_matches(
    module: &WordModule,
    source: Option<MemoryWriteMask>,
    target: &TargetMemoryWritePort,
) -> (matching: bool)
    ensures
        matching == mask_suits(module@, source, *target),
{
    match source {
        None => target.mask_pins.len() == 0 && target.mask_granularity == 0,
        Some(source) => source.granularity == target.mask_granularity && source.active_high
            == target.mask_active_high && (source.value.raw as usize) < module.values.len()
            && module.values[source.value.raw as usize].ty.width as usize
            == target.mask_pins.len(),
    }
}

/// A read port of a cell can stand for a read.
pub open spec fn read_suits(
    module: ModuleView,
    ranges: Seq<Option<(u128, u128)>>,
    memory: Memory,
    source: MemoryReadPort,
    target: TargetMemoryReadPort,
) -> bool {
    &&& address_suits(
        module,
        ranges,
        source.address,
        target.address_pins@.len() as int,
        memory.depth,
    )
    &&& target.data_pins@.len() == memory.element_type.width
    &&& timing_suits(source.timing, target)
    &&& source.timing is Synchronous ==> read_during_write_suits(
        source.read_during_write,
        target.read_during_write,
    )
}

fn read_port_matches(
    module: &WordModule,
    ranges: &Ranges,
    memory: &Memory,
    source: &MemoryReadPort,
    target: &TargetMemoryReadPort,
) -> (matching: bool)
    ensures
        matching == read_suits(module@, ranges@, *memory, *source, *target),
{
    let settled: bool = match source.timing {
        MemoryReadTiming::Asynchronous => true,
        MemoryReadTiming::Synchronous { clock, enable, disabled } => read_during_write_matches(
            source.read_during_write,
            target.read_during_write,
        ),
    };
    macro_address_matches(
        module,
        ranges,
        source.address,
        target.address_pins.len(),
        memory.depth,
    ) && target.data_pins.len() == memory.element_type.width as usize && read_timing_matches(
        source.timing,
        target,
    ) && settled
}

/// A write port of a cell can stand for a write.
pub open spec fn write_suits(
    module: ModuleView,
    ranges: Seq<Option<(u128, u128)>>,
    memory: Memory,
    source: MemoryWritePort,
    target: TargetMemoryWritePort,
) -> bool {
    &&& address_suits(
        module,
        ranges,
        source.address,
        target.address_pins@.len() as int,
        memory.depth,
    )
    &&& module.has(source.data)
    &&& module.ty(source.data).width == target.data_pins@.len()
    &&& clock_suits(source.clock, target.clock)
    &&& enable_suits(source.enable, target.enable)
    &&& mask_suits(module, source.mask, target)
}

fn write_port_matches(
    module: &WordModule,
    ranges: &Ranges,
    memory: &Memory,
    source: &MemoryWritePort,
    target: &TargetMemoryWritePort,
) -> (matching: bool)
    ensures
        matching == write_suits(module@, ranges@, *memory, *source, *target),
{
    macro_address_matches(
        module,
        ranges,
        source.address,
        target.address_pins.len(),
        memory.depth,
    ) && (source.data.raw as usize) < module.values.len() && module.values[
        source.data.raw as usize].ty.width as usize == target.data_pins.len() && clock_matches(
        source.clock,
        &target.clock,
    ) && enable_matches(source.enable, &target.enable) && mask_matches(module, source.mask, target)
}

/// Two writes with one clock are never active together.
pub open spec fn writes_apart(
    module: ModuleView,
    facts: Seq<Option<Seq<BitVal>>>,
    left: MemoryWritePort,
    right: MemoryWritePort,
) -> bool {
    !clocks_agree(module, left.clock, right.clock) || enables_exclude(
        module,
        facts,
        left.enable,
        right.enable,
    )
}

pub open spec fn all_writes_apart(
    module: ModuleView,
    facts: Seq<Option<Seq<BitVal>>>,
    writes: Seq<MemoryWritePort>,
) -> bool {
    forall|i: int, j: int|
        0 <= i < j < writes.len() ==> writes_apart(
            module,
            facts,
            #[trigger] writes[i],
            #[trigger] writes[j],
        )
}

fn macro_write_clocks_are_supported(
    module: &WordModule,
    facts: &Vec<Option<ConstBits>>,
    writes: &Vec<MemoryWritePort>,
) -> (supported: bool)
    requires
        module@.wf(),
        forall|i: int|
            0 <= i < writes@.len() ==> (#[trigger] writes@[i]).enable is Some ==> module@.has(
                writes@[i].enable->0.value,
            ),
    ensures
        supported == all_writes_apart(module@, facts_view(facts@), writes@),
{
    let mut i: usize = 0;
    while i < writes.len()
        invariant
            module@.wf(),
            forall|i: int|
                0 <= i < writes@.len() ==> (#[trigger] writes@[i]).enable is Some ==> module@.has(
                    writes@[i].enable->0.value,
                ),
            i <= writes@.len(),
            forall|a: int, b: int|
                0 <= a < i && a < b < writes@.len() ==> writes_apart(
                    module@,
                    facts_view(facts@),
                    #[trigger] writes@[a],
                    #[trigger] writes@[b],
                ),
        decreases writes.len() - i,
    {
        let mut j: usize = i + 1;
        while j < writes.len()
            invariant
                module@.wf(),
                forall|i: int|
                    0 <= i < writes@.len() ==> (#[trigger] writes@[i]).enable is Some
                        ==> module@.has(writes@[i].enable->0.value),
                i < j <= writes@.len(),
                forall|b: int|
                    i < b < j ==> writes_apart(
                        module@,
                        facts_view(facts@),
                        writes@[i as int],
                        #[trigger] writes@[b],
                    ),
            decreases writes.len() - j,
        {
            if same_clock(module, writes[i].clock, writes[j].clock)
                && !write_enables_are_mutually_exclusive(module, facts, &writes[i], &writes[j]) {
                assert(!writes_apart(
                    module@,
                    facts_view(facts@),
                    writes@[i as int],
                    writes@[j as int],
                ));
                return false;
            }
            j += 1;
        }
        i += 1;
    }
    true
}

/// A cell can stand for a memory.
pub open spec fn suits(
    module: ModuleView,
    facts: Seq<Option<Seq<BitVal>>>,
    ranges: Seq<Option<(u128, u128)>>,
    memory: MemoryId,
    target: TargetMemory,
) -> bool {
    let reads = reads_of(module.memory_reads, memory, module.memory_reads.len());
    let writes = writes_of(module.memory_writes, memory, module.memory_writes.len());
    let shape = module.memories[memory.raw as int];
    &&& target.depth == shape.depth
    &&& target.word_width == shape.element_type.width
    &&& target.read_ports@.len() == reads.len()
    &&& target.write_ports@.len() == writes.len()
    &&& target.kind is Rom ==> writes.len() == 0
    &&& all_writes_apart(module, facts, writes)
    &&& forall|i: int|
        0 <= i < reads.len() ==> read_suits(
            module,
            ranges,
            shape,
            #[trigger] reads[i],
            target.read_ports@[i],
        )
    &&& forall|i: int|
        0 <= i < writes.len() ==> write_suits(
            module,
            ranges,
            shape,
            #[trigger] writes[i],
            target.write_ports@[i],
        )
    &&& requests_agree(module, pin_requests(reads, writes, target))
}

pub proof fn lemma_collected_writes(module: ModuleView, memory: MemoryId, count: nat)
    requires
        module.wf(),
        count <= module.memory_writes.len(),
    ensures
        forall|i: int|
            0 <= i < writes_of(module.memory_writes, memory, count).len() ==> module.write_port_ok(
                #[trigger] writes_of(module.memory_writes, memory, count)[i],
            ),
    decreases count,
{
    if count > 0 {
        lemma_collected_writes(module, memory, (count - 1) as nat);
        assert(module.write_port_ok(module.memory_writes[count - 1]));
        let before = writes_of(module.memory_writes, memory, (count - 1) as nat);
        let found = writes_of(module.memory_writes, memory, count);
        assert forall|i: int| 0 <= i < found.len() implies module.write_port_ok(
            #[trigger] found[i],
        ) by {
            if i < before.len() {
                assert(module.write_port_ok(before[i]));
            }
        }
    }
}

proof fn lemma_suiting_pins(
    module: ModuleView,
    ranges: Seq<Option<(u128, u128)>>,
    shape: Memory,
    reads: Seq<MemoryReadPort>,
    writes: Seq<MemoryWritePort>,
    target: TargetMemory,
)
    requires
        target.read_ports@.len() == reads.len(),
        target.write_ports@.len() == writes.len(),
        forall|i: int|
            0 <= i < reads.len() ==> read_suits(
                module,
                ranges,
                shape,
                #[trigger] reads[i],
                target.read_ports@[i],
            ),
        forall|i: int|
            0 <= i < writes.len() ==> write_suits(
                module,
                ranges,
                shape,
                #[trigger] writes[i],
                target.write_ports@[i],
            ),
    ensures
        pins_numbered(target),
{
    assert forall|i: int| 0 <= i < target.read_ports@.len() implies (
    #[trigger] target.read_ports@[i]).address_pins@.len() <= u32::MAX
        && target.read_ports@[i].data_pins@.len() <= u32::MAX by {
        assert(read_suits(module, ranges, shape, reads[i], target.read_ports@[i]));
    }
    assert forall|i: int| 0 <= i < target.write_ports@.len() implies (
    #[trigger] target.write_ports@[i]).address_pins@.len() <= u32::MAX
        && target.write_ports@[i].data_pins@.len() <= u32::MAX
        && target.write_ports@[i].mask_pins@.len() <= u32::MAX by {
        assert(write_suits(module, ranges, shape, writes[i], target.write_ports@[i]));
    }
}

/// Suiting cells have a number for every bit of their pins.
pub proof fn suiting_pins_are_numbered(
    module: ModuleView,
    facts: Seq<Option<Seq<BitVal>>>,
    ranges: Seq<Option<(u128, u128)>>,
    memory: MemoryId,
    target: TargetMemory,
)
    requires
        suits(module, facts, ranges, memory, target),
    ensures
        pins_numbered(target),
{
    let reads = reads_of(module.memory_reads, memory, module.memory_reads.len());
    let writes = writes_of(module.memory_writes, memory, module.memory_writes.len());
    lemma_suiting_pins(
        module,
        ranges,
        module.memories[memory.raw as int],
        reads,
        writes,
        target,
    );
}

fn ports_match(
    module: &WordModule,
    ranges: &Ranges,
    shape: &Memory,
    reads: &Vec<MemoryReadPort>,
    writes: &Vec<MemoryWritePort>,
    target: &TargetMemory,
) -> (matching: bool)
    requires
        target.read_ports@.len() == reads@.len(),
        target.write_ports@.len() == writes@.len(),
    ensures
        matching == ((forall|i: int|
            0 <= i < reads@.len() ==> read_suits(
                module@,
                ranges@,
                *shape,
                #[trigger] reads@[i],
                target.read_ports@[i],
            )) && (forall|i: int|
            0 <= i < writes@.len() ==> write_suits(
                module@,
                ranges@,
                *shape,
                #[trigger] writes@[i],
                target.write_ports@[i],
            ))),
{
    let mut i: usize = 0;
    while i < reads.len()
        invariant
            target.read_ports@.len() == reads@.len(),
            i <= reads@.len(),
            forall|k: int|
                0 <= k < i ==> read_suits(
                    module@,
                    ranges@,
                    *shape,
                    #[trigger] reads@[k],
                    target.read_ports@[k],
                ),
        decreases reads.len() - i,
    {
        if !read_port_matches(module, ranges, shape, &reads[i], &target.read_ports[i]) {
            assert(!read_suits(
                module@,
                ranges@,
                *shape,
                reads@[i as int],
                target.read_ports@[i as int],
            ));
            return false;
        }
        i += 1;
    }
    let mut j: usize = 0;
    while j < writes.len()
        invariant
            target.write_ports@.len() == writes@.len(),
            j <= writes@.len(),
            forall|k: int|
                0 <= k < j ==> write_suits(
                    module@,
                    ranges@,
                    *shape,
                    #[trigger] writes@[k],
                    target.write_ports@[k],
                ),
        decreases writes.len() - j,
    {
        if !write_port_matches(module, ranges, shape, &writes[j], &target.write_ports[j]) {
            assert(!write_suits(
                module@,
                ranges@,
                *shape,
                writes@[j as int],
                target.write_ports@[j as int],
            ));
            return false;
        }
        j += 1;
    }
    true
}

/// Whether a cell can stand for a memory.
pub fn memory_macro_is_compatible(
    module: &WordModule,
    facts: &Vec<Option<ConstBits>>,
    ranges: &Ranges,
    memory: MemoryId,
    cell: &TargetCell,
) -> (result: Result<bool, SynthError>)
    requires
        module@.wf(),
    ensures
        result == (match cell.memory {
            None => Ok::<bool, SynthError>(false),
            Some(target) => if memory.raw < module@.memories.len() {
                Ok(suits(module@, facts_view(facts@), ranges@, memory, target))
            } else {
                Err(SynthError::Invariant(Invariant::UnknownMemory))
            },
        }),
{
    let target = match &cell.memory {
        Some(target) => target,
        None => return Ok(false),
    };
    if memory.raw as usize >= module.memories.len() {
        return Err(SynthError::Invariant(Invariant::UnknownMemory));
    }
    let shape = module.memories[memory.raw as usize];
    let reads = collect_reads(&module.memory_reads, memory);
    let writes = collect_writes(&module.memory_writes, memory);
    proof {
        lemma_collected_writes(module@, memory, module@.memory_writes.len());
        assert forall|i: int| 0 <= i < writes@.len() implies ((#[trigger] writes@[i]).enable is Some
            ==> module@.has(writes@[i].enable->0.value)) by {
            assert(module@.write_port_ok(writes@[i]));
        }
    }
    let rom: bool = match target.kind {
        TargetMemoryKind::Rom => true,
        TargetMemoryKind::Ram => false,
    };
    if target.depth != shape.depth || target.word_width != shape.element_type.width
        || target.read_ports.len() != reads.len() || target.write_ports.len() != writes.len() || (
    rom && writes.len() != 0) || !macro_write_clocks_are_supported(module, facts, &writes) {
        return Ok(false);
    }
    if !ports_match(module, ranges, &shape, &reads, &writes, target) {
        return Ok(false);
    }
    proof {
        lemma_suiting_pins(module@, ranges@, shape, reads@, writes@, *target);
    }
    Ok(bindings_are_consistent(module, &reads, &writes, target))
}

/// The cells among the first ones that can stand for a memory.
pub open spec fn suiting_cells(
    module: ModuleView,
    facts: Seq<Option<Seq<BitVal>>>,
    ranges: Seq<Option<(u128, u128)>>,
    memory: MemoryId,
    cells: Seq<TargetCell>,
    count: nat,
) -> Seq<u32>
    decreases count,
{
    if count == 0 {
        seq![]
    } else {
        let before = suiting_cells(module, facts, ranges, memory, cells, (count - 1) as nat);
        let cell = cells[count - 1];
        if cell.usable && cell.memory is Some && suits(
            module,
            facts,
            ranges,
            memory,
            cell.memory->0,
        ) {
            before.push((count - 1) as u32)
        } else {
            before
        }
    }
}

/// The usable cells that can stand for a memory.
pub fn compatible_memory_macros(
    module: &WordModule,
    facts: &Vec<Option<ConstBits>>,
    ranges: &Ranges,
    memory: MemoryId,
    cells: &Vec<TargetCell>,
) -> (result: Result<Vec<u32>, SynthError>)
    requires
        module@.wf(),
    ensures
        match result {
            Ok(found) => found@ == suiting_cells(
                module@,
                facts_view(facts@),
                ranges@,
                memory,
                cells@,
                cells@.len(),
            ),
            Err(error) => (error == SynthError::Invariant(Invariant::UnknownMemory) && memory.raw
                >= module@.memories.len()) || (error == SynthError::Capacity(Resource::Candidates)
                && cells@.len() > u32::MAX),
        },
{
    let mut found: Vec<u32> = Vec::new();
    let mut i: usize = 0;
    while i < cells.len()
        invariant
            module@.wf(),
            i <= cells@.len(),
            found@ == suiting_cells(
                module@,
                facts_view(facts@),
                ranges@,
                memory,
                cells@,
                i as nat,
            ),
        decreases cells.len() - i,
    {
        if cells[i].usable {
            match memory_macro_is_compatible(module, facts, ranges, memory, &cells[i]) {
                Ok(true) => {
                    if i > u32::MAX as usize {
                        return Err(SynthError::Capacity(Resource::Candidates));
                    }
                    found.push(i as u32);
                },
                Ok(false) => {},
                Err(error) => return Err(error),
            }
        }
        i += 1;
    }
    Ok(found)
}

} // verus!
