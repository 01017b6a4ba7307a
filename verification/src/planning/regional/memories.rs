//! Carrying the memories of a region over.

use super::failure::{exhausted, fails, Graph, Place};
use super::following::{
    lemma_covered_blank, lemma_covered_kept, lemma_covered_on, lemma_covered_spends,
    lemma_covered_within, lemma_pending,
    size, turns,
};
use super::interface::{lemma_interface_grows, lemma_memory_signal};
use super::importer::{
    agrees, all_reached, bound_once, memory_ok, path_reached, rows_reached, lemma_agrees_step, lemma_memory_step, lemma_signals_typed, lemma_step_trans, leaf_ok,
    leaves_ok, signals_typed, step, Import, RegionalWordImporter,
};
use super::tracing::{all_imaged, lemma_traced_made, parts_held, rows_suit};
use super::toll::{lemma_covered_keeps, lemma_open, lemma_open_blank, reached_count, toll};
use crate::error::{Invariant, SynthError};
use crate::word::module::{
    Memory, MemoryClock, MemoryReadPort, MemoryReadTiming, MemoryWriteMask, MemoryWritePort,
    ModuleView, Signal, SignalKind, SignalResolution,
};
use crate::word::types::{Enable, MemoryId, SignalId, ValueId};
use vstd::prelude::*;

verus! {

/// The last place of a memory among the first ones of a list.
pub open spec fn last_place(memories: Seq<MemoryId>, memory: MemoryId, count: nat) -> Option<nat>
    decreases count,
{
    if count == 0 {
        None
    } else if memories[count - 1] == memory {
        Some((count - 1) as nat)
    } else {
        last_place(memories, memory, (count - 1) as nat)
    }
}

proof fn lemma_last_place(memories: Seq<MemoryId>, memory: MemoryId, count: nat)
    ensures
        last_place(memories, memory, count) matches Some(place) ==> place < count,
    decreases count,
{
    if count > 0 {
        lemma_last_place(memories, memory, (count - 1) as nat);
    }
}

fn find_place(memories: &Vec<MemoryId>, memory: MemoryId) -> (place: Option<usize>)
    ensures
        match place {
            Some(place) => place < memories@.len() && last_place(memories@, memory, memories@.len())
                == Some(place as nat),
            None => last_place(memories@, memory, memories@.len()) is None,
        },
{
    let mut i: usize = memories.len();
    while i > 0
        invariant
            i <= memories@.len(),
            last_place(memories@, memory, memories@.len()) == last_place(
                memories@,
                memory,
                i as nat,
            ),
        decreases i,
    {
        i -= 1;
        if memories[i].raw == memory.raw {
            return Some(i);
        }
    }
    None
}

pub open spec fn enable_agrees(x: Import, source: Option<Enable>, local: Option<Enable>) -> bool {
    match (source, local) {
        (None, None) => true,
        (Some(source), Some(local)) => agrees(x, source.value, local.value) && local.active_high
            == source.active_high,
        _ => false,
    }
}

pub open spec fn clock_agrees(x: Import, source: MemoryClock, local: MemoryClock) -> bool {
    agrees(x, source.value, local.value) && local.edge == source.edge
}

pub open spec fn timing_agrees(
    x: Import,
    source: MemoryReadTiming,
    local: MemoryReadTiming,
) -> bool {
    match (source, local) {
        (MemoryReadTiming::Asynchronous, MemoryReadTiming::Asynchronous) => true,
        (
            MemoryReadTiming::Synchronous { clock, enable, disabled },
            MemoryReadTiming::Synchronous { clock: c, enable: e, disabled: d },
        ) => clock_agrees(x, clock, c) && enable_agrees(x, enable, e) && d == disabled,
        _ => false,
    }
}

pub open spec fn mask_agrees(
    x: Import,
    source: Option<MemoryWriteMask>,
    local: Option<MemoryWriteMask>,
) -> bool {
    match (source, local) {
        (None, None) => true,
        (Some(source), Some(local)) => agrees(x, source.value, local.value) && local.granularity
            == source.granularity && local.active_high == source.active_high,
        _ => false,
    }
}

/// A local read stands for a read of the source.
pub open spec fn read_agrees(
    x: Import,
    signals: Seq<Option<SignalId>>,
    source: MemoryReadPort,
    local: MemoryReadPort,
    memory: int,
) -> bool {
    &&& local.memory.raw == memory
    &&& agrees(x, source.address, local.address)
    &&& signals[source.data.raw as int] == Some(local.data)
    &&& timing_agrees(x, source.timing, local.timing)
    &&& local.read_during_write == source.read_during_write
    &&& local.source == source.source
}

/// A local write stands for a write of the source.
pub open spec fn write_agrees(
    x: Import,
    source: MemoryWritePort,
    local: MemoryWritePort,
    memory: int,
) -> bool {
    &&& local.memory.raw == memory
    &&& agrees(x, source.address, local.address)
    &&& agrees(x, source.data, local.data)
    &&& clock_agrees(x, source.clock, local.clock)
    &&& enable_agrees(x, source.enable, local.enable)
    &&& mask_agrees(x, source.mask, local.mask)
    &&& local.priority == source.priority
    &&& local.source == source.source
}

/// The places of the first reads that belong to listed memories.
pub open spec fn listed_reads(
    reads: Seq<MemoryReadPort>,
    memories: Seq<MemoryId>,
    count: nat,
) -> Seq<int>
    decreases count,
{
    if count == 0 {
        seq![]
    } else {
        let before = listed_reads(reads, memories, (count - 1) as nat);
        if last_place(memories, reads[count - 1].memory, memories.len()) is Some {
            before.push(count - 1)
        } else {
            before
        }
    }
}

/// The places of the first writes that belong to listed memories.
pub open spec fn listed_writes(
    writes: Seq<MemoryWritePort>,
    memories: Seq<MemoryId>,
    count: nat,
) -> Seq<int>
    decreases count,
{
    if count == 0 {
        seq![]
    } else {
        let before = listed_writes(writes, memories, (count - 1) as nat);
        if last_place(memories, writes[count - 1].memory, memories.len()) is Some {
            before.push(count - 1)
        } else {
            before
        }
    }
}

/// The local signals of signals after new ones were made, in turn, for what the
/// first reads of listed memories read.
pub open spec fn read_signals(
    reads: Seq<MemoryReadPort>,
    memories: Seq<MemoryId>,
    locals: Seq<Option<SignalId>>,
    base: nat,
    count: nat,
) -> Seq<Option<SignalId>>
    decreases count,
{
    if count == 0 {
        locals
    } else {
        let rest = (count - 1) as nat;
        let before = read_signals(reads, memories, locals, base, rest);
        if last_place(memories, reads[count - 1].memory, memories.len()) is Some {
            before.update(
                reads[count - 1].data.raw as int,
                Some(SignalId { raw: (base + listed_reads(reads, memories, rest).len()) as u32 }),
            )
        } else {
            before
        }
    }
}

/// What is read of a listed memory has a local signal.
proof fn lemma_read_signals(
    reads: Seq<MemoryReadPort>,
    memories: Seq<MemoryId>,
    locals: Seq<Option<SignalId>>,
    base: nat,
    count: nat,
    read: int,
)
    requires
        0 <= read < count <= reads.len(),
        last_place(memories, reads[read].memory, memories.len()) is Some,
        forall|i: int| 0 <= i < count ==> (#[trigger] reads[i]).data.raw < locals.len(),
    ensures
        read_signals(reads, memories, locals, base, count).len() == locals.len(),
        read_signals(reads, memories, locals, base, count)[reads[read].data.raw as int] is Some,
    decreases count,
{
    lemma_signals_len(reads, memories, locals, base, count);
    lemma_signals_len(reads, memories, locals, base, (count - 1) as nat);
    assert(reads[count - 1].data.raw < locals.len());
    assert(reads[read].data.raw < locals.len());
    if read < count - 1 {
        lemma_read_signals(reads, memories, locals, base, (count - 1) as nat, read);
    }
}

proof fn lemma_signals_len(
    reads: Seq<MemoryReadPort>,
    memories: Seq<MemoryId>,
    locals: Seq<Option<SignalId>>,
    base: nat,
    count: nat,
)
    requires
        forall|i: int| 0 <= i < count ==> (#[trigger] reads[i]).data.raw < locals.len(),
    ensures
        read_signals(reads, memories, locals, base, count).len() == locals.len(),
    decreases count,
{
    if count > 0 {
        assert(reads[count - 1].data.raw < locals.len());
        lemma_signals_len(reads, memories, locals, base, (count - 1) as nat);
    }
}

/// The local wire of what a memory reads into.
pub open spec fn read_wire(signal: Signal) -> Signal {
    Signal {
        name: None,
        ty: signal.ty,
        kind: SignalKind::Wire,
        source: signal.source,
        preserved: false,
        resolution: SignalResolution::Single,
    }
}

/// A memory that the source does not hold, or without a name.
pub open spec fn memory_unknown(source: ModuleView, memory: MemoryId) -> bool {
    memory.raw >= source.memories.len() || source.memories[memory.raw as int].name.raw
        >= source.names.len()
}

/// A memory that holds no bit.
pub open spec fn memory_empty(source: ModuleView, memory: MemoryId) -> bool {
    &&& !memory_unknown(source, memory)
    &&& source.memories[memory.raw as int].depth == 0
        || source.memories[memory.raw as int].element_type.width == 0
}

/// A listed memory cannot be made.
pub open spec fn unmakable(
    source: ModuleView,
    memories: Seq<MemoryId>,
    error: SynthError,
) -> bool {
    exists|i: int|
        0 <= i < memories.len() && (memory_unknown(source, #[trigger] memories[i]) && error
            == SynthError::Invariant(Invariant::UnknownMemory) || memory_empty(source, memories[i])
            && error == SynthError::Invariant(Invariant::WidthMismatch))
}

pub open spec fn enable_reads(enable: Option<Enable>, value: ValueId) -> bool {
    enable matches Some(held) && held.value == value
}

/// A value that a read of a memory depends on.
pub open spec fn read_takes(read: MemoryReadPort, value: ValueId) -> bool {
    ||| value == read.address
    ||| read.timing matches MemoryReadTiming::Synchronous { clock, enable, disabled } && (value
        == clock.value || enable_reads(enable, value))
}

/// A value that a write of a memory depends on.
pub open spec fn write_takes(write: MemoryWritePort, value: ValueId) -> bool {
    ||| value == write.address
    ||| value == write.data
    ||| value == write.clock.value
    ||| enable_reads(write.enable, value)
    ||| write.mask matches Some(mask) && value == mask.value
}

/// A value that a read or a write of a listed memory depends on.
pub open spec fn ports_take(source: ModuleView, memories: Seq<MemoryId>, value: ValueId) -> bool {
    ||| exists|i: int|
        0 <= i < source.memory_reads.len() && read_takes(
            #[trigger] source.memory_reads[i],
            value,
        ) && last_place(memories, source.memory_reads[i].memory, memories.len()) is Some
    ||| exists|i: int|
        0 <= i < source.memory_writes.len() && write_takes(
            #[trigger] source.memory_writes[i],
            value,
        ) && last_place(memories, source.memory_writes[i].memory, memories.len()) is Some
}

/// A value that a port depends on cannot be carried over.
pub open spec fn port_fails(
    graph: Graph,
    visiting: Seq<bool>,
    memories: Seq<MemoryId>,
    value: ValueId,
    fuel: int,
    error: SynthError,
) -> bool {
    ports_take(graph.source, memories, value) && fails(
        graph,
        visiting,
        Place::Whole(value),
        fuel,
        error,
    )
}

/// Local reads stand for those reads of the source at given places.
pub open spec fn reads_agree(
    x: Import,
    signals: Seq<Option<SignalId>>,
    memories: Seq<MemoryId>,
    places: Seq<int>,
    locals: Seq<MemoryReadPort>,
) -> bool {
    &&& locals.len() == places.len()
    &&& forall|k: int|
        0 <= k < locals.len() ==> read_agrees(
            x,
            signals,
            x.source.memory_reads[places[k]],
            #[trigger] locals[k],
            last_place(
                memories,
                x.source.memory_reads[places[k]].memory,
                memories.len(),
            )->0 as int,
        )
}

pub open spec fn writes_agree(
    x: Import,
    memories: Seq<MemoryId>,
    places: Seq<int>,
    locals: Seq<MemoryWritePort>,
) -> bool {
    &&& locals.len() == places.len()
    &&& forall|k: int|
        0 <= k < locals.len() ==> write_agrees(
            x,
            x.source.memory_writes[places[k]],
            #[trigger] locals[k],
            last_place(
                memories,
                x.source.memory_writes[places[k]].memory,
                memories.len(),
            )->0 as int,
        )
}

/// A local memory has the shape of a memory of the source.
pub open spec fn memories_agree(
    source: ModuleView,
    memories: Seq<MemoryId>,
    locals: Seq<Memory>,
) -> bool {
    &&& locals.len() == memories.len()
    &&& forall|i: int|
        0 <= i < locals.len() ==> memories[i].raw < source.memories.len() && (
        #[trigger] locals[i]).element_type
            == source.memories[memories[i].raw as int].element_type && locals[i].depth
            == source.memories[memories[i].raw as int].depth && locals[i].source
            == source.memories[memories[i].raw as int].source
}

proof fn lemma_read_step(
    x: Import,
    y: Import,
    signals: Seq<Option<SignalId>>,
    source: MemoryReadPort,
    local: MemoryReadPort,
    memory: int,
)
    requires
        step(x, y),
        leaves_ok(x),
        read_agrees(x, signals, source, local, memory),
    ensures
        read_agrees(y, signals, source, local, memory),
{
    lemma_agrees_step(x, y, source.address, local.address);
    match (source.timing, local.timing) {
        (
            MemoryReadTiming::Synchronous { clock, enable, disabled },
            MemoryReadTiming::Synchronous { clock: c, enable: e, disabled: d },
        ) => {
            lemma_agrees_step(x, y, clock.value, c.value);
            if enable is Some {
                lemma_agrees_step(x, y, enable->0.value, e->0.value);
            }
        },
        _ => {},
    }
}

proof fn lemma_write_step(
    x: Import,
    y: Import,
    source: MemoryWritePort,
    local: MemoryWritePort,
    memory: int,
)
    requires
        step(x, y),
        leaves_ok(x),
        write_agrees(x, source, local, memory),
    ensures
        write_agrees(y, source, local, memory),
{
    lemma_agrees_step(x, y, source.address, local.address);
    lemma_agrees_step(x, y, source.data, local.data);
    lemma_agrees_step(x, y, source.clock.value, local.clock.value);
    if source.enable is Some {
        lemma_agrees_step(x, y, source.enable->0.value, local.enable->0.value);
    }
    if source.mask is Some {
        lemma_agrees_step(x, y, source.mask->0.value, local.mask->0.value);
    }
}

pub proof fn lemma_reads_step(
    x: Import,
    y: Import,
    signals: Seq<Option<SignalId>>,
    memories: Seq<MemoryId>,
    places: Seq<int>,
    locals: Seq<MemoryReadPort>,
)
    requires
        step(x, y),
        leaves_ok(x),
        reads_agree(x, signals, memories, places, locals),
    ensures
        reads_agree(y, signals, memories, places, locals),
{
    assert forall|k: int| 0 <= k < locals.len() implies read_agrees(
        y,
        signals,
        y.source.memory_reads[places[k]],
        #[trigger] locals[k],
        last_place(memories, y.source.memory_reads[places[k]].memory, memories.len())->0 as int,
    ) by {
        let read = x.source.memory_reads[places[k]];
        lemma_read_step(
            x,
            y,
            signals,
            read,
            locals[k],
            last_place(memories, read.memory, memories.len())->0 as int,
        );
    }
}

pub proof fn lemma_writes_step(
    x: Import,
    y: Import,
    memories: Seq<MemoryId>,
    places: Seq<int>,
    locals: Seq<MemoryWritePort>,
)
    requires
        step(x, y),
        leaves_ok(x),
        writes_agree(x, memories, places, locals),
    ensures
        writes_agree(y, memories, places, locals),
{
    assert forall|k: int| 0 <= k < locals.len() implies write_agrees(
        y,
        y.source.memory_writes[places[k]],
        #[trigger] locals[k],
        last_place(memories, y.source.memory_writes[places[k]].memory, memories.len())->0 as int,
    ) by {
        let write = x.source.memory_writes[places[k]];
        lemma_write_step(
            x,
            y,
            write,
            locals[k],
            last_place(memories, write.memory, memories.len())->0 as int,
        );
    }
}

/// Everything but the resources of the local module and the signals of memories
/// stays.
pub open spec fn only_resources(before: &RegionalWordImporter, after: &RegionalWordImporter) -> bool {
    &&& after.source == before.source
    &&& after.drivers == before.drivers
    &&& after.operation_regions == before.operation_regions
    &&& after.region == before.region
    &&& after.known == before.known
    &&& after.cut == before.cut
    &&& after.wanted == before.wanted
    &&& after.visiting@ == before.visiting@
    &&& after.import_path@ == before.import_path@
    &&& after.source_to_local@ == before.source_to_local@
    &&& after.cache@ == before.cache@
    &&& after.leaves@ == before.leaves@
    &&& after.boundary_port_signals@ == before.boundary_port_signals@
    &&& after.operation_sources@ == before.operation_sources@
    &&& after.boundary_bindings@ == before.boundary_bindings@
    &&& after.order == before.order
    &&& after.acyclic == before.acyclic
    &&& after.memory_signals@.len() == before.memory_signals@.len()
    &&& forall|s: int|
        0 <= s < before.memory_signals@.len() && before.memory_signals@[s] is Some ==> (
        #[trigger] after.memory_signals@[s]) is Some
}

pub proof fn lemma_resources_added(before: &RegionalWordImporter, after: &RegionalWordImporter)
    requires
        before.inv(),
        only_resources(before, after),
        before.module@.widens_to(after.module@),
        after.module@.operations.len() == before.module@.operations.len(),
        after.module@.wf(),
        after.memory_signals@ == before.memory_signals@ || signals_typed(
            after.source@,
            after.module@,
            after.memory_signals@,
        ),
        after.memory_signals@ == before.memory_signals@ || before.boundary_bindings@.len() == 0
            && before.operation_sources@.len() == 0 && before.import_path@.len() == 0 && forall|v: ValueId| !(#[trigger] before.settled(v)),
        after.interface().sound() || (after.module@.ports == before.module@.ports
            && after.module@.connects == before.module@.connects && after.memory_signals@
            == before.memory_signals@),
    ensures
        after.inv(),
        step(before.x(), after.x()),
{
    if !after.interface().sound() {
        lemma_interface_grows(before.interface(), after.interface());
    }
    assert(all_reached(after.graph(), after.source_to_local@) && path_reached(
        after.graph(),
        after.import_path@,
    ) && rows_reached(after.graph(), after.operation_sources@) && bound_once(
        after.graph(),
        after.source_to_local@,
        after.visiting@,
        after.boundary_bindings@,
    ) && after.traced()) by {
        if after.memory_signals@ == before.memory_signals@ {
            assert(after.graph() == before.graph());
            lemma_traced_made(before, after);
        } else {
            reveal(rows_suit);
            reveal(all_imaged);
            reveal(parts_held);
            reveal(all_reached);
            reveal(bound_once);
            reveal(path_reached);
            reveal(rows_reached);
            assert forall|v: int| 0 <= v < after.source_to_local@.len() implies (
            #[trigger] after.source_to_local@[v]) is None by {
                reveal(memory_ok);
                assert(!before.settled(ValueId { raw: v as u32 }));
            }
            assert(after.source_to_local@.len() == after.source@.values.len()) by {
                reveal(memory_ok);
            }
            assert(all_imaged(
                after.graph(),
                after.source_to_local@,
                after.module@,
                after.operation_sources@,
            ));
            assert(parts_held(after.graph(), after.source_to_local@, after.visiting@));
            assert(rows_suit(after.source@, after.module@, after.operation_sources@));
        }
    }
    let x = before.x();
    let y = after.x();
    assert(step(x, y));
    assert forall|i: int| 0 <= i < y.leaves.len() implies #[trigger] leaf_ok(y, i) by {
        assert(leaf_ok(x, i));
        let local = x.leaves[i].1;
        assert(y.module.values[local.raw as int] == x.module.values[local.raw as int]);
    }
    lemma_memory_step(x, y, before.source_to_local@, before.cache@);
    lemma_signals_typed(x.source, x.module, y.module, before.boundary_port_signals@);
    if after.memory_signals@ == before.memory_signals@ {
        lemma_signals_typed(x.source, x.module, y.module, before.memory_signals@);
    }
    assert forall|i: int| 0 <= i < after.leaves@.len() implies after.border(
        (#[trigger] after.leaves@[i]).0,
    ) by {
        assert(leaf_ok(x, i));
        assert(before.border(before.leaves@[i].0));
        let value = before.leaves@[i].0;
        assert(before.source@.value_ok(value.raw as int));
    }
}

/// How many identifiers memories take at most, apart from what their ports take.
pub open spec fn memory_cost(source: ModuleView, memories: Seq<MemoryId>) -> nat {
    2 * memories.len() + source.memory_reads.len()
}

impl<'a> RegionalWordImporter<'a> {
    /// What dependencies are followed in once memories have local signals.
    pub open spec fn with_memories(&self, memories: Seq<MemoryId>) -> Graph {
        Graph {
            memory_signals: read_signals(
                self.source@.memory_reads,
                memories,
                self.memory_signals@,
                self.module@.signals.len(),
                self.source@.memory_reads.len(),
            ),
            ..self.graph()
        }
    }

    fn import_enable(
        &mut self,
        enable: Option<Enable>,
        fuel: u128,
        Ghost(wanted): Ghost<Set<ValueId>>,
    ) -> (result: Result<Option<Enable>, SynthError>)
        requires
            old(self).inv(),
            old(self).covered(wanted),
            enable is Some ==> wanted.contains(enable->0.value),
        ensures
            result is Ok ==> final(self).covered(wanted),
            old(self).spends(final(self), 0),
            old(self).keeps(final(self)),
            result matches Ok(local) ==> old(self).went_on(final(self)) && enable_agrees(
                final(self).x(),
                enable,
                local,
            ),
            result matches Err(error) ==> enable is Some && old(self).whole_stops(
                final(self),
                enable->0.value,
                fuel as int,
                error,
            ),
    {
        let ghost start = *self;
        proof {
            if enable is Some {
                lemma_covered_within(self, enable->0.value, wanted);
            }
        }
        match enable {
            None => Ok(None),
            Some(held) => match self.import(held.value, fuel) {
                Ok(value) => {
                    proof {
                        lemma_covered_spends(&start, self, held.value, wanted);
                        lemma_covered_keeps(&start, self, held.value, wanted);
                        lemma_covered_on(&start, self, held.value, value, wanted);
                    }
                    Ok(Some(Enable { value, active_high: held.active_high }))
                },
                Err(error) => {
                    proof {
                        lemma_covered_spends(&start, self, held.value, wanted);
                        lemma_covered_keeps(&start, self, held.value, wanted);
                    }
                    Err(error)
                },
            },
        }
    }

    /// A read of a memory.
    fn import_read(
        &mut self,
        read: &MemoryReadPort,
        memory: u32,
        fuel: u128,
        Ghost(wanted): Ghost<Set<ValueId>>,
    ) -> (result: Result<MemoryReadPort, SynthError>)
        requires
            old(self).inv(),
            old(self).covered(wanted),
            forall|value: ValueId| #[trigger] read_takes(*read, value) ==> wanted.contains(value),
            read.data.raw < old(self).source@.signals.len(),
        ensures
            result is Ok ==> final(self).covered(wanted),
            old(self).spends(final(self), 0),
            old(self).keeps(final(self)),
            result matches Ok(local) ==> old(self).went_on(final(self)) && read_agrees(
                final(self).x(),
                final(self).memory_signals@,
                *read,
                local,
                memory as int,
            ),
            result matches Err(error) ==> if old(self).memory_signals@[read.data.raw as int] is None {
                error == SynthError::Invariant(Invariant::UnknownSignal)
            } else {
                exists|value: ValueId| #[trigger]
                    read_takes(*read, value) && old(self).whole_stops(
                        final(self),
                        value,
                        fuel as int,
                        error,
                    )
            },
    {
        let ghost start = *self;
        let data = match self.memory_signals[read.data.raw as usize] {
            Some(data) => data,
            None => return Err(SynthError::Invariant(Invariant::UnknownSignal)),
        };
        let timing = match read.timing {
            MemoryReadTiming::Asynchronous => MemoryReadTiming::Asynchronous,
            MemoryReadTiming::Synchronous { clock, enable, disabled } => {
                let ghost before1 = *self;
                proof {
                    assert(read_takes(*read, clock.value));
                    lemma_covered_within(self, clock.value, wanted);
                }
                let value = match self.import(clock.value, fuel) {
                    Ok(value) => {
                        proof {
                            assert(read_takes(*read, clock.value));
                            assert(read_takes(*read, clock.value));
                            lemma_covered_spends(&before1, self, clock.value, wanted);
                            lemma_covered_keeps(&before1, self, clock.value, wanted);
                            lemma_covered_on(&before1, self, clock.value, value, wanted);
                        }
                        value
                    },
                    Err(error) => {
                        proof {
                            assert(read_takes(*read, clock.value));
                            lemma_covered_spends(&before1, self, clock.value, wanted);
                            lemma_covered_keeps(&before1, self, clock.value, wanted);
                        }
                        assert(read_takes(*read, clock.value));
                        return Err(error);
                    },
                };
                let ghost first = *self;
                proof {
                    if enable is Some {
                        assert(read_takes(*read, enable->0.value));
                    }
                }
                let held = match self.import_enable(enable, fuel, Ghost(wanted)) {
                    Ok(held) => held,
                    Err(error) => {
                        assert(read_takes(*read, enable->0.value));
                        return Err(error);
                    },
                };
                proof {
                    lemma_step_trans(start.x(), first.x(), self.x());
                    lemma_agrees_step(first.x(), self.x(), clock.value, value);
                }
                MemoryReadTiming::Synchronous {
                    clock: MemoryClock { value, edge: clock.edge },
                    enable: held,
                    disabled,
                }
            },
        };
        let ghost middle = *self;
        let ghost before2 = *self;
        proof {
            assert(read_takes(*read, read.address));
            lemma_covered_within(self, read.address, wanted);
        }
        let address = match self.import(read.address, fuel) {
            Ok(address) => {
                proof {
                    assert(read_takes(*read, read.address));
                    assert(read_takes(*read, read.address));
                    lemma_covered_spends(&before2, self, read.address, wanted);
                    lemma_covered_keeps(&before2, self, read.address, wanted);
                    lemma_covered_on(&before2, self, read.address, address, wanted);
                }
                address
            },
            Err(error) => {
                proof {
                    assert(read_takes(*read, read.address));
                    lemma_covered_spends(&before2, self, read.address, wanted);
                    lemma_covered_keeps(&before2, self, read.address, wanted);
                }
                assert(read_takes(*read, read.address));
                return Err(error);
            },
        };
        let local = MemoryReadPort {
            memory: MemoryId { raw: memory },
            address,
            data,
            timing,
            read_during_write: read.read_during_write,
            source: read.source,
        };
        proof {
            lemma_step_trans(start.x(), middle.x(), self.x());
            match (read.timing, timing) {
                (
                    MemoryReadTiming::Synchronous { clock, enable, disabled },
                    MemoryReadTiming::Synchronous { clock: c, enable: e, disabled: d },
                ) => {
                    lemma_agrees_step(middle.x(), self.x(), clock.value, c.value);
                    if enable is Some {
                        lemma_agrees_step(middle.x(), self.x(), enable->0.value, e->0.value);
                    }
                },
                _ => {},
            }
        }
        Ok(local)
    }

    /// A write of a memory.
    #[verifier::rlimit(30)]
    fn import_write(
        &mut self,
        write: &MemoryWritePort,
        memory: u32,
        fuel: u128,
        Ghost(wanted): Ghost<Set<ValueId>>,
    ) -> (result: Result<MemoryWritePort, SynthError>)
        requires
            old(self).inv(),
            old(self).covered(wanted),
            forall|value: ValueId| #[trigger] write_takes(*write, value) ==> wanted.contains(value),
        ensures
            result is Ok ==> final(self).covered(wanted),
            old(self).spends(final(self), 0),
            old(self).keeps(final(self)),
            result matches Ok(local) ==> old(self).went_on(final(self)) && write_agrees(
                final(self).x(),
                *write,
                local,
                memory as int,
            ),
            result matches Err(error) ==> exists|value: ValueId| #[trigger]
                write_takes(*write, value) && old(self).whole_stops(
                    final(self),
                    value,
                    fuel as int,
                    error,
                ),
    {
        let ghost start = *self;
        let ghost before1 = *self;
        proof {
            assert(write_takes(*write, write.address));
            lemma_covered_within(self, write.address, wanted);
        }
        let address = match self.import(write.address, fuel) {
            Ok(address) => {
                proof {
                    assert(write_takes(*write, write.address));
                    assert(write_takes(*write, write.address));
                    lemma_covered_spends(&before1, self, write.address, wanted);
                    lemma_covered_keeps(&before1, self, write.address, wanted);
                    lemma_covered_on(&before1, self, write.address, address, wanted);
                }
                address
            },
            Err(error) => {
                proof {
                    assert(write_takes(*write, write.address));
                    lemma_covered_spends(&before1, self, write.address, wanted);
                    lemma_covered_keeps(&before1, self, write.address, wanted);
                }
                assert(write_takes(*write, write.address));
                return Err(error);
            },
        };
        let ghost first = *self;
        let ghost before2 = *self;
        proof {
            assert(write_takes(*write, write.data));
            lemma_covered_within(self, write.data, wanted);
        }
        let data = match self.import(write.data, fuel) {
            Ok(data) => {
                proof {
                    assert(write_takes(*write, write.data));
                    assert(write_takes(*write, write.data));
                    lemma_covered_spends(&before2, self, write.data, wanted);
                    lemma_covered_keeps(&before2, self, write.data, wanted);
                    lemma_covered_on(&before2, self, write.data, data, wanted);
                }
                data
            },
            Err(error) => {
                proof {
                    assert(write_takes(*write, write.data));
                    lemma_covered_spends(&before2, self, write.data, wanted);
                    lemma_covered_keeps(&before2, self, write.data, wanted);
                }
                assert(write_takes(*write, write.data));
                return Err(error);
            },
        };
        let ghost second = *self;
        proof {
            lemma_step_trans(start.x(), first.x(), second.x());
            lemma_agrees_step(first.x(), second.x(), write.address, address);
        }
        let ghost before3 = *self;
        proof {
            assert(write_takes(*write, write.clock.value));
            lemma_covered_within(self, write.clock.value, wanted);
        }
        let clock = match self.import(write.clock.value, fuel) {
            Ok(clock) => {
                proof {
                    assert(write_takes(*write, write.clock.value));
                    assert(write_takes(*write, write.clock.value));
                    lemma_covered_spends(&before3, self, write.clock.value, wanted);
                    lemma_covered_keeps(&before3, self, write.clock.value, wanted);
                    lemma_covered_on(&before3, self, write.clock.value, clock, wanted);
                }
                clock
            },
            Err(error) => {
                proof {
                    assert(write_takes(*write, write.clock.value));
                    lemma_covered_spends(&before3, self, write.clock.value, wanted);
                    lemma_covered_keeps(&before3, self, write.clock.value, wanted);
                }
                assert(write_takes(*write, write.clock.value));
                return Err(error);
            },
        };
        let ghost third = *self;
        proof {
            lemma_step_trans(start.x(), second.x(), third.x());
            lemma_agrees_step(second.x(), third.x(), write.address, address);
            lemma_agrees_step(second.x(), third.x(), write.data, data);
        }
        proof {
            if write.enable is Some {
                assert(write_takes(*write, write.enable->0.value));
            }
        }
        let enable = match self.import_enable(write.enable, fuel, Ghost(wanted)) {
            Ok(enable) => enable,
            Err(error) => {
                assert(write_takes(*write, write.enable->0.value));
                return Err(error);
            },
        };
        let ghost fourth = *self;
        proof {
            lemma_step_trans(start.x(), third.x(), fourth.x());
            lemma_agrees_step(third.x(), fourth.x(), write.address, address);
            lemma_agrees_step(third.x(), fourth.x(), write.data, data);
            lemma_agrees_step(third.x(), fourth.x(), write.clock.value, clock);
        }
        let mask: Option<MemoryWriteMask> = match write.mask {
            None => None,
            Some(mask) => {
                let ghost before4 = *self;
                proof {
                    assert(write_takes(*write, mask.value));
                    lemma_covered_within(self, mask.value, wanted);
                }
                let value = match self.import(mask.value, fuel) {
                    Ok(value) => {
                        proof {
                            assert(write_takes(*write, mask.value));
                            assert(write_takes(*write, mask.value));
                            lemma_covered_spends(&before4, self, mask.value, wanted);
                            lemma_covered_keeps(&before4, self, mask.value, wanted);
                            lemma_covered_on(&before4, self, mask.value, value, wanted);
                        }
                        value
                    },
                    Err(error) => {
                        proof {
                            assert(write_takes(*write, mask.value));
                            lemma_covered_spends(&before4, self, mask.value, wanted);
                            lemma_covered_keeps(&before4, self, mask.value, wanted);
                        }
                        assert(write_takes(*write, mask.value));
                        return Err(error);
                    },
                };
                proof {
                    lemma_step_trans(start.x(), fourth.x(), self.x());
                    lemma_agrees_step(fourth.x(), self.x(), write.address, address);
                    lemma_agrees_step(fourth.x(), self.x(), write.data, data);
                    lemma_agrees_step(fourth.x(), self.x(), write.clock.value, clock);
                    if write.enable is Some {
                        lemma_agrees_step(
                            fourth.x(),
                            self.x(),
                            write.enable->0.value,
                            enable->0.value,
                        );
                    }
                }
                Some(
                    MemoryWriteMask {
                        value,
                        granularity: mask.granularity,
                        active_high: mask.active_high,
                    },
                )
            },
        };
        Ok(
            MemoryWritePort {
                memory: MemoryId { raw: memory },
                address,
                data,
                clock: MemoryClock { value: clock, edge: write.clock.edge },
                enable,
                mask,
                priority: write.priority,
                source: write.source,
            },
        )
    }

    /// Local memories for memories of the source.
    fn add_memories(&mut self, memories: &Vec<MemoryId>) -> (result: Result<(), SynthError>)
        requires
            old(self).inv(),
            old(self).module@.memories.len() == 0,
        ensures
            result is Ok ==> {
                &&& final(self).inv()
                &&& step(old(self).x(), final(self).x())
                &&& only_resources(old(self), final(self))
                &&& final(self).memory_signals@ == old(self).memory_signals@
                &&& final(self).module@.signals == old(self).module@.signals
                &&& final(self).module@.memory_reads == old(self).module@.memory_reads
                &&& final(self).module@.memory_writes == old(self).module@.memory_writes
                &&& memories_agree(
                    final(self).source@,
                    memories@,
                    final(self).module@.memories,
                )
                &&& forall|i: int|
                    0 <= i < memories@.len() ==> !memory_unknown(
                        old(self).source@,
                        #[trigger] memories@[i],
                    ) && !memory_empty(old(self).source@, memories@[i])
            },
            size(final(self).module@) <= size(old(self).module@) + 2 * memories@.len(),
            result matches Err(error) ==> exhausted(final(self).module@, error) || unmakable(
                old(self).source@,
                memories@,
                error,
            ),
    {
        let ghost start = *self;
        let mut i: usize = 0;
        while i < memories.len()
            invariant
                size(self.module@) <= size(start.module@) + 2 * i,
                start == *old(self),
                start.inv(),
                self.inv(),
                forall|k: int|
                    0 <= k < i ==> !memory_unknown(start.source@, #[trigger] memories@[k])
                        && !memory_empty(start.source@, memories@[k]),
                step(start.x(), self.x()),
                only_resources(&start, self),
                self.memory_signals@ == start.memory_signals@,
                self.module@.signals == start.module@.signals,
                self.module@.memory_reads == start.module@.memory_reads,
                self.module@.memory_writes == start.module@.memory_writes,
                i <= memories@.len(),
                memories_agree(
                    self.source@,
                    memories@.take(i as int),
                    self.module@.memories,
                ),
            decreases memories.len() - i,
        {
            let ghost before = *self;
            let memory = memories[i];
            assert(memory == memories@[i as int]);
            if memory.raw as usize >= self.source.memories.len() {
                return Err(SynthError::Invariant(Invariant::UnknownMemory));
            }
            let shape = self.source.memories[memory.raw as usize];
            if shape.name.raw as usize >= self.source.names.len() {
                return Err(SynthError::Invariant(Invariant::UnknownMemory));
            }
            let name = self.source.names[shape.name.raw as usize].clone();
            match self.module.add_memory(name, shape.element_type, shape.depth, shape.source) {
                Ok(_) => {},
                Err(error) => return Err(error),
            }
            proof {
                lemma_resources_added(&before, self);
                lemma_step_trans(start.x(), before.x(), self.x());
                let row = memories@.take(i as int);
                let more = memories@.take(i + 1);
                assert forall|k: int| 0 <= k < self.module@.memories.len() implies more[k].raw
                    < self.source@.memories.len() && (
                #[trigger] self.module@.memories[k]).element_type
                    == self.source@.memories[more[k].raw as int].element_type
                    && self.module@.memories[k].depth
                    == self.source@.memories[more[k].raw as int].depth
                    && self.module@.memories[k].source
                    == self.source@.memories[more[k].raw as int].source by {
                    if k < before.module@.memories.len() {
                        assert(more[k] == row[k]);
                        assert(self.module@.memories[k] == before.module@.memories[k]);
                    }
                }
            }
            i += 1;
        }
        assert(memories@.take(i as int) =~= memories@);
        Ok(())
    }

    /// Local signals for what is read of listed memories.
    fn add_memory_signals(&mut self, memories: &Vec<MemoryId>) -> (result: Result<(), SynthError>)
        requires
            old(self).inv(),
            old(self).leaves@.len() == 0,
            old(self).boundary_bindings@.len() == 0,
            old(self).operation_sources@.len() == 0,
            old(self).import_path@.len() == 0,
            forall|v: ValueId| !(#[trigger] old(self).settled(v)),
        ensures
            result is Ok ==> {
                &&& final(self).inv()
                &&& step(old(self).x(), final(self).x())
                &&& only_resources(old(self), final(self))
                &&& final(self).module@.memories == old(self).module@.memories
                &&& final(self).module@.memory_reads == old(self).module@.memory_reads
                &&& final(self).module@.memory_writes == old(self).module@.memory_writes
            },
            result is Ok ==> {
                let source = old(self).source@;
                let reads = source.memory_reads;
                let base = old(self).module@.signals.len();
                let places = listed_reads(reads, memories@, reads.len());
                &&& final(self).memory_signals@ == read_signals(
                    reads,
                    memories@,
                    old(self).memory_signals@,
                    base,
                    reads.len(),
                )
                &&& final(self).module@.signals.len() == base + places.len()
                &&& forall|k: int|
                    0 <= k < places.len() ==> final(self).module@.signals[base + k] == read_wire(
                        source.signals[reads[#[trigger] places[k]].data.raw as int],
                    )
            },
            size(final(self).module@) <= size(old(self).module@) + old(
                self,
            ).source@.memory_reads.len(),
            result matches Err(error) ==> exhausted(final(self).module@, error),
    {
        let ghost start = *self;
        let ghost reads = self.source@.memory_reads;
        let ghost base = self.module@.signals.len();
        let mut i: usize = 0;
        while i < self.source.memory_reads.len()
            invariant
                size(self.module@) <= size(start.module@) + i,
                start == *old(self),
                start.inv(),
                self.inv(),
                reads == start.source@.memory_reads,
                base == start.module@.signals.len(),
                self.memory_signals@ == read_signals(
                    reads,
                    memories@,
                    start.memory_signals@,
                    base,
                    i as nat,
                ),
                self.module@.signals.len() == base + listed_reads(reads, memories@, i as nat).len(),
                forall|k: int|
                    0 <= k < listed_reads(reads, memories@, i as nat).len()
                        ==> self.module@.signals[base + k] == read_wire(
                        start.source@.signals[reads[#[trigger] listed_reads(
                            reads,
                            memories@,
                            i as nat,
                        )[k]].data.raw as int],
                    ),
                step(start.x(), self.x()),
                start.leaves@.len() == 0,
                start.boundary_bindings@.len() == 0,
                start.operation_sources@.len() == 0,
                start.import_path@.len() == 0,
                forall|v: ValueId| !(#[trigger] start.settled(v)),
                only_resources(&start, self),
                self.module@.memories == start.module@.memories,
                self.module@.memory_reads == start.module@.memory_reads,
                self.module@.memory_writes == start.module@.memory_writes,
                i <= self.source@.memory_reads.len(),
            decreases self.source.memory_reads.len() - i,
        {
            let ghost before = *self;
            let read = self.source.memory_reads[i];
            assert(self.source@.read_port_ok(self.source@.memory_reads[i as int]));
            if find_place(memories, read.memory).is_some() {
                let signal = self.source.signals[read.data.raw as usize];
                let local = match self.module.add_generated_wire(signal.ty, signal.source) {
                    Ok(local) => local,
                    Err(error) => return Err(error),
                };
                self.memory_signals.set(read.data.raw as usize, Some(local));
                proof {
                    assert(signals_typed(self.source@, self.module@, self.memory_signals@)) by {
                        lemma_signals_typed(
                            self.source@,
                            before.module@,
                            self.module@,
                            before.memory_signals@,
                        );
                        reveal(signals_typed);
                        assert forall|s: int|
                            0 <= s < self.memory_signals@.len() && (
                            #[trigger] self.memory_signals@[s]) is Some implies self.memory_signals@[s]->0.raw
                            < self.module@.signals.len()
                            && self.module@.signals[self.memory_signals@[s]->0.raw as int].ty
                            == self.source@.signals[s].ty by {
                            if s != read.data.raw {
                                assert(self.memory_signals@[s] == before.memory_signals@[s]);
                            }
                        }
                    }
                    let row = listed_reads(reads, memories@, i as nat);
                    let more = listed_reads(reads, memories@, (i + 1) as nat);
                    assert(more == row.push(i as int));
                    assert forall|k: int| 0 <= k < more.len() implies self.module@.signals[base + k]
                        == read_wire(
                        start.source@.signals[reads[#[trigger] more[k]].data.raw as int],
                    ) by {
                        if k < row.len() {
                            assert(more[k] == row[k]);
                            assert(self.module@.signals[base + k] == before.module@.signals[base
                                + k]);
                        }
                    }
                    assert(forall|v: ValueId| #[trigger] before.settled(v) == start.settled(v));
                    lemma_memory_signal(
                        before.interface(),
                        self.interface(),
                        read.data.raw as int,
                        self.memory_signals@[read.data.raw as int]->0,
                    );
                    lemma_resources_added(&before, self);
                    lemma_step_trans(start.x(), before.x(), self.x());
                }
            }
            i += 1;
        }
        Ok(())
    }

    /// Carries memories over with all their reads and writes.
    #[verifier::rlimit(60)]
    pub fn import_memories(
        &mut self,
        memories: &Vec<MemoryId>,
        fuel: u128,
        Ghost(wanted): Ghost<Set<ValueId>>,
    ) -> (result: Result<(), SynthError>)
        requires
            old(self).inv(),
            old(self).blank(),
            old(self).wanted@ == wanted,
            forall|value: ValueId| #[trigger]
                ports_take(old(self).source@, memories@, value) ==> wanted.contains(value),
            memories@.len() <= u32::MAX,
            old(self).module@.memories.len() == 0,
            old(self).module@.memory_reads.len() == 0,
            old(self).module@.memory_writes.len() == 0,
        ensures
            result is Ok ==> final(self).covered(wanted),
            turns(old(self).with_memories(memories@)) || size(final(self).module@) <= old(
                self,
            ).potential() + memory_cost(old(self).source@, memories@),
            result is Ok ==> turns(old(self).with_memories(memories@)) || final(self).potential()
                <= old(self).potential() + memory_cost(old(self).source@, memories@),
            toll(old(self).with_memories(memories@)) matches Some(limit) ==> size(
                final(self).module@,
            ) <= size(old(self).module@) + memory_cost(old(self).source@, memories@) + limit
                * reached_count(old(self).with_memories(memories@)),
            result is Ok && toll(old(self).with_memories(memories@)) is Some ==> final(self).volume()
                <= size(old(self).module@) + memory_cost(old(self).source@, memories@) + toll(
                old(self).with_memories(memories@),
            )->0 * reached_count(old(self).with_memories(memories@)),
            result is Ok ==> {
                let source = final(self).source@;
                &&& final(self).inv()
                &&& step(old(self).x(), final(self).x())
                &&& final(self).source == old(self).source
                &&& final(self).known == old(self).known
                &&& final(self).operation_regions == old(self).operation_regions
                &&& final(self).region == old(self).region
                &&& final(self).cut == old(self).cut
                &&& final(self).graph() == old(self).with_memories(memories@)
                &&& final(self).visiting@ == old(self).visiting@
                &&& memories_agree(source, memories@, final(self).module@.memories)
                &&& reads_agree(
                    final(self).x(),
                    final(self).memory_signals@,
                    memories@,
                    listed_reads(source.memory_reads, memories@, source.memory_reads.len()),
                    final(self).module@.memory_reads,
                )
                &&& writes_agree(
                    final(self).x(),
                    memories@,
                    listed_writes(source.memory_writes, memories@, source.memory_writes.len()),
                    final(self).module@.memory_writes,
                )
            },
            result matches Err(error) ==> {
                ||| exhausted(final(self).module@, error)
                ||| unmakable(old(self).source@, memories@, error)
                ||| exists|value: ValueId| #[trigger]
                    port_fails(
                        old(self).with_memories(memories@),
                        old(self).visiting@,
                        memories@,
                        value,
                        fuel as int,
                        error,
                    )
            },
    {
        let ghost start = *self;
        proof {
            let limit = toll(start.with_memories(memories@))->0;
            let count = reached_count(start.with_memories(memories@));
            assert(limit * count >= 0) by (nonlinear_arith);
        }
        match self.add_memories(memories) {
            Ok(()) => {},
            Err(error) => return Err(error),
        }
        let ghost first = *self;
        assert(forall|v: ValueId| #[trigger] self.settled(v) == start.settled(v));
        match self.add_memory_signals(memories) {
            Ok(()) => {},
            Err(error) => return Err(error),
        }
        proof {
            lemma_step_trans(start.x(), first.x(), self.x());
        }
        let ghost graph = start.with_memories(memories@);
        let ghost room = size(start.module@) + memory_cost(start.source@, memories@) + toll(
            graph,
        )->0 * reached_count(graph);
        assert(self.graph() == graph) by {
            assert(self.memory_signals@ =~= graph.memory_signals);
        }
        let mut i: usize = 0;
        proof {
            assert(self.blank()) by {
                assert(forall|value: ValueId| #[trigger]
                    self.settled(value) == start.settled(value));
            }
            lemma_covered_blank(self, wanted);
            lemma_pending(&start, self);
            lemma_open_blank(self);
        }
        while i < self.source.memory_reads.len()
            invariant
                turns(graph) || self.potential() <= start.potential() + memory_cost(
                    start.source@,
                    memories@,
                ),
                room == size(start.module@) + memory_cost(start.source@, memories@) + toll(
                    graph,
                )->0 * reached_count(graph),
                toll(graph) is Some ==> self.volume() <= room,
                self.covered(wanted),
                forall|value: ValueId| #[trigger]
                    ports_take(start.source@, memories@, value) ==> wanted.contains(value),
                start == *old(self),
                graph == start.with_memories(memories@),
                self.graph() == graph,
                self.visiting@ == start.visiting@,
                start.inv(),
                self.inv(),
                step(start.x(), self.x()),
                memories@.len() <= u32::MAX,
                self.source == start.source,
                self.known == start.known,
                self.operation_regions == start.operation_regions,
                self.region == start.region,
                self.cut == start.cut,
                memories_agree(self.source@, memories@, self.module@.memories),
                self.module@.memory_writes.len() == 0,
                i <= self.source@.memory_reads.len(),
                reads_agree(
                    self.x(),
                    self.memory_signals@,
                    memories@,
                    listed_reads(self.source@.memory_reads, memories@, i as nat),
                    self.module@.memory_reads,
                ),
            decreases self.source.memory_reads.len() - i,
        {
            let ghost before = *self;
            let read = self.source.memory_reads[i];
            assert(self.source@.read_port_ok(self.source@.memory_reads[i as int]));
            if let Some(place) = find_place(memories, read.memory) {
                proof {
                    assert(read == start.source@.memory_reads[i as int]);
                    assert forall|value: ValueId| #[trigger] read_takes(
                        read,
                        value,
                    ) implies wanted.contains(value) by {
                        assert(read_takes(start.source@.memory_reads[i as int], value));
                        assert(ports_take(start.source@, memories@, value));
                    }
                }
                let local = match self.import_read(
                    &read,
                    place as u32,
                    fuel,
                    Ghost(wanted),
                ) {
                    Ok(local) => local,
                    Err(error) => {
                        proof {
                            assert forall|k: int|
                                0 <= k < start.source@.memory_reads.len() implies (
                            #[trigger] start.source@.memory_reads[k]).data.raw
                                < start.memory_signals@.len() by {
                                assert(start.source@.read_port_ok(start.source@.memory_reads[k]));
                            }
                            lemma_read_signals(
                                start.source@.memory_reads,
                                memories@,
                                start.memory_signals@,
                                start.module@.signals.len(),
                                start.source@.memory_reads.len(),
                                i as int,
                            );
                            assert(read == start.source@.memory_reads[i as int]);
                            let value = choose|value: ValueId| #[trigger]
                                read_takes(read, value) && before.whole_stops(
                                    self,
                                    value,
                                    fuel as int,
                                    error,
                                );
                            assert(start.source@.has(value));
                            if !exhausted(self.module@, error) {
                                assert(port_fails(
                                    graph,
                                    start.visiting@,
                                    memories@,
                                    value,
                                    fuel as int,
                                    error,
                                ));
                            }
                        }
                        return Err(error);
                    },
                };
                let ghost middle = *self;
                let ghost places = listed_reads(self.source@.memory_reads, memories@, i as nat);
                proof {
                    reveal(signals_typed);
                    assert(self.memory_signals@[read.data.raw as int] == Some(local.data));
                    assert(self.module@.read_port_ok(local));
                }
                match self.module.add_memory_read_port(local) {
                    Ok(()) => {},
                    Err(error) => return Err(error),
                }
                proof {
                    lemma_covered_kept(&middle, self, wanted);
                    lemma_pending(&middle, self);
                    lemma_open(&middle, self);
                    lemma_resources_added(&middle, self);
                    lemma_step_trans(start.x(), before.x(), middle.x());
                    lemma_step_trans(start.x(), middle.x(), self.x());
                    lemma_step_trans(before.x(), middle.x(), self.x());
                    lemma_reads_step(
                        before.x(),
                        self.x(),
                        self.memory_signals@,
                        memories@,
                        places,
                        before.module@.memory_reads,
                    );
                    lemma_read_step(
                        middle.x(),
                        self.x(),
                        self.memory_signals@,
                        read,
                        local,
                        place as int,
                    );
                    lemma_reads_pushed(
                        self.x(),
                        self.memory_signals@,
                        memories@,
                        places,
                        before.module@.memory_reads,
                        i as int,
                        local,
                    );
                }
            }
            i += 1;
        }
        let ghost places = listed_reads(
            self.source@.memory_reads,
            memories@,
            self.source@.memory_reads.len(),
        );
        let mut j: usize = 0;
        while j < self.source.memory_writes.len()
            invariant
                turns(graph) || self.potential() <= start.potential() + memory_cost(
                    start.source@,
                    memories@,
                ),
                room == size(start.module@) + memory_cost(start.source@, memories@) + toll(
                    graph,
                )->0 * reached_count(graph),
                toll(graph) is Some ==> self.volume() <= room,
                self.covered(wanted),
                forall|value: ValueId| #[trigger]
                    ports_take(start.source@, memories@, value) ==> wanted.contains(value),
                start == *old(self),
                graph == start.with_memories(memories@),
                self.graph() == graph,
                self.visiting@ == start.visiting@,
                start.inv(),
                self.inv(),
                step(start.x(), self.x()),
                memories@.len() <= u32::MAX,
                self.source == start.source,
                self.known == start.known,
                self.operation_regions == start.operation_regions,
                self.region == start.region,
                self.cut == start.cut,
                memories_agree(self.source@, memories@, self.module@.memories),
                places == listed_reads(
                    self.source@.memory_reads,
                    memories@,
                    self.source@.memory_reads.len(),
                ),
                reads_agree(
                    self.x(),
                    self.memory_signals@,
                    memories@,
                    places,
                    self.module@.memory_reads,
                ),
                j <= self.source@.memory_writes.len(),
                writes_agree(
                    self.x(),
                    memories@,
                    listed_writes(self.source@.memory_writes, memories@, j as nat),
                    self.module@.memory_writes,
                ),
            decreases self.source.memory_writes.len() - j,
        {
            let ghost before = *self;
            let write = self.source.memory_writes[j];
            if let Some(place) = find_place(memories, write.memory) {
                proof {
                    assert(write == start.source@.memory_writes[j as int]);
                    assert forall|value: ValueId| #[trigger] write_takes(
                        write,
                        value,
                    ) implies wanted.contains(value) by {
                        assert(write_takes(start.source@.memory_writes[j as int], value));
                        assert(ports_take(start.source@, memories@, value));
                    }
                }
                let local = match self.import_write(
                    &write,
                    place as u32,
                    fuel,
                    Ghost(wanted),
                ) {
                    Ok(local) => local,
                    Err(error) => {
                        proof {
                            assert(write == start.source@.memory_writes[j as int]);
                            assert(start.source@.write_port_ok(
                                start.source@.memory_writes[j as int],
                            ));
                            let value = choose|value: ValueId| #[trigger]
                                write_takes(write, value) && before.whole_stops(
                                    self,
                                    value,
                                    fuel as int,
                                    error,
                                );
                            assert(start.source@.has(value));
                            if !exhausted(self.module@, error) {
                                assert(port_fails(
                                    graph,
                                    start.visiting@,
                                    memories@,
                                    value,
                                    fuel as int,
                                    error,
                                ));
                            }
                        }
                        return Err(error);
                    },
                };
                let ghost middle = *self;
                let ghost found = listed_writes(self.source@.memory_writes, memories@, j as nat);
                assert(self.module@.write_port_ok(local));
                match self.module.add_memory_write_port(local) {
                    Ok(()) => {},
                    Err(error) => return Err(error),
                }
                proof {
                    lemma_covered_kept(&middle, self, wanted);
                    lemma_pending(&middle, self);
                    lemma_open(&middle, self);
                    lemma_resources_added(&middle, self);
                    lemma_step_trans(start.x(), before.x(), middle.x());
                    lemma_step_trans(start.x(), middle.x(), self.x());
                    lemma_step_trans(before.x(), middle.x(), self.x());
                    lemma_reads_step(
                        before.x(),
                        self.x(),
                        self.memory_signals@,
                        memories@,
                        places,
                        before.module@.memory_reads,
                    );
                    lemma_writes_step(
                        before.x(),
                        self.x(),
                        memories@,
                        found,
                        before.module@.memory_writes,
                    );
                    lemma_write_step(middle.x(), self.x(), write, local, place as int);
                    lemma_writes_pushed(
                        self.x(),
                        memories@,
                        found,
                        before.module@.memory_writes,
                        j as int,
                        local,
                    );
                }
            }
            j += 1;
        }
        Ok(())
    }
}

proof fn lemma_reads_pushed(
    x: Import,
    signals: Seq<Option<SignalId>>,
    memories: Seq<MemoryId>,
    places: Seq<int>,
    locals: Seq<MemoryReadPort>,
    place: int,
    local: MemoryReadPort,
)
    requires
        reads_agree(x, signals, memories, places, locals),
        read_agrees(
            x,
            signals,
            x.source.memory_reads[place],
            local,
            last_place(memories, x.source.memory_reads[place].memory, memories.len())->0 as int,
        ),
    ensures
        reads_agree(x, signals, memories, places.push(place), locals.push(local)),
{
    let more = locals.push(local);
    let all = places.push(place);
    assert forall|k: int| 0 <= k < more.len() implies read_agrees(
        x,
        signals,
        x.source.memory_reads[all[k]],
        #[trigger] more[k],
        last_place(memories, x.source.memory_reads[all[k]].memory, memories.len())->0 as int,
    ) by {
        if k < locals.len() {
            assert(more[k] == locals[k] && all[k] == places[k]);
        }
    }
}

proof fn lemma_writes_pushed(
    x: Import,
    memories: Seq<MemoryId>,
    places: Seq<int>,
    locals: Seq<MemoryWritePort>,
    place: int,
    local: MemoryWritePort,
)
    requires
        writes_agree(x, memories, places, locals),
        write_agrees(
            x,
            x.source.memory_writes[place],
            local,
            last_place(memories, x.source.memory_writes[place].memory, memories.len())->0 as int,
        ),
    ensures
        writes_agree(x, memories, places.push(place), locals.push(local)),
{
    let more = locals.push(local);
    let all = places.push(place);
    assert forall|k: int| 0 <= k < more.len() implies write_agrees(
        x,
        x.source.memory_writes[all[k]],
        #[trigger] more[k],
        last_place(memories, x.source.memory_writes[all[k]].memory, memories.len())->0 as int,
    ) by {
        if k < locals.len() {
            assert(more[k] == locals[k] && all[k] == places[k]);
        }
    }
}

} // verus!
