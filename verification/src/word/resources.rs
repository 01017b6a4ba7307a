//! Memories and instances of a module.

use super::module::{
    Instance, InstanceConnection, InstanceView, Memory, MemoryReadPort, MemoryReadTiming,
    MemoryWritePort, ModuleView, WordModule,
};
use super::semantics::{lemma_eval_grows, word_of, Env};
use super::types::{MemoryId, SourceSpan, ValueId, WordType};
use crate::error::{Invariant, Resource, SynthError};
use super::emit::exhausted;
use vstd::prelude::*;

verus! {

/// Values, operations and signals were appended, and what was there means the
/// same.
pub open spec fn kept(before: ModuleView, after: ModuleView) -> bool {
    &&& before.wf()
    &&& after.wf()
    &&& before.widens_to(after)
    &&& forall|env: Env, v: ValueId|
        before.has(v) ==> #[trigger] word_of(after, env, v) == word_of(before, env, v)
}

pub proof fn lemma_kept(before: ModuleView, after: ModuleView)
    requires
        before.wf(),
        after.wf(),
        before.widens_to(after),
    ensures
        kept(before, after),
{
    assert forall|env: Env, v: ValueId| before.has(v) implies #[trigger] word_of(after, env, v)
        == word_of(before, env, v) by {
        lemma_eval_grows(before, after, env, v.raw as int);
    }
}

pub proof fn lemma_kept_trans(a: ModuleView, b: ModuleView, c: ModuleView)
    requires
        kept(a, b),
        kept(b, c),
    ensures
        kept(a, c),
{
    assert forall|i: int| 0 <= i < a.values.len() implies #[trigger] c.values[i] == a.values[i] by {
        assert(b.values[i] == a.values[i]);
    }
    assert forall|i: int| 0 <= i < a.operations.len() implies #[trigger] c.operations[i]
        == a.operations[i] by {
        assert(b.operations[i] == a.operations[i]);
    }
    assert forall|i: int| 0 <= i < a.signals.len() implies #[trigger] c.signals[i]
        == a.signals[i] by {
        assert(b.signals[i] == a.signals[i]);
    }
    lemma_kept(a, c);
}

/// Resources that refer to what is there leave a module well formed.
pub proof fn lemma_resources(before: ModuleView, after: ModuleView)
    requires
        before.wf(),
        after == (ModuleView {
            instances: after.instances,
            memories: after.memories,
            memory_reads: after.memory_reads,
            memory_writes: after.memory_writes,
            names: after.names,
            ..before
        }),
        forall|i: int, j: int|
            0 <= i < after.instances.len() && 0 <= j < after.instances[i].connections.len() ==> (
            #[trigger] after.instances[i].connections[j]).value.raw < after.values.len(),
        forall|i: int|
            0 <= i < after.memory_reads.len() ==> after.read_port_ok(
                #[trigger] after.memory_reads[i],
            ),
        forall|i: int|
            0 <= i < after.memory_writes.len() ==> after.write_port_ok(
                #[trigger] after.memory_writes[i],
            ),
    ensures
        after.wf(),
        kept(before, after),
{
    assert forall|i: int| 0 <= i < after.values.len() implies #[trigger] after.value_ok(i) by {
        assert(before.value_ok(i));
    }
    assert forall|i: int| 0 <= i < after.operations.len() implies #[trigger] after.operation_ok(
        i,
    ) by {
        assert(before.operation_ok(i));
        let operation = before.operations[i];
        super::module::lemma_op_typed_agree(
            before,
            after,
            operation.kind,
            before.values[operation.result.raw as int].ty,
        );
    }
    assert forall|i: int| 0 <= i < after.connects.len() implies after.connect_ok(
        #[trigger] after.connects[i],
    ) by {
        assert(before.connect_ok(before.connects[i]));
    }
    lemma_kept(before, after);
}

/// The memory resources of a module.
#[derive(Debug)]
pub struct MemoryResources {
    pub memories: Vec<Memory>,
    pub reads: Vec<MemoryReadPort>,
    pub writes: Vec<MemoryWritePort>,
}

impl WordModule {
    /// Appends a memory.
    pub fn add_memory(
        &mut self,
        name: String,
        element_type: WordType,
        depth: u32,
        source: SourceSpan,
    ) -> (result: Result<MemoryId, SynthError>)
        requires
            old(self)@.wf(),
        ensures
            kept(old(self)@, final(self)@),
            final(self)@.names.len() <= old(self)@.names.len() + 1,
            final(self)@ == (ModuleView {
                memories: final(self)@.memories,
                names: final(self)@.names,
                ..old(self)@
            }),
            result matches Ok(id) ==> {
                &&& id.raw == old(self)@.memories.len()
                &&& final(self)@.memories == old(self)@.memories.push(
                    final(self)@.memories[id.raw as int],
                )
                &&& final(self)@.memories[id.raw as int].element_type == element_type
                &&& final(self)@.memories[id.raw as int].depth == depth
                &&& final(self)@.memories[id.raw as int].source == source
                &&& final(self)@.memories[id.raw as int].name.raw < final(self)@.names.len()
                &&& final(self)@.names[final(self)@.memories[id.raw as int].name.raw as int]
                    == name@
            },
            result is Err <==> depth == 0 || element_type.width == 0 || old(
                self)@.memories.len() >= u32::MAX || old(self)@.names.len() >= u32::MAX,
            result matches Err(error) ==> {
                &&& final(self)@ == old(self)@
                &&& error == SynthError::Invariant(Invariant::WidthMismatch) && (depth == 0
                    || element_type.width == 0) || error is Capacity && (old(self)@.memories.len()
                    >= u32::MAX || old(self)@.names.len() >= u32::MAX)
            },
    {
        proof {
            lemma_kept(self@, self@);
        }
        if depth == 0 || element_type.width == 0 {
            return Err(SynthError::Invariant(Invariant::WidthMismatch));
        }
        if self.memories.len() >= u32::MAX as usize {
            return Err(SynthError::Capacity(Resource::Signals));
        }
        let ghost start = self@;
        let known = match self.intern_name(name) {
            Ok(known) => known,
            Err(error) => return Err(error),
        };
        let ghost before = self@;
        let id = MemoryId { raw: self.memories.len() as u32 };
        self.memories.push(Memory { name: known, depth, element_type, source });
        proof {
            assert(self@ =~= (ModuleView { memories: self@.memories, ..before }));
            assert forall|i: int| 0 <= i < self@.memory_reads.len() implies self@.read_port_ok(
                #[trigger] self@.memory_reads[i],
            ) by {
                assert(before.read_port_ok(before.memory_reads[i]));
            }
            assert forall|i: int| 0 <= i < self@.memory_writes.len() implies self@.write_port_ok(
                #[trigger] self@.memory_writes[i],
            ) by {
                assert(before.write_port_ok(before.memory_writes[i]));
            }
            assert forall|i: int, j: int|
                0 <= i < self@.instances.len() && 0 <= j < self@.instances[i].connections.len() implies (
            #[trigger] self@.instances[i].connections[j]).value.raw < self@.values.len() by {
                assert(before.instances[i].connections[j].value.raw < before.values.len());
            }
            lemma_resources(before, self@);
            lemma_kept(start, before);
            lemma_kept_trans(start, before, self@);
        }
        Ok(id)
    }

    pub(crate) fn read_port_fits(&self, port: &MemoryReadPort) -> (fits: bool)
        ensures
            fits == self@.read_port_ok(*port),
    {
        let timing = match port.timing {
            MemoryReadTiming::Asynchronous => true,
            MemoryReadTiming::Synchronous { clock, enable, .. } => {
                (clock.value.raw as usize) < self.values.len() && match enable {
                    Some(enable) => (enable.value.raw as usize) < self.values.len(),
                    None => true,
                }
            },
        };
        (port.memory.raw as usize) < self.memories.len() && (port.data.raw as usize)
            < self.signals.len() && (port.address.raw as usize) < self.values.len() && timing
    }

    /// Appends a read port.
    pub fn add_memory_read_port(&mut self, port: MemoryReadPort) -> (result: Result<
        (),
        SynthError,
    >)
        requires
            old(self)@.wf(),
        ensures
            kept(old(self)@, final(self)@),
            result is Ok <==> old(self)@.read_port_ok(port),
            final(self)@ == (if result is Ok {
                ModuleView {
                    memory_reads: old(self)@.memory_reads.push(port),
                    ..old(self)@
                }
            } else {
                old(self)@
            }),
    {
        let ghost before = self@;
        proof {
            lemma_kept(before, before);
        }
        if !self.read_port_fits(&port) {
            return Err(SynthError::Invariant(Invariant::UnknownMemory));
        }
        self.memory_reads.push(port);
        proof {
            assert(self@ =~= (ModuleView {
                memory_reads: before.memory_reads.push(port),
                ..before
            }));
            assert forall|i: int| 0 <= i < self@.memory_reads.len() implies self@.read_port_ok(
                #[trigger] self@.memory_reads[i],
            ) by {
                if i < before.memory_reads.len() {
                    assert(before.read_port_ok(before.memory_reads[i]));
                }
            }
            assert forall|i: int| 0 <= i < self@.memory_writes.len() implies self@.write_port_ok(
                #[trigger] self@.memory_writes[i],
            ) by {
                assert(before.write_port_ok(before.memory_writes[i]));
            }
            assert forall|i: int, j: int|
                0 <= i < self@.instances.len() && 0 <= j < self@.instances[i].connections.len() implies (
            #[trigger] self@.instances[i].connections[j]).value.raw < self@.values.len() by {
                assert(before.instances[i].connections[j].value.raw < before.values.len());
            }
            lemma_resources(before, self@);
        }
        Ok(())
    }

    pub(crate) fn write_port_fits(&self, port: &MemoryWritePort) -> (fits: bool)
        ensures
            fits == self@.write_port_ok(*port),
    {
        let enable = match port.enable {
            Some(enable) => (enable.value.raw as usize) < self.values.len(),
            None => true,
        };
        let mask = match port.mask {
            Some(mask) => (mask.value.raw as usize) < self.values.len(),
            None => true,
        };
        (port.memory.raw as usize) < self.memories.len() && (port.address.raw as usize)
            < self.values.len() && (port.data.raw as usize) < self.values.len() && (
        port.clock.value.raw as usize) < self.values.len() && enable && mask
    }

    /// Appends a write port.
    pub fn add_memory_write_port(&mut self, port: MemoryWritePort) -> (result: Result<
        (),
        SynthError,
    >)
        requires
            old(self)@.wf(),
        ensures
            kept(old(self)@, final(self)@),
            result is Ok <==> old(self)@.write_port_ok(port),
            final(self)@ == (if result is Ok {
                ModuleView {
                    memory_writes: old(self)@.memory_writes.push(port),
                    ..old(self)@
                }
            } else {
                old(self)@
            }),
    {
        let ghost before = self@;
        proof {
            lemma_kept(before, before);
        }
        if !self.write_port_fits(&port) {
            return Err(SynthError::Invariant(Invariant::UnknownMemory));
        }
        self.memory_writes.push(port);
        proof {
            assert(self@ =~= (ModuleView {
                memory_writes: before.memory_writes.push(port),
                ..before
            }));
            assert forall|i: int| 0 <= i < self@.memory_reads.len() implies self@.read_port_ok(
                #[trigger] self@.memory_reads[i],
            ) by {
                assert(before.read_port_ok(before.memory_reads[i]));
            }
            assert forall|i: int| 0 <= i < self@.memory_writes.len() implies self@.write_port_ok(
                #[trigger] self@.memory_writes[i],
            ) by {
                if i < before.memory_writes.len() {
                    assert(before.write_port_ok(before.memory_writes[i]));
                }
            }
            assert forall|i: int, j: int|
                0 <= i < self@.instances.len() && 0 <= j < self@.instances[i].connections.len() implies (
            #[trigger] self@.instances[i].connections[j]).value.raw < self@.values.len() by {
                assert(before.instances[i].connections[j].value.raw < before.values.len());
            }
            lemma_resources(before, self@);
        }
        Ok(())
    }

    /// Takes the memory resources out of a module.
    pub fn take_memory_resources(&mut self) -> (resources: MemoryResources)
        requires
            old(self)@.wf(),
        ensures
            kept(old(self)@, final(self)@),
            final(self)@ == (ModuleView {
                memories: seq![],
                memory_reads: seq![],
                memory_writes: seq![],
                ..old(self)@
            }),
            resources.memories@ == old(self)@.memories,
            resources.reads@ == old(self)@.memory_reads,
            resources.writes@ == old(self)@.memory_writes,
    {
        let ghost before = self@;
        let mut memories: Vec<Memory> = Vec::new();
        let mut reads: Vec<MemoryReadPort> = Vec::new();
        let mut writes: Vec<MemoryWritePort> = Vec::new();
        std::mem::swap(&mut memories, &mut self.memories);
        std::mem::swap(&mut reads, &mut self.memory_reads);
        std::mem::swap(&mut writes, &mut self.memory_writes);
        proof {
            assert(self@ =~= (ModuleView {
                memories: seq![],
                memory_reads: seq![],
                memory_writes: seq![],
                ..before
            }));
            assert forall|i: int, j: int|
                0 <= i < self@.instances.len() && 0 <= j < self@.instances[i].connections.len() implies (
            #[trigger] self@.instances[i].connections[j]).value.raw < self@.values.len() by {
                assert(before.instances[i].connections[j].value.raw < before.values.len());
            }
            lemma_resources(before, self@);
        }
        MemoryResources { memories, reads, writes }
    }

    /// Appends an instance of a cell.
    pub fn add_instance(
        &mut self,
        name: String,
        cell: String,
        connections: Vec<InstanceConnection>,
        source: SourceSpan,
    ) -> (result: Result<(), SynthError>)
        requires
            old(self)@.wf(),
            forall|i: int|
                0 <= i < connections@.len() ==> old(self)@.has(
                    (#[trigger] connections@[i]).value,
                ),
        ensures
            kept(old(self)@, final(self)@),
            final(self)@ == (ModuleView {
                instances: final(self)@.instances,
                names: final(self)@.names,
                ..old(self)@
            }),
            result is Ok ==> {
                let last = final(self)@.instances.last();
                &&& final(self)@.instances == old(self)@.instances.push(last)
                &&& last.connections == connections@
                &&& last.source == source
                &&& final(self)@.names[last.name.raw as int] == name@
                &&& final(self)@.names[last.cell.raw as int] == cell@
            },
            old(self)@.names.len() <= final(self)@.names.len(),
            forall|k: int|
                0 <= k < old(self)@.names.len() ==> #[trigger] final(self)@.names[k] == old(
                    self)@.names[k],
            result matches Err(error) ==> exhausted(final(self)@, error),
            result is Err ==> final(self)@.instances == old(self)@.instances && final(
                self)@.names.len() >= u32::MAX,
    {
        let ghost start = self@;
        proof {
            lemma_kept(start, start);
        }
        let known = match self.intern_name(name) {
            Ok(known) => known,
            Err(error) => return Err(error),
        };
        let ghost middle = self@;
        proof {
            lemma_kept(start, middle);
        }
        let kind = match self.intern_name(cell) {
            Ok(kind) => kind,
            Err(error) => return Err(error),
        };
        let ghost before = self@;
        proof {
            lemma_kept(start, before);
        }
        let ghost row = connections@;
        self.instances.push(Instance { name: known, cell: kind, connections, source });
        proof {
            let last = InstanceView { name: known, cell: kind, connections: row, source };
            assert(self@.instances =~= before.instances.push(last));
            assert(self@ =~= (ModuleView { instances: self@.instances, ..before }));
            assert forall|i: int| 0 <= i < self@.memory_reads.len() implies self@.read_port_ok(
                #[trigger] self@.memory_reads[i],
            ) by {
                assert(before.read_port_ok(before.memory_reads[i]));
            }
            assert forall|i: int| 0 <= i < self@.memory_writes.len() implies self@.write_port_ok(
                #[trigger] self@.memory_writes[i],
            ) by {
                assert(before.write_port_ok(before.memory_writes[i]));
            }
            assert forall|i: int, j: int|
                0 <= i < self@.instances.len() && 0 <= j < self@.instances[i].connections.len() implies (
            #[trigger] self@.instances[i].connections[j]).value.raw < self@.values.len() by {
                if i < before.instances.len() {
                    assert(before.instances[i].connections[j].value.raw < before.values.len());
                } else {
                    assert(start.has(row[j].value));
                }
            }
            lemma_resources(before, self@);
            lemma_kept_trans(start, before, self@);
            assert(before.names[known.raw as int] == middle.names[known.raw as int]);
        }
        Ok(())
    }
}

} // verus!
