//! Builders for signals, ports and connections.

use super::module::{
    Connect, LValue, ModuleView, Port, PortDirection, Signal, SignalKind, SignalResolution,
    WordModule,
};
use super::types::{NameId, PortId, SignalId, SourceSpan, ValueId, WordType};
use crate::error::{Invariant, Resource, SynthError};
use super::emit::exhausted;
use vstd::prelude::*;

verus! {

impl ModuleView {
    pub open spec fn push_signal(self, signal: Signal) -> ModuleView {
        ModuleView { signals: self.signals.push(signal), ..self }
    }

    pub open spec fn push_connect(self, connect: Connect) -> ModuleView {
        ModuleView { connects: self.connects.push(connect), ..self }
    }

    pub open spec fn with_connects(self, connects: Seq<Connect>) -> ModuleView {
        ModuleView { connects, ..self }
    }

    /// Signals were appended too; ports, connections and resources stay.
    pub open spec fn widens_to(self, later: ModuleView) -> bool {
        &&& self.name == later.name
        &&& self.values.len() <= later.values.len()
        &&& self.operations.len() <= later.operations.len()
        &&& self.signals.len() <= later.signals.len()
        &&& forall|i: int|
            0 <= i < self.values.len() ==> #[trigger] later.values[i] == self.values[i]
        &&& forall|i: int|
            0 <= i < self.operations.len() ==> #[trigger] later.operations[i] == self.operations[i]
        &&& forall|i: int|
            0 <= i < self.signals.len() ==> #[trigger] later.signals[i] == self.signals[i]
    }
}

/// Appending a signal keeps a module well formed.
pub proof fn lemma_push_signal(before: ModuleView, signal: Signal)
    requires
        before.wf(),
        before.signals.len() < u32::MAX,
        signal.ty.width >= 1,
    ensures
        before.push_signal(signal).wf(),
        before.widens_to(before.push_signal(signal)),
{
    let after = before.push_signal(signal);
    assert forall|i: int| 0 <= i < after.values.len() implies #[trigger] after.value_ok(i) by {
        assert(before.value_ok(i));
    }
    assert forall|i: int| 0 <= i < after.operations.len() implies #[trigger] after.operation_ok(
        i,
    ) by {
        assert(before.operation_ok(i));
        let operation = before.operations[i];
        assert(before.inputs_below(operation.kind, before.values.len() as int)) by {
            assert forall|k: int|
                0 <= k < super::types::op_inputs(operation.kind).len() implies (
            #[trigger] super::types::op_inputs(operation.kind)[k]).raw < before.values.len() by {}
        }
        super::module::lemma_op_typed_stable(
            before,
            after,
            operation.kind,
            before.values[operation.result.raw as int].ty,
        );
    }
    assert forall|i: int| 0 <= i < after.connects.len() implies after.connect_ok(
        #[trigger] after.connects[i],
    ) by {
        assert(before.connect_ok(before.connects[i]));
    }
}

/// Connections between existing values and signals keep a module well formed.
pub proof fn lemma_with_connects(before: ModuleView, connects: Seq<Connect>)
    requires
        before.wf(),
        forall|i: int| 0 <= i < connects.len() ==> before.connect_ok(#[trigger] connects[i]),
    ensures
        before.with_connects(connects).wf(),
{
    let after = before.with_connects(connects);
    assert forall|i: int| 0 <= i < after.values.len() implies #[trigger] after.value_ok(i) by {
        assert(before.value_ok(i));
    }
    assert forall|i: int| 0 <= i < after.operations.len() implies #[trigger] after.operation_ok(
        i,
    ) by {
        assert(before.operation_ok(i));
        let operation = before.operations[i];
        assert(before.inputs_below(operation.kind, before.values.len() as int)) by {
            assert forall|k: int|
                0 <= k < super::types::op_inputs(operation.kind).len() implies (
            #[trigger] super::types::op_inputs(operation.kind)[k]).raw < before.values.len() by {}
        }
        super::module::lemma_op_typed_stable(
            before,
            after,
            operation.kind,
            before.values[operation.result.raw as int].ty,
        );
    }
    assert forall|i: int| 0 <= i < after.connects.len() implies after.connect_ok(
        #[trigger] after.connects[i],
    ) by {
        assert(before.connect_ok(connects[i]));
    }
}

impl WordModule {
    /// The identifier of a name, which is new if the name is.
    pub fn intern_name(&mut self, name: String) -> (result: Result<NameId, SynthError>)
        requires
            old(self)@.wf(),
        ensures
            final(self)@.wf(),
            final(self)@ == (ModuleView { names: final(self)@.names, ..old(self)@ }),
            result matches Ok(id) ==> {
                &&& id.raw < final(self)@.names.len()
                &&& final(self)@.names[id.raw as int] == name@
                &&& final(self)@.names == (if old(self)@.names.contains(name@) {
                    old(self)@.names
                } else {
                    old(self)@.names.push(name@)
                })
            },
            result is Err <==> old(self)@.names.len() >= u32::MAX,
            result matches Err(error) ==> error == SynthError::Capacity(Resource::Signals)
                && final(self)@ == old(self)@,
    {
        let ghost before = self@;
        if self.names.len() >= u32::MAX as usize {
            return Err(SynthError::Capacity(Resource::Signals));
        }
        let mut index: usize = 0;
        while index < self.names.len()
            invariant
                index <= self.names@.len(),
                self@ == before,
                before == old(self)@,
                before.wf(),
                before.names.len() < u32::MAX,
                forall|i: int| 0 <= i < index ==> #[trigger] before.names[i] != name@,
            decreases self.names.len() - index,
        {
            assert(before.names[index as int] == self.names@[index as int]@);
            if self.names[index] == name {
                assert(before.names[index as int] == name@);
                return Ok(NameId { raw: index as u32 });
            }
            index += 1;
        }
        let id = NameId { raw: self.names.len() as u32 };
        self.names.push(name);
        assert(self@.names =~= before.names.push(name@));
        proof {
            lemma_names(before, self@);
        }
        Ok(id)
    }

    /// Appends a signal.
    fn push_signal(&mut self, signal: Signal) -> (result: Result<SignalId, SynthError>)
        requires
            old(self)@.wf(),
        ensures
            final(self)@.wf(),
            result == (if signal.ty.width == 0 {
                Err::<SignalId, SynthError>(SynthError::Invariant(Invariant::WidthMismatch))
            } else if old(self)@.signals.len() >= u32::MAX {
                Err(SynthError::Capacity(Resource::Signals))
            } else {
                Ok(SignalId { raw: old(self)@.signals.len() as u32 })
            }),
            final(self)@ == (if result is Ok {
                old(self)@.push_signal(signal)
            } else {
                old(self)@
            }),
    {
        if signal.ty.width == 0 {
            return Err(SynthError::Invariant(Invariant::WidthMismatch));
        }
        if self.signals.len() >= u32::MAX as usize {
            return Err(SynthError::Capacity(Resource::Signals));
        }
        let ghost before = self@;
        proof {
            lemma_push_signal(before, signal);
        }
        let id = SignalId { raw: self.signals.len() as u32 };
        self.signals.push(signal);
        assert(self@ =~= before.push_signal(signal));
        Ok(id)
    }

    /// Appends a wire without a name.
    pub fn add_generated_wire(&mut self, ty: WordType, source: SourceSpan) -> (result: Result<
        SignalId,
        SynthError,
    >)
        requires
            old(self)@.wf(),
        ensures
            final(self)@.wf(),
            result == (if ty.width == 0 {
                Err::<SignalId, SynthError>(SynthError::Invariant(Invariant::WidthMismatch))
            } else if old(self)@.signals.len() >= u32::MAX {
                Err(SynthError::Capacity(Resource::Signals))
            } else {
                Ok(SignalId { raw: old(self)@.signals.len() as u32 })
            }),
            final(self)@ == (if result is Ok {
                old(self)@.push_signal(
                    Signal {
                        name: None,
                        ty,
                        kind: SignalKind::Wire,
                        source,
                        preserved: false,
                        resolution: SignalResolution::Single,
                    },
                )
            } else {
                old(self)@
            }),
    {
        self.push_signal(
            Signal {
                name: None,
                ty,
                kind: SignalKind::Wire,
                source,
                preserved: false,
                resolution: SignalResolution::Single,
            },
        )
    }

    /// Appends a named signal of a kind.
    fn add_named(&mut self, name: String, ty: WordType, kind: SignalKind, source: SourceSpan)
        -> (result: Result<SignalId, SynthError>)
        requires
            old(self)@.wf(),
        ensures
            final(self)@.wf(),
            old(self)@.widens_to(final(self)@),
            final(self)@ == (ModuleView {
                names: final(self)@.names,
                signals: final(self)@.signals,
                ..old(self)@
            }),
            result matches Ok(id) ==> {
                &&& id.raw == old(self)@.signals.len()
                &&& final(self)@.signals.len() == id.raw + 1
                &&& final(self)@.signals[id.raw as int].ty == ty
                &&& final(self)@.signals[id.raw as int].kind == kind
                &&& !final(self)@.signals[id.raw as int].preserved
                &&& final(self)@.signals[id.raw as int].source == source
                &&& final(self)@.signals[id.raw as int].name matches Some(known) && final(
                    self)@.names[known.raw as int] == name@
            },
            old(self)@.names.len() <= final(self)@.names.len() <= old(self)@.names.len() + 1,
            final(self)@.signals.len() <= old(self)@.signals.len() + 1,
            forall|i: int|
                0 <= i < old(self)@.names.len() ==> #[trigger] final(self)@.names[i] == old(
                    self)@.names[i],
            result matches Err(error) ==> ty.width == 0 || exhausted(final(self)@, error),
            result matches Ok(id) ==> final(self)@.signals[id.raw as int].name is Some && final(
                self)@.signals[id.raw as int].name->0.raw < final(self)@.names.len(),
            result is Err <==> ty.width == 0 || old(self)@.signals.len() >= u32::MAX || old(
                self)@.names.len() >= u32::MAX,
    {
        if ty.width == 0 {
            return Err(SynthError::Invariant(Invariant::WidthMismatch));
        }
        if self.signals.len() >= u32::MAX as usize {
            return Err(SynthError::Capacity(Resource::Signals));
        }
        let id = match self.intern_name(name) {
            Ok(id) => id,
            Err(error) => return Err(error),
        };
        self.push_signal(Signal {
            name: Some(id),
            ty,
            kind,
            source,
            preserved: false,
            resolution: SignalResolution::Single,
        })
    }

    /// Appends a named wire.
    pub fn add_wire(&mut self, name: String, ty: WordType, source: SourceSpan) -> (result: Result<
        SignalId,
        SynthError,
    >)
        requires
            old(self)@.wf(),
        ensures
            final(self)@.wf(),
            old(self)@.widens_to(final(self)@),
            final(self)@ == (ModuleView {
                names: final(self)@.names,
                signals: final(self)@.signals,
                ..old(self)@
            }),
            result matches Ok(id) ==> {
                &&& id.raw == old(self)@.signals.len()
                &&& final(self)@.signals.len() == id.raw + 1
                &&& final(self)@.signals[id.raw as int].ty == ty
                &&& final(self)@.signals[id.raw as int].kind is Wire
                &&& !final(self)@.signals[id.raw as int].preserved
                &&& final(self)@.signals[id.raw as int].source == source
                &&& final(self)@.signals[id.raw as int].name matches Some(known) && final(
                    self)@.names[known.raw as int] == name@
            },
            result is Err <==> ty.width == 0 || old(self)@.signals.len() >= u32::MAX || old(
                self)@.names.len() >= u32::MAX,
    {
        self.add_named(name, ty, SignalKind::Wire, source)
    }

    /// Appends a named signal that a register drives.
    pub fn add_register_signal(&mut self, name: String, ty: WordType, source: SourceSpan) -> (result:
        Result<SignalId, SynthError>)
        requires
            old(self)@.wf(),
        ensures
            final(self)@.wf(),
            old(self)@.widens_to(final(self)@),
            final(self)@ == (ModuleView {
                names: final(self)@.names,
                signals: final(self)@.signals,
                ..old(self)@
            }),
            result matches Ok(id) ==> {
                &&& id.raw == old(self)@.signals.len()
                &&& final(self)@.signals.len() == id.raw + 1
                &&& final(self)@.signals[id.raw as int].ty == ty
                &&& final(self)@.signals[id.raw as int].kind is Register
                &&& !final(self)@.signals[id.raw as int].preserved
                &&& final(self)@.signals[id.raw as int].source == source
                &&& final(self)@.signals[id.raw as int].name matches Some(known) && final(
                    self)@.names[known.raw as int] == name@
            },
            old(self)@.names.len() <= final(self)@.names.len(),
            forall|i: int|
                0 <= i < old(self)@.names.len() ==> #[trigger] final(self)@.names[i] == old(
                    self)@.names[i],
            result matches Err(error) ==> ty.width == 0 || exhausted(final(self)@, error),
            result matches Ok(id) ==> final(self)@.signals[id.raw as int].name is Some && final(
                self)@.signals[id.raw as int].name->0.raw < final(self)@.names.len(),
            result is Err <==> ty.width == 0 || old(self)@.signals.len() >= u32::MAX || old(
                self)@.names.len() >= u32::MAX,
    {
        self.add_named(name, ty, SignalKind::Register, source)
    }

    /// Appends a port with its signal.
    pub fn add_port(
        &mut self,
        name: String,
        direction: PortDirection,
        ty: WordType,
        source: SourceSpan,
    ) -> (result: Result<PortId, SynthError>)
        requires
            old(self)@.wf(),
        ensures
            final(self)@.wf(),
            final(self)@ == (ModuleView {
                names: final(self)@.names,
                signals: final(self)@.signals,
                ports: final(self)@.ports,
                ..old(self)@
            }),
            old(self)@.widens_to(final(self)@),
            final(self)@.names.len() <= old(self)@.names.len() + 1,
            final(self)@.signals.len() <= old(self)@.signals.len() + 1,
            result matches Ok(id) ==> {
                &&& id.raw == old(self)@.ports.len()
                &&& final(self)@.ports.len() == id.raw + 1
                &&& final(self)@.ports.drop_last() == old(self)@.ports
                &&& final(self)@.ports[id.raw as int].direction == direction
                &&& final(self)@.ports[id.raw as int].ty == ty
                &&& final(self)@.ports[id.raw as int].signal.raw == old(self)@.signals.len()
                &&& final(self)@.signals.len() == old(self)@.signals.len() + 1
                &&& final(self)@.signals.last().kind == SignalKind::Port(id)
                &&& final(self)@.signals.last().ty == ty
                &&& final(self)@.names[final(self)@.ports[id.raw as int].name.raw as int] == name@
            },
            result is Err <==> ty.width == 0 || old(self)@.signals.len() >= u32::MAX || old(
                self)@.names.len() >= u32::MAX || old(self)@.ports.len() >= u32::MAX,
            result matches Err(error) ==> {
                &&& ty.width == 0 || exhausted(final(self)@, error)
                &&& final(self)@.ports == old(self)@.ports
                &&& old(self)@.names.len() <= final(self)@.names.len()
            },
    {
        if self.ports.len() >= u32::MAX as usize {
            return Err(SynthError::Capacity(Resource::Signals));
        }
        let id = PortId { raw: self.ports.len() as u32 };
        let signal = match self.add_named(name, ty, SignalKind::Port(id), source) {
            Ok(signal) => signal,
            Err(error) => return Err(error),
        };
        let ghost before = self@;
        let known = match self.signals[signal.raw as usize].name {
            Some(known) => known,
            None => NameId { raw: 0 },
        };
        self.ports.push(Port { name: known, direction, ty, signal });
        assert(self@.ports.drop_last() =~= before.ports);
        proof {
            lemma_with_connects(before, before.connects);
            assert(self@ =~= (ModuleView { ports: self@.ports, ..before }));
            lemma_ports(before, self@);
        }
        Ok(id)
    }

    /// Appends a connection of an existing value to an existing signal.
    pub fn connect(&mut self, target: LValue, value: ValueId, source: SourceSpan) -> (result:
        Result<(), SynthError>)
        requires
            old(self)@.wf(),
        ensures
            final(self)@.wf(),
            result == (if old(self)@.connect_ok(Connect { target, value, source }) {
                Ok(())
            } else {
                Err::<(), SynthError>(SynthError::Invariant(Invariant::UnknownSignal))
            }),
            final(self)@ == (if result is Ok {
                old(self)@.push_connect(Connect { target, value, source })
            } else {
                old(self)@
            }),
    {
        let known: bool = match target.dynamic {
            Some(dynamic) => (dynamic.offset.raw as usize) < self.values.len(),
            None => true,
        };
        if !known || target.signal.raw as usize >= self.signals.len() || value.raw as usize
            >= self.values.len() {
            return Err(SynthError::Invariant(Invariant::UnknownSignal));
        }
        let ghost before = self@;
        self.connects.push(Connect { target, value, source });
        proof {
            let connects = before.connects.push(Connect { target, value, source });
            assert forall|i: int| 0 <= i < connects.len() implies before.connect_ok(
                #[trigger] connects[i],
            ) by {
                if i < before.connects.len() {
                    assert(before.connect_ok(before.connects[i]));
                }
            }
            lemma_with_connects(before, connects);
            assert(self@ =~= before.push_connect(Connect { target, value, source }));
        }
        Ok(())
    }

    /// Sets how a signal comes by its word.
    pub fn set_signal_resolution(&mut self, signal: SignalId, resolution: SignalResolution)
        requires
            old(self)@.wf(),
            signal.raw < old(self)@.signals.len(),
        ensures
            final(self)@.wf(),
            final(self)@ == (ModuleView {
                signals: old(self)@.signals.update(
                    signal.raw as int,
                    Signal { resolution, ..old(self)@.signals[signal.raw as int] },
                ),
                ..old(self)@
            }),
    {
        let ghost before = self@;
        let mut stored = self.signals[signal.raw as usize];
        stored.resolution = resolution;
        self.signals.set(signal.raw as usize, stored);
        proof {
            lemma_signals(before, self@);
        }
    }

    /// Marks a signal as one that has to stay.
    pub fn preserve_signal(&mut self, signal: SignalId)
        requires
            old(self)@.wf(),
            signal.raw < old(self)@.signals.len(),
        ensures
            final(self)@.wf(),
            final(self)@ == (ModuleView {
                signals: old(self)@.signals.update(
                    signal.raw as int,
                    Signal { preserved: true, ..old(self)@.signals[signal.raw as int] },
                ),
                ..old(self)@
            }),
    {
        let ghost before = self@;
        let mut stored = self.signals[signal.raw as usize];
        stored.preserved = true;
        self.signals.set(signal.raw as usize, stored);
        proof {
            lemma_signals(before, self@);
        }
    }
}

proof fn lemma_signals(before: ModuleView, after: ModuleView)
    requires
        before.wf(),
        after == (ModuleView { signals: after.signals, names: after.names, ..before }),
        after.signals.len() == before.signals.len(),
        forall|i: int|
            0 <= i < before.signals.len() ==> (#[trigger] after.signals[i]).ty
                == before.signals[i].ty,
    ensures
        after.wf(),
{
    assert forall|i: int| 0 <= i < after.values.len() implies #[trigger] after.value_ok(i) by {
        assert(before.value_ok(i));
    }
    assert forall|i: int| 0 <= i < after.operations.len() implies #[trigger] after.operation_ok(
        i,
    ) by {
        assert(before.operation_ok(i));
        let operation = before.operations[i];
        assert(before.inputs_below(operation.kind, before.values.len() as int)) by {
            assert forall|k: int|
                0 <= k < super::types::op_inputs(operation.kind).len() implies (
            #[trigger] super::types::op_inputs(operation.kind)[k]).raw < before.values.len() by {}
        }
        super::module::lemma_op_typed_stable(
            before,
            after,
            operation.kind,
            before.values[operation.result.raw as int].ty,
        );
    }
    assert forall|i: int| 0 <= i < after.connects.len() implies after.connect_ok(
        #[trigger] after.connects[i],
    ) by {
        assert(before.connect_ok(before.connects[i]));
    }
}

proof fn lemma_names(before: ModuleView, after: ModuleView)
    requires
        before.wf(),
        after == (ModuleView { names: after.names, ..before }),
    ensures
        after.wf(),
{
    lemma_signals(before, after);
}

proof fn lemma_ports(before: ModuleView, after: ModuleView)
    requires
        before.wf(),
        after == (ModuleView { ports: after.ports, ..before }),
        forall|i: int|
            0 <= i < after.ports.len() ==> (#[trigger] after.ports[i]).signal.raw
                < before.signals.len(),
    ensures
        after.wf(),
{
    assert forall|i: int| 0 <= i < after.values.len() implies #[trigger] after.value_ok(i) by {
        assert(before.value_ok(i));
    }
    assert forall|i: int| 0 <= i < after.operations.len() implies #[trigger] after.operation_ok(
        i,
    ) by {
        assert(before.operation_ok(i));
        let operation = before.operations[i];
        assert(before.inputs_below(operation.kind, before.values.len() as int)) by {
            assert forall|k: int|
                0 <= k < super::types::op_inputs(operation.kind).len() implies (
            #[trigger] super::types::op_inputs(operation.kind)[k]).raw < before.values.len() by {}
        }
        super::module::lemma_op_typed_stable(
            before,
            after,
            operation.kind,
            before.values[operation.result.raw as int].ty,
        );
    }
    assert forall|i: int| 0 <= i < after.connects.len() implies after.connect_ok(
        #[trigger] after.connects[i],
    ) by {
        assert(before.connect_ok(before.connects[i]));
    }
}

} // verus!
