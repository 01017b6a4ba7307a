//! The border of a local module: inputs for what comes from outside, outputs for what
//! is wanted.

use super::importer::{known_holds, leaf_ok, leaves_ok, linked, Import};
use crate::word::drivers::driven;
use crate::word::module::{KindView, ModuleView, PortDirection, SignalKind, SignalRef};
use crate::word::semantics::{constant_value, eval, lemma_eval_width, word_of, Env};
use crate::word::types::{CastKind, OpView, PortId, SignalId, ValueId, WordType};
use vstd::prelude::*;

verus! {

/// A value that reads a run of a signal's bits, or gives such a read another type of
/// the same width.
pub open spec fn reads_run(module: ModuleView, local: ValueId, run: SignalRef) -> bool {
    &&& module.has(local)
    &&& module.ty(local).width == run.width
    &&& {
        ||| module.kind(local) == KindView::Signal(run)
        ||| exists|read: ValueId, kind: CastKind, target: WordType|
            read.raw < local.raw && module.op_of(local) == Some(
                OpView::Cast { kind, value: read, target },
            ) && #[trigger] module.kind(read) == KindView::Signal(run) && target.width == run.width
                && #[trigger] recasts(kind, target)
    }
}

/// A change of type.
pub open spec fn recasts(kind: CastKind, target: WordType) -> bool {
    true
}

/// A signal that belongs to a port of a direction.
pub open spec fn belongs(module: ModuleView, signal: SignalId, input: bool) -> bool {
    &&& signal.raw < module.signals.len()
    &&& module.signals[signal.raw as int].kind matches SignalKind::Port(port) && port.raw
        < module.ports.len() && module.ports[port.raw as int].signal == signal && (if input {
        module.ports[port.raw as int].direction is Input
    } else {
        module.ports[port.raw as int].direction is Output
    })
}

/// A local module and what its border stands for: the input signal of each signal of
/// the source, the signals that memories are read into, and the values that lie next
/// to each other.
pub ghost struct Interface {
    pub source: ModuleView,
    pub module: ModuleView,
    pub inlets: Seq<Option<SignalId>>,
    pub memory_signals: Seq<Option<SignalId>>,
    pub leaves: Seq<(ValueId, ValueId)>,
    pub bindings: Seq<(ValueId, ValueId)>,
}

impl Interface {
    /// A binding of an operation, which has an input of its own.
    pub open spec fn binds_operation(self, k: int) -> bool {
        0 <= k < self.bindings.len() && self.source.kind(self.bindings[k].0) is Operation
    }

    /// A binding of a read of a signal, which shares the signal's input.
    pub open spec fn binds_signal(self, k: int, s: int) -> bool {
        0 <= k < self.bindings.len() && (self.source.kind(self.bindings[k].0) matches KindView::Signal(
            reference,
        ) && reference.signal.raw == s)
    }

    /// The signal that a binding reads.
    pub open spec fn inlet_of(self, k: int) -> SignalId {
        self.module.kind(self.bindings[k].1)->Signal_0.signal
    }

    pub open spec fn binding_ok(self, k: int) -> bool {
        let (value, local) = self.bindings[k];
        &&& self.source.has(value)
        &&& match self.source.kind(value) {
            KindView::Constant(_) => false,
            KindView::Signal(reference) => self.inlets[reference.signal.raw as int] is Some
                && reads_run(
                self.module,
                local,
                SignalRef {
                    signal: self.inlets[reference.signal.raw as int]->0,
                    lsb: reference.lsb,
                    width: reference.width,
                },
            ),
            KindView::Operation(_) => {
                &&& self.module.has(local)
                &&& self.module.kind(local) is Signal
                &&& self.module.kind(local) == KindView::Signal(
                    SignalRef {
                        signal: self.inlet_of(k),
                        lsb: 0,
                        width: self.source.ty(value).width,
                    },
                )
                &&& belongs(self.module, self.inlet_of(k), true)
            },
        }
    }

    /// A port is the input of a bound signal, the input of a bound operation, or an
    /// output.
    pub open spec fn port_ok(self, p: int) -> bool {
        let port = self.module.ports[p];
        &&& port.signal.raw < self.module.signals.len()
        &&& self.module.signals[port.signal.raw as int].kind == SignalKind::Port(
            PortId { raw: p as u32 },
        )
        &&& match port.direction {
            PortDirection::Input => {
                ||| exists|s: int|
                    0 <= s < self.inlets.len() && #[trigger] self.inlets[s] == Some(port.signal)
                ||| exists|k: int| #[trigger]
                    self.binds_operation(k) && self.inlet_of(k) == port.signal
            },
            PortDirection::Output => true,
            PortDirection::Inout => false,
        }
    }

    /// A leaf is a constant, is bound, or reads what a memory is read into.
    pub open spec fn leaf_rests(self, i: int) -> bool {
        let (value, local) = self.leaves[i];
        &&& self.source.has(value)
        &&& {
            ||| self.source.kind(value) is Constant
            ||| exists|k: int| 0 <= k < self.bindings.len() && #[trigger] self.bindings[k]
                == self.leaves[i]
            ||| self.source.kind(value) matches KindView::Signal(reference)
                && self.memory_signals[reference.signal.raw as int] is Some && reads_run(
                self.module,
                local,
                SignalRef {
                    signal: self.memory_signals[reference.signal.raw as int]->0,
                    lsb: reference.lsb,
                    width: reference.width,
                },
            )
        }
    }

    /// The border is in order: there is one input for each signal and for each operation
    /// that is bound, and no other; inputs are not driven; and whatever stands for a
    /// value of the source is a constant, reads an input or reads a memory.
    #[verifier::opaque]
    pub open spec fn sound(self) -> bool {
        &&& self.module.ports.len() <= u32::MAX
        &&& self.inlets.len() == self.source.signals.len()
        &&& self.memory_signals.len() == self.source.signals.len()
        &&& forall|p: int| 0 <= p < self.module.ports.len() ==> #[trigger] self.port_ok(p)
        &&& forall|s: int|
            0 <= s < self.inlets.len() && (#[trigger] self.inlets[s]) is Some ==> belongs(
                self.module,
                self.inlets[s]->0,
                true,
            ) && exists|k: int| #[trigger] self.binds_signal(k, s)
        &&& forall|s: int, t: int|
            0 <= s < t < self.inlets.len() && (#[trigger] self.inlets[s]) is Some ==> (
            #[trigger] self.inlets[t]) != self.inlets[s]
        &&& forall|s: int|
            0 <= s < self.memory_signals.len() && (#[trigger] self.memory_signals[s]) is Some
                ==> self.memory_signals[s]->0.raw < self.module.signals.len()
                && !(self.module.signals[self.memory_signals[s]->0.raw as int].kind is Port)
        &&& forall|s: int, t: int|
            0 <= s < t < self.memory_signals.len() && (#[trigger] self.memory_signals[s]) is Some
                ==> (#[trigger] self.memory_signals[t]) != self.memory_signals[s]
        &&& forall|k: int|
            0 <= k < self.bindings.len() ==> #[trigger] self.binding_ok(k)
        &&& forall|j: int, k: int|
            j < k && #[trigger] self.binds_operation(j) && #[trigger] self.binds_operation(k)
                ==> self.inlet_of(j) != self.inlet_of(k)
        &&& forall|s: int, k: int|
            0 <= s < self.inlets.len() && (#[trigger] self.inlets[s]) is Some
                && #[trigger] self.binds_operation(k) ==> self.inlets[s]->0 != self.inlet_of(k)
        &&& forall|i: int| 0 <= i < self.leaves.len() ==> #[trigger] self.leaf_rests(i)
        &&& forall|i: int, j: int|
            0 <= i < j < self.leaves.len() && self.source.kind(
                (#[trigger] self.leaves[i]).0,
            ) is Constant && self.source.kind((#[trigger] self.leaves[j]).0) is Constant
                ==> self.leaves[i].1 != self.leaves[j].1
        &&& forall|c: int|
            0 <= c < self.module.connects.len() ==> belongs(
                self.module,
                (#[trigger] self.module.connects[c]).target.signal,
                false,
            )
    }
}

proof fn lemma_reads_run(before: ModuleView, after: ModuleView, local: ValueId, run: SignalRef)
    requires
        before.wf(),
        before.widens_to(after),
        reads_run(before, local, run),
    ensures
        reads_run(after, local, run),
{
    assert(after.values[local.raw as int] == before.values[local.raw as int]);
    assert(before.value_ok(local.raw as int));
    if before.kind(local) != KindView::Signal(run) {
        let (read, kind, target) = choose|read: ValueId, kind: CastKind, target: WordType|
            read.raw < local.raw && before.op_of(local) == Some(
                OpView::Cast { kind, value: read, target },
            ) && #[trigger] before.kind(read) == KindView::Signal(run) && target.width == run.width
                && #[trigger] recasts(kind, target);
        assert(after.values[read.raw as int] == before.values[read.raw as int]);
        assert(after.kind(read) == KindView::Signal(run));
        assert(recasts(kind, target));
        let operation = before.kind(local)->Operation_0;
        assert(after.operations[operation.raw as int] == before.operations[operation.raw as int]);
    }
}

proof fn lemma_belongs(before: ModuleView, after: ModuleView, signal: SignalId, input: bool)
    requires
        before.widens_to(after),
        before.ports.len() <= after.ports.len(),
        forall|p: int| 0 <= p < before.ports.len() ==> #[trigger] after.ports[p] == before.ports[p],
        belongs(before, signal, input),
    ensures
        belongs(after, signal, input),
{
    assert(after.signals[signal.raw as int] == before.signals[signal.raw as int]);
    let port = before.signals[signal.raw as int].kind->Port_0;
    assert(after.ports[port.raw as int] == before.ports[port.raw as int]);
}

/// The border grew: ports were appended, and leaves and bindings were.
pub open spec fn extends(before: Interface, after: Interface) -> bool {
    &&& after.source == before.source
    &&& before.module.wf()
    &&& before.module.widens_to(after.module)
    &&& before.module.ports.len() <= after.module.ports.len()
    &&& forall|p: int|
        0 <= p < before.module.ports.len() ==> #[trigger] after.module.ports[p]
            == before.module.ports[p]
    &&& before.leaves.len() <= after.leaves.len()
    &&& forall|i: int|
        0 <= i < before.leaves.len() ==> #[trigger] after.leaves[i] == before.leaves[i]
    &&& before.bindings.len() <= after.bindings.len()
    &&& forall|k: int|
        0 <= k < before.bindings.len() ==> #[trigger] after.bindings[k] == before.bindings[k]
    &&& before.inlets.len() == after.inlets.len()
    &&& forall|s: int|
        0 <= s < before.inlets.len() && before.inlets[s] is Some ==> #[trigger] after.inlets[s]
            == before.inlets[s]
    &&& before.memory_signals.len() == after.memory_signals.len()
    &&& forall|s: int|
        0 <= s < before.memory_signals.len() && before.memory_signals[s] is Some
            ==> #[trigger] after.memory_signals[s] == before.memory_signals[s]
}

/// What was in order stays so while the border grows.
proof fn lemma_extends(before: Interface, after: Interface)
    requires
        before.sound(),
        extends(before, after),
        before.source.wf(),
    ensures
        forall|k: int|
            0 <= k < before.bindings.len() ==> #[trigger] after.binding_ok(k)
                && (before.binds_operation(k) ==> after.binds_operation(k) && after.inlet_of(k)
                == before.inlet_of(k)),
        forall|p: int| 0 <= p < before.module.ports.len() ==> #[trigger] after.port_ok(p),
        forall|i: int| 0 <= i < before.leaves.len() ==> #[trigger] after.leaf_rests(i),
        forall|s: int|
            0 <= s < before.inlets.len() && before.inlets[s] is Some ==> belongs(
                after.module,
                (#[trigger] after.inlets[s])->0,
                true,
            ) && exists|k: int| #[trigger] after.binds_signal(k, s),
        forall|s: int|
            0 <= s < before.memory_signals.len() && before.memory_signals[s] is Some ==> (
            #[trigger] after.memory_signals[s])->0.raw < after.module.signals.len()
                && !(after.module.signals[after.memory_signals[s]->0.raw as int].kind is Port),
{
    reveal(Interface::sound);
    let a = before.module;
    let b = after.module;
    assert forall|k: int| 0 <= k < before.bindings.len() implies #[trigger] after.binding_ok(k) && (
    before.binds_operation(k) ==> after.binds_operation(k) && after.inlet_of(k) == before.inlet_of(
        k,
    )) by {
        assert(before.binding_ok(k));
        assert(after.bindings[k] == before.bindings[k]);
        let (value, local) = before.bindings[k];
        match before.source.kind(value) {
            KindView::Constant(_) => {},
            KindView::Signal(reference) => {
                assert(before.source.value_ok(value.raw as int));
                let s = reference.signal.raw as int;
                assert(after.inlets[s] == before.inlets[s]);
                lemma_reads_run(
                    a,
                    b,
                    local,
                    SignalRef {
                        signal: before.inlets[s]->0,
                        lsb: reference.lsb,
                        width: reference.width,
                    },
                );
            },
            KindView::Operation(_) => {
                assert(b.values[local.raw as int] == a.values[local.raw as int]);
                lemma_belongs(a, b, before.inlet_of(k), true);
            },
        }
    }
    assert forall|p: int| 0 <= p < a.ports.len() implies #[trigger] after.port_ok(p) by {
        assert(before.port_ok(p));
        assert(b.ports[p] == a.ports[p]);
        assert(b.signals[a.ports[p].signal.raw as int] == a.signals[a.ports[p].signal.raw as int]);
        if a.ports[p].direction is Input {
            if exists|s: int|
                0 <= s < before.inlets.len() && #[trigger] before.inlets[s] == Some(
                    a.ports[p].signal,
                ) {
                let s = choose|s: int|
                    0 <= s < before.inlets.len() && #[trigger] before.inlets[s] == Some(
                        a.ports[p].signal,
                    );
                assert(after.inlets[s] == before.inlets[s]);
            } else {
                let k = choose|k: int| #[trigger]
                    before.binds_operation(k) && before.inlet_of(k) == a.ports[p].signal;
                assert(after.binding_ok(k));
                assert(after.binds_operation(k));
            }
        }
    }
    assert forall|i: int| 0 <= i < before.leaves.len() implies #[trigger] after.leaf_rests(i) by {
        assert(before.leaf_rests(i));
        assert(after.leaves[i] == before.leaves[i]);
        let (value, local) = before.leaves[i];
        if !(before.source.kind(value) is Constant) {
            if exists|k: int| 0 <= k < before.bindings.len() && #[trigger] before.bindings[k]
                == before.leaves[i] {
                let k = choose|k: int| 0 <= k < before.bindings.len()
                    && #[trigger] before.bindings[k] == before.leaves[i];
                assert(after.bindings[k] == after.leaves[i]);
            } else {
                let reference = before.source.kind(value)->Signal_0;
                assert(before.source.value_ok(value.raw as int));
                let s = reference.signal.raw as int;
                assert(after.memory_signals[s] == before.memory_signals[s]);
                lemma_reads_run(
                    a,
                    b,
                    local,
                    SignalRef {
                        signal: before.memory_signals[s]->0,
                        lsb: reference.lsb,
                        width: reference.width,
                    },
                );
            }
        }
    }
    assert forall|s: int| 0 <= s < before.inlets.len() && before.inlets[s] is Some implies belongs(
        b,
        (#[trigger] after.inlets[s])->0,
        true,
    ) && exists|k: int| #[trigger] after.binds_signal(k, s) by {
        assert(after.inlets[s] == before.inlets[s]);
        lemma_belongs(a, b, before.inlets[s]->0, true);
        let k = choose|k: int| #[trigger] before.binds_signal(k, s);
        assert(after.bindings[k] == before.bindings[k]);
        assert(after.binds_signal(k, s));
    }
    assert forall|s: int|
        0 <= s < before.memory_signals.len() && before.memory_signals[s] is Some implies (
    #[trigger] after.memory_signals[s])->0.raw < b.signals.len()
        && !(b.signals[after.memory_signals[s]->0.raw as int].kind is Port) by {
        assert(after.memory_signals[s] == before.memory_signals[s]);
        let raw = before.memory_signals[s]->0.raw as int;
        assert(b.signals[raw] == a.signals[raw]);
    }
}

proof fn lemma_connects(before: Interface, after: Interface)
    requires
        before.sound(),
        extends(before, after),
        after.module.connects == before.module.connects,
    ensures
        forall|c: int|
            0 <= c < after.module.connects.len() ==> belongs(
                after.module,
                (#[trigger] after.module.connects[c]).target.signal,
                false,
            ),
{
    reveal(Interface::sound);
    assert forall|c: int| 0 <= c < after.module.connects.len() implies belongs(
        after.module,
        (#[trigger] after.module.connects[c]).target.signal,
        false,
    ) by {
        assert(belongs(before.module, before.module.connects[c].target.signal, false));
        lemma_belongs(before.module, after.module, before.module.connects[c].target.signal, false);
    }
}

/// Values that are appended leave the border in order.
pub proof fn lemma_interface_grows(before: Interface, after: Interface)
    requires
        before.sound(),
        before.source.wf(),
        before.module.wf(),
        before.module.widens_to(after.module),
        after.module.ports == before.module.ports,
        after.module.connects == before.module.connects,
        after == (Interface { module: after.module, ..before }),
    ensures
        after.sound(),
{
    lemma_extends(before, after);
    lemma_connects(before, after);
    reveal(Interface::sound);
    assert forall|k: int| 0 <= k < after.bindings.len() implies #[trigger] after.binding_ok(k) by {
        assert(before.binding_ok(k));
    }
    assert forall|j: int, k: int|
        j < k && #[trigger] after.binds_operation(j) && #[trigger] after.binds_operation(
            k,
        ) implies after.inlet_of(j) != after.inlet_of(k) by {
        assert(before.binds_operation(j) && before.binds_operation(k));
        assert(after.binding_ok(j) && after.binding_ok(k));
    }
    assert forall|s: int, k: int|
        0 <= s < after.inlets.len() && (#[trigger] after.inlets[s]) is Some
            && #[trigger] after.binds_operation(k) implies after.inlets[s]->0 != after.inlet_of(
        k,
    ) by {
        assert(before.binds_operation(k));
        assert(before.inlets[s] is Some);
        assert(after.binding_ok(k));
    }
}

/// A read of a signal is bound, through the signal's input.
pub proof fn lemma_signal_bound(
    before: Interface,
    after: Interface,
    value: ValueId,
    local: ValueId,
    reference: SignalRef,
    signal: SignalId,
)
    requires
        before.sound(),
        before.source.wf(),
        before.source.has(value),
        before.source.kind(value) == KindView::Signal(reference),
        extends(before, after),
        after.module.connects == before.module.connects,
        after.memory_signals == before.memory_signals,
        after.leaves == before.leaves.push((value, local)),
        after.bindings == before.bindings.push((value, local)),
        after.inlets == before.inlets.update(reference.signal.raw as int, Some(signal)),
        reads_run(
            after.module,
            local,
            SignalRef { signal, lsb: reference.lsb, width: reference.width },
        ),
        if before.inlets[reference.signal.raw as int] is Some {
            before.inlets[reference.signal.raw as int] == Some(signal) && after.module.ports
                == before.module.ports
        } else {
            &&& after.module.ports.len() <= u32::MAX
            &&& after.module.ports.len() == before.module.ports.len() + 1
            &&& after.module.ports.last().direction is Input
            &&& after.module.ports.last().signal == signal
            &&& signal.raw == before.module.signals.len()
            &&& signal.raw < after.module.signals.len()
            &&& after.module.signals[signal.raw as int].kind == SignalKind::Port(
                PortId { raw: before.module.ports.len() as u32 },
            )
        },
    ensures
        after.sound(),
{
    assert(before.source.value_ok(value.raw as int));
    lemma_extends(before, after);
    lemma_connects(before, after);
    reveal(Interface::sound);
    let s0 = reference.signal.raw as int;
    let last = before.bindings.len() as int;
    assert(after.bindings[last] == (value, local));
    assert(after.binds_signal(last, s0));
    assert(after.inlets[s0] == Some(signal));
    assert forall|k: int| 0 <= k < after.bindings.len() implies #[trigger] after.binding_ok(k) by {
        if k < last {
            assert(before.binding_ok(k));
        }
    }
    assert forall|p: int| 0 <= p < after.module.ports.len() implies #[trigger] after.port_ok(p) by {
        if p < before.module.ports.len() {
            assert(before.port_ok(p));
        } else {
            assert(after.inlets[s0] == Some(after.module.ports[p].signal));
        }
    }
    assert forall|k: int| #[trigger] after.binds_operation(k) implies before.binds_operation(k)
        && after.inlet_of(k) == before.inlet_of(k) && after.inlet_of(k).raw
        < before.module.signals.len() by {
        assert(k < last);
        assert(after.bindings[k] == before.bindings[k]);
        assert(before.binds_operation(k));
        assert(after.binding_ok(k));
        assert(before.binding_ok(k));
    }
    assert forall|s: int| 0 <= s < after.inlets.len() && (#[trigger] after.inlets[s]) is Some implies belongs(
        after.module,
        after.inlets[s]->0,
        true,
    ) && exists|k: int| #[trigger] after.binds_signal(k, s) by {
        if s != s0 {
            assert(before.inlets[s] is Some);
        } else if before.inlets[s0] is Some {
            assert(belongs(after.module, after.inlets[s0]->0, true));
        }
    }
    assert forall|s: int, t: int|
        0 <= s < t < after.inlets.len() && (#[trigger] after.inlets[s]) is Some implies (
    #[trigger] after.inlets[t]) != after.inlets[s] by {
        assert(before.inlets[s] is Some ==> before.inlets[s]->0.raw < before.module.signals.len());
        assert(before.inlets[t] is Some ==> before.inlets[t]->0.raw < before.module.signals.len());
    }
    assert forall|s: int, k: int|
        0 <= s < after.inlets.len() && (#[trigger] after.inlets[s]) is Some
            && #[trigger] after.binds_operation(k) implies after.inlets[s]->0 != after.inlet_of(
        k,
    ) by {
        assert(before.binds_operation(k));
        assert(before.inlets[s] is Some ==> before.inlets[s]->0 != before.inlet_of(k));
    }
    assert forall|j: int, k: int|
        j < k && #[trigger] after.binds_operation(j) && #[trigger] after.binds_operation(
            k,
        ) implies after.inlet_of(j) != after.inlet_of(k) by {
        assert(before.binds_operation(j) && before.binds_operation(k));
    }
    assert forall|i: int| 0 <= i < after.leaves.len() implies #[trigger] after.leaf_rests(i) by {
        if i < before.leaves.len() {
            assert(before.leaf_rests(i));
        } else {
            assert(after.bindings[last] == after.leaves[i]);
        }
    }
    assert forall|s: int|
        0 <= s < after.memory_signals.len() && (#[trigger] after.memory_signals[s]) is Some implies after.memory_signals[s]->0.raw
        < after.module.signals.len() && !(after.module.signals[after.memory_signals[s]->0.raw as int].kind is Port) by {
        assert(before.memory_signals[s] is Some);
    }
}

/// An operation is bound, through an input of its own.
pub proof fn lemma_operation_bound(
    before: Interface,
    after: Interface,
    value: ValueId,
    local: ValueId,
    signal: SignalId,
)
    requires
        before.sound(),
        before.source.wf(),
        before.source.has(value),
        before.source.kind(value) is Operation,
        extends(before, after),
        after.module.connects == before.module.connects,
        after.memory_signals == before.memory_signals,
        after.leaves == before.leaves.push((value, local)),
        after.bindings == before.bindings.push((value, local)),
        after.inlets == before.inlets,
        after.module.has(local),
        after.module.kind(local) == KindView::Signal(
            SignalRef { signal, lsb: 0, width: before.source.ty(value).width },
        ),
        after.module.ports.len() <= u32::MAX,
        after.module.ports.len() == before.module.ports.len() + 1,
        after.module.ports.last().direction is Input,
        after.module.ports.last().signal == signal,
        signal.raw == before.module.signals.len(),
        signal.raw < after.module.signals.len(),
        after.module.signals[signal.raw as int].kind == SignalKind::Port(
            PortId { raw: before.module.ports.len() as u32 },
        ),
    ensures
        after.sound(),
{
    lemma_extends(before, after);
    lemma_connects(before, after);
    reveal(Interface::sound);
    let last = before.bindings.len() as int;
    assert(after.bindings[last] == (value, local));
    assert(after.binds_operation(last));
    assert(after.inlet_of(last) == signal);
    assert forall|k: int| 0 <= k < after.bindings.len() implies #[trigger] after.binding_ok(k) by {
        if k < last {
            assert(before.binding_ok(k));
        }
    }
    assert forall|p: int| 0 <= p < after.module.ports.len() implies #[trigger] after.port_ok(p) by {
        if p < before.module.ports.len() {
            assert(before.port_ok(p));
        }
    }
    assert forall|k: int| #[trigger] after.binds_operation(k) && k < last implies before.binds_operation(
        k,
    ) && after.inlet_of(k) == before.inlet_of(k) && after.inlet_of(k).raw
        < before.module.signals.len() by {
        assert(after.bindings[k] == before.bindings[k]);
        assert(before.binds_operation(k));
        assert(after.binding_ok(k));
        assert(before.binding_ok(k));
    }
    assert forall|s: int| 0 <= s < after.inlets.len() && (#[trigger] after.inlets[s]) is Some implies belongs(
        after.module,
        after.inlets[s]->0,
        true,
    ) && exists|k: int| #[trigger] after.binds_signal(k, s) by {
        assert(before.inlets[s] is Some);
    }
    assert forall|s: int, k: int|
        0 <= s < after.inlets.len() && (#[trigger] after.inlets[s]) is Some
            && #[trigger] after.binds_operation(k) implies after.inlets[s]->0 != after.inlet_of(
        k,
    ) by {
        assert(before.inlets[s]->0.raw < before.module.signals.len());
        if k < last {
            assert(before.binds_operation(k));
        }
    }
    assert forall|j: int, k: int|
        j < k && #[trigger] after.binds_operation(j) && #[trigger] after.binds_operation(
            k,
        ) implies after.inlet_of(j) != after.inlet_of(k) by {
        assert(before.binds_operation(j));
        if k < last {
            assert(before.binds_operation(k));
        }
    }
    assert forall|i: int| 0 <= i < after.leaves.len() implies #[trigger] after.leaf_rests(i) by {
        if i < before.leaves.len() {
            assert(before.leaf_rests(i));
        } else {
            assert(after.bindings[last] == after.leaves[i]);
        }
    }
    assert forall|s: int|
        0 <= s < after.memory_signals.len() && (#[trigger] after.memory_signals[s]) is Some implies after.memory_signals[s]->0.raw
        < after.module.signals.len() && !(after.module.signals[after.memory_signals[s]->0.raw as int].kind is Port) by {
        assert(before.memory_signals[s] is Some);
    }
}

/// A leaf that is no binding is a new constant or reads a memory.
pub proof fn lemma_leaf_rests(
    before: Interface,
    after: Interface,
    value: ValueId,
    local: ValueId,
)
    requires
        before.sound(),
        after.module.wf(),
        before.source.wf(),
        before.source.has(value),
        extends(before, after),
        after.module.connects == before.module.connects,
        after.module.ports == before.module.ports,
        after.memory_signals == before.memory_signals,
        after.leaves == before.leaves.push((value, local)),
        after.bindings == before.bindings,
        after.inlets == before.inlets,
        before.source.kind(value) is Constant || (before.source.kind(value) is Signal && {
            let reference = before.source.kind(value)->Signal_0;
            before.memory_signals[reference.signal.raw as int] is Some && reads_run(
                after.module,
                local,
                SignalRef {
                    signal: before.memory_signals[reference.signal.raw as int]->0,
                    lsb: reference.lsb,
                    width: reference.width,
                },
            )
        }),
        before.source.kind(value) is Constant ==> forall|i: int|
            0 <= i < before.leaves.len() ==> (#[trigger] before.leaves[i]).1 != local,
    ensures
        after.sound(),
{
    let middle = Interface { module: after.module, ..before };
    assert(middle.bindings =~= after.bindings);
    lemma_interface_grows(before, middle);
    lemma_extends(middle, after);
    reveal(Interface::sound);
    assert forall|k: int| 0 <= k < after.bindings.len() implies #[trigger] after.binding_ok(k) by {
        assert(middle.binding_ok(k));
    }
    assert forall|p: int| 0 <= p < after.module.ports.len() implies #[trigger] after.port_ok(p) by {
        assert(middle.port_ok(p));
    }
    assert forall|i: int| 0 <= i < after.leaves.len() implies #[trigger] after.leaf_rests(i) by {
        if i < before.leaves.len() {
            assert(middle.leaf_rests(i));
        }
    }
    assert forall|j: int, k: int|
        j < k && #[trigger] after.binds_operation(j) && #[trigger] after.binds_operation(
            k,
        ) implies after.inlet_of(j) != after.inlet_of(k) by {
        assert(middle.binds_operation(j) && middle.binds_operation(k));
    }
    assert forall|s: int, k: int|
        0 <= s < after.inlets.len() && (#[trigger] after.inlets[s]) is Some
            && #[trigger] after.binds_operation(k) implies after.inlets[s]->0 != after.inlet_of(
        k,
    ) by {
        assert(middle.binds_operation(k));
        assert(middle.inlets[s] is Some);
    }
    assert forall|s: int| 0 <= s < after.inlets.len() && (#[trigger] after.inlets[s]) is Some implies belongs(
        after.module,
        after.inlets[s]->0,
        true,
    ) && exists|k: int| #[trigger] after.binds_signal(k, s) by {
        assert(middle.inlets[s] is Some);
    }
    assert forall|i: int, j: int|
        0 <= i < j < after.leaves.len() && after.source.kind(
            (#[trigger] after.leaves[i]).0,
        ) is Constant && after.source.kind(
            (#[trigger] after.leaves[j]).0,
        ) is Constant implies after.leaves[i].1 != after.leaves[j].1 by {
        assert(after.leaves[i] == before.leaves[i]);
        if j < before.leaves.len() {
            assert(after.leaves[j] == before.leaves[j]);
        }
    }
}

/// A signal that a memory is read into is no port.
pub proof fn lemma_memory_signal(before: Interface, after: Interface, s: int, signal: SignalId)
    requires
        before.sound(),
        before.source.wf(),
        before.module.wf(),
        before.leaves.len() == 0,
        before.module.widens_to(after.module),
        after.module.ports == before.module.ports,
        after.module.connects == before.module.connects,
        after == (Interface {
            module: after.module,
            memory_signals: before.memory_signals.update(s, Some(signal)),
            ..before
        }),
        0 <= s < before.memory_signals.len(),
        signal.raw == before.module.signals.len(),
        signal.raw < after.module.signals.len(),
        !(after.module.signals[signal.raw as int].kind is Port),
    ensures
        after.sound(),
{
    let middle = Interface { module: after.module, ..before };
    lemma_interface_grows(before, middle);
    reveal(Interface::sound);
    assert forall|k: int| 0 <= k < after.bindings.len() implies #[trigger] after.binding_ok(k) by {
        assert(middle.binding_ok(k));
    }
    assert forall|p: int| 0 <= p < after.module.ports.len() implies #[trigger] after.port_ok(p) by {
        assert(middle.port_ok(p));
        if after.module.ports[p].direction is Input {
            if !(exists|t: int|
                0 <= t < after.inlets.len() && #[trigger] after.inlets[t] == Some(
                    after.module.ports[p].signal,
                )) {
                let k = choose|k: int| #[trigger]
                    middle.binds_operation(k) && middle.inlet_of(k) == after.module.ports[p].signal;
                assert(after.binds_operation(k));
            }
        }
    }
    assert forall|j: int, k: int|
        j < k && #[trigger] after.binds_operation(j) && #[trigger] after.binds_operation(
            k,
        ) implies after.inlet_of(j) != after.inlet_of(k) by {
        assert(middle.binds_operation(j) && middle.binds_operation(k));
    }
    assert forall|t: int, k: int|
        0 <= t < after.inlets.len() && (#[trigger] after.inlets[t]) is Some
            && #[trigger] after.binds_operation(k) implies after.inlets[t]->0 != after.inlet_of(
        k,
    ) by {
        assert(middle.binds_operation(k));
        assert(middle.inlets[t] is Some);
    }
    assert forall|t: int| 0 <= t < after.inlets.len() && (#[trigger] after.inlets[t]) is Some implies belongs(
        after.module,
        after.inlets[t]->0,
        true,
    ) && exists|k: int| #[trigger] after.binds_signal(k, t) by {
        assert(middle.inlets[t] is Some);
        let k = choose|k: int| #[trigger] middle.binds_signal(k, t);
        assert(after.binds_signal(k, t));
    }
    assert forall|t: int, u: int|
        0 <= t < u < after.memory_signals.len() && (#[trigger] after.memory_signals[t]) is Some implies (
    #[trigger] after.memory_signals[u]) != after.memory_signals[t] by {
        assert(before.memory_signals[t] is Some ==> before.memory_signals[t]->0.raw
            < before.module.signals.len());
        assert(before.memory_signals[u] is Some ==> before.memory_signals[u]->0.raw
            < before.module.signals.len());
    }
    assert forall|t: int|
        0 <= t < after.memory_signals.len() && (#[trigger] after.memory_signals[t]) is Some implies after.memory_signals[t]->0.raw
        < after.module.signals.len() && !(after.module.signals[after.memory_signals[t]->0.raw as int].kind is Port) by {
        assert(t != s ==> middle.memory_signals[t] is Some);
    }
}

/// An output is added.
pub proof fn lemma_outlet(before: Interface, after: Interface, signal: SignalId)
    requires
        before.sound(),
        before.source.wf(),
        before.module.wf(),
        extends(before, after),
        after == (Interface { module: after.module, ..before }),
        after.module.ports.len() <= u32::MAX,
        after.module.ports.len() == before.module.ports.len() + 1,
        after.module.ports.last().direction is Output,
        after.module.ports.last().signal == signal,
        signal.raw < after.module.signals.len(),
        after.module.signals[signal.raw as int].kind == SignalKind::Port(
            PortId { raw: before.module.ports.len() as u32 },
        ),
        after.module.connects == before.module.connects,
    ensures
        after.sound(),
{
    lemma_extends(before, after);
    lemma_connects(before, after);
    reveal(Interface::sound);
    assert forall|k: int| 0 <= k < after.bindings.len() implies #[trigger] after.binding_ok(k) by {
        assert(before.binding_ok(k));
    }
    assert forall|p: int| 0 <= p < after.module.ports.len() implies #[trigger] after.port_ok(p) by {
        if p < before.module.ports.len() {
            assert(before.port_ok(p));
        }
    }
    assert forall|j: int, k: int|
        j < k && #[trigger] after.binds_operation(j) && #[trigger] after.binds_operation(
            k,
        ) implies after.inlet_of(j) != after.inlet_of(k) by {
        assert(before.binds_operation(j) && before.binds_operation(k));
        assert(after.binding_ok(j) && after.binding_ok(k));
    }
    assert forall|s: int, k: int|
        0 <= s < after.inlets.len() && (#[trigger] after.inlets[s]) is Some
            && #[trigger] after.binds_operation(k) implies after.inlets[s]->0 != after.inlet_of(
        k,
    ) by {
        assert(before.binds_operation(k));
        assert(before.inlets[s] is Some);
        assert(after.binding_ok(k));
    }
    assert forall|s: int| 0 <= s < after.inlets.len() && (#[trigger] after.inlets[s]) is Some implies belongs(
        after.module,
        after.inlets[s]->0,
        true,
    ) && exists|k: int| #[trigger] after.binds_signal(k, s) by {
        assert(before.inlets[s] is Some);
    }
    assert forall|s: int|
        0 <= s < after.memory_signals.len() && (#[trigger] after.memory_signals[s]) is Some implies after.memory_signals[s]->0.raw
        < after.module.signals.len() && !(after.module.signals[after.memory_signals[s]->0.raw as int].kind is Port) by {
        assert(before.memory_signals[s] is Some);
    }
}

/// An output is connected.
pub proof fn lemma_connected(before: Interface, after: Interface)
    requires
        before.sound(),
        before.source.wf(),
        before.module.wf(),
        after == (Interface { module: after.module, ..before }),
        after.module == before.module.push_connect(after.module.connects.last()),
        after.module.connects.len() > 0,
        belongs(before.module, after.module.connects.last().target.signal, false),
    ensures
        after.sound(),
{
    let middle = Interface {
        module: ModuleView { connects: before.module.connects, ..after.module },
        ..before
    };
    assert(middle.module == before.module);
    reveal(Interface::sound);
    assert forall|c: int| 0 <= c < after.module.connects.len() implies belongs(
        after.module,
        (#[trigger] after.module.connects[c]).target.signal,
        false,
    ) by {
        if c < before.module.connects.len() {
            assert(after.module.connects[c] == before.module.connects[c]);
            assert(belongs(before.module, before.module.connects[c].target.signal, false));
        }
    }
    assert forall|k: int| 0 <= k < after.bindings.len() implies #[trigger] after.binding_ok(k) by {
        assert(before.binding_ok(k));
        let (value, local) = before.bindings[k];
        if let KindView::Signal(reference) = before.source.kind(value) {
            lemma_reads_run(
                before.module,
                after.module,
                local,
                SignalRef {
                    signal: before.inlets[reference.signal.raw as int]->0,
                    lsb: reference.lsb,
                    width: reference.width,
                },
            );
        }
    }
    assert forall|k: int| #[trigger] after.binds_operation(k) implies before.binds_operation(k)
        && after.inlet_of(k) == before.inlet_of(k) by {}
    assert forall|p: int| 0 <= p < after.module.ports.len() implies #[trigger] after.port_ok(p) by {
        assert(before.port_ok(p));
        if after.module.ports[p].direction is Input {
            if !(exists|s: int|
                0 <= s < after.inlets.len() && #[trigger] after.inlets[s] == Some(
                    after.module.ports[p].signal,
                )) {
                let k = choose|k: int| #[trigger]
                    before.binds_operation(k) && before.inlet_of(k) == after.module.ports[p].signal;
                assert(after.binds_operation(k));
            }
        }
    }
    assert forall|s: int| 0 <= s < after.inlets.len() && (#[trigger] after.inlets[s]) is Some implies belongs(
        after.module,
        after.inlets[s]->0,
        true,
    ) && exists|k: int| #[trigger] after.binds_signal(k, s) by {
        assert(before.inlets[s] is Some);
        let k = choose|k: int| #[trigger] before.binds_signal(k, s);
        assert(after.binds_signal(k, s));
    }
    assert forall|i: int| 0 <= i < after.leaves.len() implies #[trigger] after.leaf_rests(i) by {
        assert(before.leaf_rests(i));
        let (value, local) = before.leaves[i];
        if let KindView::Signal(reference) = before.source.kind(value) {
            let run = SignalRef {
                signal: before.memory_signals[reference.signal.raw as int]->0,
                lsb: reference.lsb,
                width: reference.width,
            };
            if reads_run(before.module, local, run) {
                lemma_reads_run(before.module, after.module, local, run);
            }
        }
    }
}

/// What an input carries: the signal that it stands for, or the word of the operation.
pub open spec fn carried(border: Interface, outer: Env, signal: int, bit: int) -> bool {
    let id = SignalId { raw: signal as u32 };
    if exists|s: int| 0 <= s < border.inlets.len() && #[trigger] border.inlets[s] == Some(id) {
        let s = choose|s: int| 0 <= s < border.inlets.len() && #[trigger] border.inlets[s] == Some(id);
        (outer.signal)(s, bit)
    } else if exists|k: int| #[trigger] border.binds_operation(k) && border.inlet_of(k) == id {
        let k = choose|k: int| #[trigger] border.binds_operation(k) && border.inlet_of(k) == id;
        word_of(border.source, outer, border.bindings[k].0)[bit]
    } else {
        let s = choose|s: int|
            0 <= s < border.memory_signals.len() && #[trigger] border.memory_signals[s] == Some(id);
        (outer.signal)(s, bit)
    }
}

/// What an unknown bit of a constant is.
pub open spec fn carried_unknown(border: Interface, outer: Env, local: int, bit: int) -> bool {
    let i = choose|i: int|
        0 <= i < border.leaves.len() && border.source.kind(
            (#[trigger] border.leaves[i]).0,
        ) is Constant && border.leaves[i].1.raw == local;
    (outer.unknown)(border.leaves[i].0.raw as int, bit)
}

/// An environment of the source, as the local module sees it.
pub open spec fn inner_env(border: Interface, outer: Env) -> Env {
    Env {
        signal: |signal: int, bit: int| carried(border, outer, signal, bit),
        state: outer.state,
        unknown: |local: int, bit: int| carried_unknown(border, outer, local, bit),
    }
}

proof fn lemma_run_word(module: ModuleView, env: Env, local: ValueId, run: SignalRef)
    requires
        module.wf(),
        reads_run(module, local, run),
    ensures
        word_of(module, env, local) == Seq::new(
            run.width as nat,
            |i: int| (env.signal)(run.signal.raw as int, run.lsb + i),
        ),
{
    assert(module.value_ok(local.raw as int));
    let word = Seq::new(
        run.width as nat,
        |i: int| (env.signal)(run.signal.raw as int, run.lsb + i),
    );
    if module.kind(local) != KindView::Signal(run) {
        let (read, kind, target) = choose|read: ValueId, kind: CastKind, target: WordType|
            read.raw < local.raw && module.op_of(local) == Some(
                OpView::Cast { kind, value: read, target },
            ) && #[trigger] module.kind(read) == KindView::Signal(run) && target.width == run.width
                && #[trigger] recasts(kind, target);
        assert(eval(module, env, read.raw as int) =~= word);
        assert(eval(module, env, local.raw as int) =~= word);
    }
}

/// The words of a leaf are the same on both sides.
proof fn lemma_leaf_word(border: Interface, x: Import, outer: Env, i: int)
    requires
        border.sound(),
        border.source.wf(),
        border.module.wf(),
        x.source == border.source,
        x.module == border.module,
        x.leaves == border.leaves,
        leaves_ok(x),
        0 <= i < x.leaves.len(),
    ensures
        word_of(x.module, inner_env(border, outer), x.leaves[i].1) == word_of(
            x.source,
            outer,
            x.leaves[i].0,
        ),
{
    reveal(Interface::sound);
    let (value, local) = border.leaves[i];
    let env = inner_env(border, outer);
    let module = border.module;
    let source = border.source;
    assert(border.leaf_rests(i));
    assert(leaf_ok(x, i));
    assert(source.value_ok(value.raw as int));
    match source.kind(value) {
        KindView::Constant(bits) => {
            assert(eval(module, env, local.raw as int) =~= eval(source, outer, value.raw as int)) by {
                assert forall|bit: int| #[trigger]
                    carried_unknown(border, outer, local.raw as int, bit) == (outer.unknown)(value.raw as int, bit) by {
                    let j = choose|j: int|
                        0 <= j < border.leaves.len() && border.source.kind(
                            (#[trigger] border.leaves[j]).0,
                        ) is Constant && border.leaves[j].1.raw == local.raw;
                    assert(border.leaves[i].1.raw == local.raw);
                    assert(j == i);
                }
                assert(constant_value(bits, env, local.raw as int) =~= constant_value(
                    bits,
                    outer,
                    value.raw as int,
                ));
            }
        },
        KindView::Signal(reference) => {
            let s = reference.signal.raw as int;
            let bound = exists|k: int| 0 <= k < border.bindings.len()
                && #[trigger] border.bindings[k] == border.leaves[i];
            let signal = if bound {
                border.inlets[s]->0
            } else {
                border.memory_signals[s]->0
            };
            let run = SignalRef { signal, lsb: reference.lsb, width: reference.width };
            if bound {
                let k = choose|k: int| 0 <= k < border.bindings.len()
                    && #[trigger] border.bindings[k] == border.leaves[i];
                assert(border.binding_ok(k));
                assert(border.inlets[s] == Some(signal));
                let t = choose|t: int|
                    0 <= t < border.inlets.len() && #[trigger] border.inlets[t] == Some(signal);
                assert(t == s);
            } else {
                assert(border.memory_signals[s] == Some(signal));
                assert(!(module.signals[signal.raw as int].kind is Port));
                let t = choose|t: int|
                    0 <= t < border.memory_signals.len() && #[trigger] border.memory_signals[t]
                        == Some(signal);
                assert(t == s);
                assert forall|u: int| 0 <= u < border.inlets.len() implies #[trigger] border.inlets[u]
                    != Some(signal) by {
                    if border.inlets[u] is Some {
                        assert(belongs(module, border.inlets[u]->0, true));
                    }
                }
                assert forall|k: int| #[trigger] border.binds_operation(k) implies border.inlet_of(k)
                    != signal by {
                    assert(border.binding_ok(k));
                }
            }
            assert(SignalId { raw: signal.raw as int as u32 } == signal);
            lemma_run_word(module, env, local, run);
            assert forall|bit: int| #[trigger]
                carried(border, outer, signal.raw as int, bit) == (outer.signal)(s, bit) by {}
            assert(word_of(module, env, local) =~= word_of(source, outer, value));
        },
        KindView::Operation(_) => {
            let k = choose|k: int| 0 <= k < border.bindings.len() && #[trigger] border.bindings[k]
                == border.leaves[i];
            assert(border.binding_ok(k));
            assert(border.binds_operation(k));
            let signal = border.inlet_of(k);
            assert(SignalId { raw: signal.raw as int as u32 } == signal);
            assert forall|u: int| 0 <= u < border.inlets.len() implies #[trigger] border.inlets[u]
                != Some(signal) by {
                if border.inlets[u] is Some {
                    assert(border.inlets[u]->0 != border.inlet_of(k));
                }
            }
            let j = choose|j: int| #[trigger]
                border.binds_operation(j) && border.inlet_of(j) == signal;
            assert(j == k);
            lemma_eval_width(source, outer, value.raw as int);
            assert forall|bit: int| #[trigger]
                carried(border, outer, signal.raw as int, bit) == word_of(source, outer, value)[bit] by {}
            assert(word_of(module, env, local) =~= word_of(source, outer, value));
        },
    }
}

/// Whatever the source carries, the border of the local module can carry.
pub proof fn lemma_links(border: Interface, x: Import, outer: Env)
    requires
        border.sound(),
        border.source.wf(),
        border.module.wf(),
        x.source == border.source,
        x.module == border.module,
        x.leaves == border.leaves,
        leaves_ok(x),
        driven(x.source, outer),
        known_holds(x.source, x.known, outer),
    ensures
        linked(x, outer, inner_env(border, outer)),
{
    reveal(linked);
    assert forall|i: int| 0 <= i < x.leaves.len() implies word_of(
        x.module,
        inner_env(border, outer),
        (#[trigger] x.leaves[i]).1,
    ) == word_of(x.source, outer, x.leaves[i].0) by {
        lemma_leaf_word(border, x, outer, i);
    }
}

} // verus!
