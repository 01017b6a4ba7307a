//! Checking that a module is well formed.

use super::module::{ValueKind, WordModule};
use super::types::{op_inputs, operation_inputs};
use vstd::prelude::*;

verus! {

impl WordModule {
    fn value_fits(&self, i: usize) -> (fits: bool)
        requires
            i < self@.values.len(),
        ensures
            fits == self@.value_ok(i as int),
    {
        let value = &self.values[i];
        if value.ty.width < 1 {
            return false;
        }
        match &value.kind {
            ValueKind::Constant(bits) => bits.bits.len() == value.ty.width as usize,
            ValueKind::Signal(reference) => {
                if reference.width != value.ty.width || reference.width < 1
                    || reference.signal.raw as usize >= self.signals.len() {
                    return false;
                }
                reference.lsb as u64 + reference.width as u64
                    <= self.signals[reference.signal.raw as usize].ty.width as u64
            },
            ValueKind::Operation(operation) => {
                if operation.raw as usize >= self.operations.len() {
                    return false;
                }
                self.operations[operation.raw as usize].result.raw as usize == i
            },
        }
    }

    fn operation_fits(&self, i: usize) -> (fits: bool)
        requires
            i < self@.operations.len(),
        ensures
            fits == self@.operation_ok(i as int),
    {
        let operation = &self.operations[i];
        let result = operation.result;
        if result.raw as usize >= self.values.len() {
            return false;
        }
        let inputs = operation_inputs(&operation.kind);
        let ghost view = self@.operations[i as int].kind;
        let mut k: usize = 0;
        while k < inputs.len()
            invariant
                k <= inputs@.len(),
                inputs@ == op_inputs(view),
                view == self@.operations[i as int].kind,
                i < self@.operations.len(),
                result == self@.operations[i as int].result,
                forall|j: int| 0 <= j < k ==> (#[trigger] inputs@[j]).raw < result.raw,
            decreases inputs.len() - k,
        {
            if inputs[k].raw >= result.raw {
                assert(op_inputs(view)[k as int].raw >= result.raw);
                return false;
            }
            k += 1;
        }
        assert(self@.inputs_below(view, result.raw as int));
        self.op_fits(&operation.kind, self.values[result.raw as usize].ty)
    }

    fn ends_fit(&self) -> (fit: bool)
        ensures
            fit == {
                &&& forall|i: int|
                    0 <= i < self@.signals.len() ==> (#[trigger] self@.signals[i]).ty.width >= 1
                &&& forall|i: int|
                    0 <= i < self@.ports.len() ==> (#[trigger] self@.ports[i]).signal.raw
                        < self@.signals.len()
                &&& forall|i: int|
                    0 <= i < self@.connects.len() ==> self@.connect_ok(#[trigger] self@.connects[i])
            },
    {
        let mut i: usize = 0;
        while i < self.signals.len()
            invariant
                i <= self@.signals.len(),
                forall|k: int| 0 <= k < i ==> (#[trigger] self@.signals[k]).ty.width >= 1,
            decreases self.signals.len() - i,
        {
            if self.signals[i].ty.width < 1 {
                assert(self@.signals[i as int].ty.width < 1);
                return false;
            }
            i += 1;
        }
        i = 0;
        while i < self.ports.len()
            invariant
                i <= self@.ports.len(),
                forall|k: int|
                    0 <= k < i ==> (#[trigger] self@.ports[k]).signal.raw < self@.signals.len(),
            decreases self.ports.len() - i,
        {
            if self.ports[i].signal.raw as usize >= self.signals.len() {
                assert(self@.ports[i as int].signal.raw >= self@.signals.len());
                return false;
            }
            i += 1;
        }
        i = 0;
        while i < self.connects.len()
            invariant
                i <= self@.connects.len(),
                forall|k: int| 0 <= k < i ==> self@.connect_ok(#[trigger] self@.connects[k]),
            decreases self.connects.len() - i,
        {
            let connect = self.connects[i];
            let offset_known = match connect.target.dynamic {
                Some(dynamic) => (dynamic.offset.raw as usize) < self.values.len(),
                None => true,
            };
            let fits = (connect.target.signal.raw as usize) < self.signals.len() && (
            connect.value.raw as usize) < self.values.len() && offset_known;
            assert(fits == self@.connect_ok(self@.connects[i as int]));
            if !fits {
                return false;
            }
            i += 1;
        }
        true
    }

    fn instances_fit(&self) -> (fit: bool)
        ensures
            fit == forall|i: int, j: int|
                0 <= i < self@.instances.len() && 0 <= j < self@.instances[i].connections.len()
                    ==> (#[trigger] self@.instances[i].connections[j]).value.raw
                    < self@.values.len(),
    {
        let mut i: usize = 0;
        while i < self.instances.len()
            invariant
                i <= self@.instances.len(),
                forall|k: int, j: int|
                    0 <= k < i && 0 <= j < self@.instances[k].connections.len() ==> (
                    #[trigger] self@.instances[k].connections[j]).value.raw < self@.values.len(),
            decreases self.instances.len() - i,
        {
            let instance = &self.instances[i];
            assert(self@.instances[i as int].connections == instance.connections@);
            let mut j: usize = 0;
            while j < instance.connections.len()
                invariant
                    i < self@.instances.len(),
                    j <= instance.connections@.len(),
                    self@.instances[i as int].connections == instance.connections@,
                    forall|k: int|
                        0 <= k < j ==> (#[trigger] instance.connections@[k]).value.raw
                            < self@.values.len(),
                decreases instance.connections.len() - j,
            {
                if instance.connections[j].value.raw as usize >= self.values.len() {
                    assert(self@.instances[i as int].connections[j as int].value.raw
                        >= self@.values.len());
                    return false;
                }
                j += 1;
            }
            i += 1;
        }
        true
    }

    fn memory_ports_fit(&self) -> (fit: bool)
        ensures
            fit == {
                &&& forall|i: int|
                    0 <= i < self@.memory_reads.len() ==> self@.read_port_ok(
                        #[trigger] self@.memory_reads[i],
                    )
                &&& forall|i: int|
                    0 <= i < self@.memory_writes.len() ==> self@.write_port_ok(
                        #[trigger] self@.memory_writes[i],
                    )
            },
    {
        let mut i: usize = 0;
        while i < self.memory_reads.len()
            invariant
                i <= self@.memory_reads.len(),
                forall|k: int|
                    0 <= k < i ==> self@.read_port_ok(#[trigger] self@.memory_reads[k]),
            decreases self.memory_reads.len() - i,
        {
            if !self.read_port_fits(&self.memory_reads[i]) {
                assert(!self@.read_port_ok(self@.memory_reads[i as int]));
                return false;
            }
            i += 1;
        }
        i = 0;
        while i < self.memory_writes.len()
            invariant
                i <= self@.memory_writes.len(),
                forall|k: int|
                    0 <= k < i ==> self@.write_port_ok(#[trigger] self@.memory_writes[k]),
            decreases self.memory_writes.len() - i,
        {
            if !self.write_port_fits(&self.memory_writes[i]) {
                assert(!self@.write_port_ok(self@.memory_writes[i as int]));
                return false;
            }
            i += 1;
        }
        true
    }

    /// Whether every identifier names an element of its arena, operands precede the
    /// results that use them, and widths agree.
    pub fn is_well_formed(&self) -> (ok: bool)
        ensures
            ok == self@.wf(),
    {
        if self.values.len() > u32::MAX as usize || self.operations.len() > u32::MAX as usize
            || self.signals.len() > u32::MAX as usize {
            return false;
        }
        let mut i: usize = 0;
        while i < self.values.len()
            invariant
                i <= self@.values.len(),
                forall|k: int| 0 <= k < i ==> #[trigger] self@.value_ok(k),
            decreases self.values.len() - i,
        {
            if !self.value_fits(i) {
                return false;
            }
            i += 1;
        }
        i = 0;
        while i < self.operations.len()
            invariant
                i <= self@.operations.len(),
                forall|k: int| 0 <= k < i ==> #[trigger] self@.operation_ok(k),
            decreases self.operations.len() - i,
        {
            if !self.operation_fits(i) {
                return false;
            }
            i += 1;
        }
        self.ends_fit() && self.instances_fit() && self.memory_ports_fit()
    }
}

} // verus!
