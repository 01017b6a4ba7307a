//! The arenas of a module and the builders that append to them.

use super::types::{
    copy_values, op_inputs, operation_inputs, BinaryOp, CastKind, ConstBits, BitVal, Edge, Enable,
    LatchOp, LogicStateKind, MemoryId, NameId, OpId, OpKind, OpView, PortId, RegisterOp, Reset,
    SignalId, SourceSpan, UnaryOp, ValueId, WordType,
};
use crate::error::{Invariant, Resource, SynthError};
use vstd::prelude::*;

verus! {

/// A run of bits of a signal.
#[derive(Clone, Copy, PartialEq, Eq, Structural, Debug)]
pub struct SignalRef {
    pub signal: SignalId,
    pub lsb: u32,
    pub width: u32,
}

#[derive(Debug)]
pub enum ValueKind {
    Signal(SignalRef),
    Constant(ConstBits),
    Operation(OpId),
}

#[derive(Debug)]
pub struct Value {
    pub kind: ValueKind,
    pub ty: WordType,
    pub source: SourceSpan,
}

#[derive(Debug)]
pub struct Operation {
    pub kind: OpKind,
    pub result: ValueId,
    pub source: SourceSpan,
}

#[derive(Clone, Copy, PartialEq, Eq, Structural, Debug)]
pub enum SignalKind {
    Wire,
    Register,
    Port(PortId),
    ProcessLocal,
}

/// How a signal comes by its word: from one driver, or from whichever of several
/// drivers is enabled.
#[derive(Clone, Copy, PartialEq, Eq, Structural, Debug)]
pub enum SignalResolution {
    Single,
    TriState,
}

#[derive(Clone, Copy, PartialEq, Eq, Structural, Debug)]
pub struct Signal {
    pub name: Option<NameId>,
    pub ty: WordType,
    pub kind: SignalKind,
    pub source: SourceSpan,
    pub preserved: bool,
    pub resolution: SignalResolution,
}

#[derive(Clone, Copy, PartialEq, Eq, Structural, Debug)]
pub enum PortDirection {
    Input,
    Output,
    Inout,
}

#[derive(Clone, Copy, PartialEq, Eq, Structural, Debug)]
pub struct Port {
    pub name: NameId,
    pub direction: PortDirection,
    pub ty: WordType,
    pub signal: SignalId,
}

#[derive(Clone, Copy, PartialEq, Eq, Structural, Debug)]
pub struct BitRange {
    pub msb: u32,
    pub lsb: u32,
}

#[derive(Clone, Copy, PartialEq, Eq, Structural, Debug)]
pub struct DynamicTarget {
    pub offset: ValueId,
    pub width: u32,
}

/// What a connection drives: a signal, a run of its bits, or a run at a
/// computed offset.
#[derive(Clone, Copy, PartialEq, Eq, Structural, Debug)]
pub struct LValue {
    pub signal: SignalId,
    pub range: Option<BitRange>,
    pub dynamic: Option<DynamicTarget>,
}

impl LValue {
    pub open spec fn whole(signal: SignalId) -> Self {
        LValue { signal, range: None, dynamic: None }
    }

    pub fn signal(signal: SignalId) -> (target: Self)
        ensures
            target == LValue::whole(signal),
    {
        LValue { signal, range: None, dynamic: None }
    }

    pub fn with_range(self, range: BitRange) -> (target: Self)
        ensures
            target == (LValue { range: Some(range), ..self }),
    {
        LValue { signal: self.signal, range: Some(range), dynamic: self.dynamic }
    }
}

#[derive(Clone, Copy, PartialEq, Eq, Structural, Debug)]
pub struct Connect {
    pub target: LValue,
    pub value: ValueId,
    pub source: SourceSpan,
}

#[derive(Clone, Copy, PartialEq, Eq, Structural, Debug)]
pub struct InstanceConnection {
    pub pin: NameId,
    pub value: ValueId,
    pub source: SourceSpan,
}

#[derive(Debug)]
pub struct Instance {
    pub name: NameId,
    pub cell: NameId,
    pub connections: Vec<InstanceConnection>,
    pub source: SourceSpan,
}

#[derive(Clone, Copy, PartialEq, Eq, Structural, Debug)]
pub struct Memory {
    pub name: NameId,
    pub depth: u32,
    pub element_type: WordType,
    pub source: SourceSpan,
}

#[derive(Clone, Copy, PartialEq, Eq, Structural, Debug)]
pub struct MemoryClock {
    pub value: ValueId,
    pub edge: Edge,
}

#[derive(Clone, Copy, PartialEq, Eq, Structural, Debug)]
pub enum DisabledRead {
    Hold,
    Undefined,
}

#[derive(Clone, Copy, PartialEq, Eq, Structural, Debug)]
pub enum ReadDuringWrite {
    OldData,
    NewData,
    NoChange,
    Undefined,
}

#[derive(Clone, Copy, PartialEq, Eq, Structural, Debug)]
pub enum MemoryReadTiming {
    Asynchronous,
    Synchronous { clock: MemoryClock, enable: Option<Enable>, disabled: DisabledRead },
}

#[derive(Clone, Copy, PartialEq, Eq, Structural, Debug)]
pub struct MemoryReadPort {
    pub memory: MemoryId,
    pub address: ValueId,
    pub data: SignalId,
    pub timing: MemoryReadTiming,
    pub read_during_write: ReadDuringWrite,
    pub source: SourceSpan,
}

#[derive(Clone, Copy, PartialEq, Eq, Structural, Debug)]
pub struct MemoryWriteMask {
    pub value: ValueId,
    pub granularity: u32,
    pub active_high: bool,
}

#[derive(Clone, Copy, PartialEq, Eq, Structural, Debug)]
pub struct MemoryWritePort {
    pub memory: MemoryId,
    pub address: ValueId,
    pub data: ValueId,
    pub clock: MemoryClock,
    pub enable: Option<Enable>,
    pub mask: Option<MemoryWriteMask>,
    pub priority: u32,
    pub source: SourceSpan,
}

/// A module: arenas of values, operations, signals, connections and resources.
#[derive(Debug)]
pub struct WordModule {
    pub values: Vec<Value>,
    pub operations: Vec<Operation>,
    pub signals: Vec<Signal>,
    pub ports: Vec<Port>,
    pub connects: Vec<Connect>,
    pub instances: Vec<Instance>,
    pub memories: Vec<Memory>,
    pub memory_reads: Vec<MemoryReadPort>,
    pub memory_writes: Vec<MemoryWritePort>,
    pub names: Vec<String>,
    pub name: String,
}

#[verifier::ext_equal]
pub enum KindView {
    Signal(SignalRef),
    Constant(Seq<BitVal>),
    Operation(OpId),
}

#[verifier::ext_equal]
pub struct ValueView {
    pub kind: KindView,
    pub ty: WordType,
    pub source: SourceSpan,
}

#[verifier::ext_equal]
pub struct OperationView {
    pub kind: OpView,
    pub result: ValueId,
    pub source: SourceSpan,
}

#[verifier::ext_equal]
pub struct InstanceView {
    pub name: NameId,
    pub cell: NameId,
    pub connections: Seq<InstanceConnection>,
    pub source: SourceSpan,
}

#[verifier::ext_equal]
pub struct ModuleView {
    pub name: Seq<char>,
    pub values: Seq<ValueView>,
    pub operations: Seq<OperationView>,
    pub signals: Seq<Signal>,
    pub ports: Seq<Port>,
    pub connects: Seq<Connect>,
    pub instances: Seq<InstanceView>,
    pub memories: Seq<Memory>,
    pub memory_reads: Seq<MemoryReadPort>,
    pub memory_writes: Seq<MemoryWritePort>,
    pub names: Seq<Seq<char>>,
}

impl View for ValueKind {
    type V = KindView;

    open spec fn view(&self) -> KindView {
        match *self {
            ValueKind::Signal(reference) => KindView::Signal(reference),
            ValueKind::Constant(bits) => KindView::Constant(bits@),
            ValueKind::Operation(operation) => KindView::Operation(operation),
        }
    }
}

impl View for Value {
    type V = ValueView;

    open spec fn view(&self) -> ValueView {
        ValueView { kind: self.kind@, ty: self.ty, source: self.source }
    }
}

impl View for Operation {
    type V = OperationView;

    open spec fn view(&self) -> OperationView {
        OperationView { kind: self.kind@, result: self.result, source: self.source }
    }
}

impl View for Instance {
    type V = InstanceView;

    open spec fn view(&self) -> InstanceView {
        InstanceView {
            name: self.name,
            cell: self.cell,
            connections: self.connections@,
            source: self.source,
        }
    }
}

impl View for WordModule {
    type V = ModuleView;

    open spec fn view(&self) -> ModuleView {
        ModuleView {
            name: self.name@,
            values: self.values@.map_values(|value: Value| value@),
            operations: self.operations@.map_values(|operation: Operation| operation@),
            signals: self.signals@,
            ports: self.ports@,
            connects: self.connects@,
            instances: self.instances@.map_values(|instance: Instance| instance@),
            memories: self.memories@,
            memory_reads: self.memory_reads@,
            memory_writes: self.memory_writes@,
            names: self.names@.map_values(|name: String| name@),
        }
    }
}

/// The total width of the parts of a concatenation.
pub open spec fn parts_width(module: ModuleView, parts: Seq<ValueId>) -> nat
    decreases parts.len(),
{
    if parts.len() == 0 {
        0
    } else {
        parts_width(module, parts.drop_last()) + module.ty(parts.last()).width as nat
    }
}

/// Operators whose result is a single truth value.
pub open spec fn is_predicate(op: BinaryOp) -> bool {
    op is LogicalAnd || op is LogicalOr || op is Eq || op is Ne || op is Lt || op is Le || op is Gt
        || op is Ge
}

pub open spec fn is_shift(op: BinaryOp) -> bool {
    op is Shl || op is Shr || op is Ashr
}

pub open spec fn resets_typed(module: ModuleView, resets: Seq<Reset>, width: u32) -> bool {
    forall|i: int|
        0 <= i < resets.len() ==> module.ty((#[trigger] resets[i]).value).width == 1 && module.ty(
            resets[i].reset_value,
        ).width == width
}

impl ModuleView {
    pub open spec fn has(self, value: ValueId) -> bool {
        value.raw < self.values.len()
    }

    pub open spec fn ty(self, value: ValueId) -> WordType {
        self.values[value.raw as int].ty
    }

    pub open spec fn kind(self, value: ValueId) -> KindView {
        self.values[value.raw as int].kind
    }

    /// The operation that defines a value, if one does.
    pub open spec fn op_of(self, value: ValueId) -> Option<OpView> {
        match self.kind(value) {
            KindView::Operation(operation) => Some(self.operations[operation.raw as int].kind),
            _ => None,
        }
    }

    /// Whether the widths of an operation's operands suit its result type.
    pub open spec fn op_typed(self, kind: OpView, ty: WordType) -> bool {
        match kind {
            OpView::Unary { op, arg } => ty.width == (if op is BitNot {
                self.ty(arg).width
            } else {
                1
            }),
            OpView::Binary { op, left, right } => is_predicate(op) ==> ty.width == 1,
            OpView::Mux { cond, then_value, else_value } => self.ty(cond).width == 1 && self.ty(
                then_value,
            ).width == ty.width && self.ty(else_value).width == ty.width,
            OpView::Concat { parts } => parts.len() > 0 && parts_width(self, parts) == ty.width,
            OpView::Extract { value, lsb, width } => width == ty.width && lsb + width <= self.ty(
                value,
            ).width,
            OpView::DynamicExtract { value, offset, width } => width == ty.width && width
                <= self.ty(value).width,
            OpView::DynamicInsert { value, offset, replacement } => self.ty(replacement).width
                <= self.ty(value).width && ty.width == self.ty(value).width,
            OpView::TriState { data, enable } => ty.width == self.ty(data).width && self.ty(
                enable.value,
            ).width == 1,
            OpView::Cast { kind: cast, value, target } => ty == target && (if cast is Truncate {
                target.width <= self.ty(value).width
            } else {
                target.width >= self.ty(value).width
            }),
            OpView::Register(register) => self.ty(register.d).width == ty.width && self.ty(
                register.clock,
            ).width == 1 && (register.enable matches Some(enable) ==> self.ty(
                enable.value,
            ).width == 1) && resets_typed(self, register.resets, ty.width),
            OpView::Latch(latch) => self.ty(latch.d).width == ty.width && self.ty(
                latch.enable.value,
            ).width == 1 && resets_typed(self, latch.resets, ty.width),
        }
    }

    pub open spec fn inputs_below(self, kind: OpView, bound: int) -> bool {
        forall|i: int|
            0 <= i < op_inputs(kind).len() ==> (#[trigger] op_inputs(kind)[i]).raw < bound
    }

    pub open spec fn signal_ref_ok(self, reference: SignalRef) -> bool {
        &&& reference.signal.raw < self.signals.len()
        &&& reference.width >= 1
        &&& reference.lsb + reference.width <= self.signals[reference.signal.raw as int].ty.width
    }

    pub open spec fn value_ok(self, i: int) -> bool {
        &&& self.values[i].ty.width >= 1
        &&& match self.values[i].kind {
            KindView::Signal(reference) => reference.width == self.values[i].ty.width
                && self.signal_ref_ok(reference),
            KindView::Constant(bits) => bits.len() == self.values[i].ty.width,
            KindView::Operation(operation) => operation.raw < self.operations.len()
                && self.operations[operation.raw as int].result.raw == i,
        }
    }

    pub open spec fn operation_ok(self, i: int) -> bool {
        let operation = self.operations[i];
        &&& operation.result.raw < self.values.len()
        &&& self.inputs_below(operation.kind, operation.result.raw as int)
        &&& self.op_typed(operation.kind, self.values[operation.result.raw as int].ty)
    }

    pub open spec fn connect_ok(self, connect: Connect) -> bool {
        &&& connect.target.signal.raw < self.signals.len()
        &&& connect.value.raw < self.values.len()
        &&& connect.target.dynamic matches Some(dynamic) ==> dynamic.offset.raw < self.values.len()
    }

    /// Every identifier names an element of its arena, operands precede the
    /// results that use them, and widths agree.
    pub open spec fn wf(self) -> bool {
        &&& self.values.len() <= u32::MAX
        &&& self.operations.len() <= u32::MAX
        &&& self.signals.len() <= u32::MAX
        &&& forall|i: int| 0 <= i < self.values.len() ==> #[trigger] self.value_ok(i)
        &&& forall|i: int| 0 <= i < self.operations.len() ==> #[trigger] self.operation_ok(i)
        &&& forall|i: int|
            0 <= i < self.signals.len() ==> (#[trigger] self.signals[i]).ty.width >= 1
        &&& forall|i: int|
            0 <= i < self.ports.len() ==> (#[trigger] self.ports[i]).signal.raw
                < self.signals.len()
        &&& forall|i: int|
            0 <= i < self.connects.len() ==> self.connect_ok(#[trigger] self.connects[i])
        &&& forall|i: int, j: int|
            0 <= i < self.instances.len() && 0 <= j < self.instances[i].connections.len()
                ==> (#[trigger] self.instances[i].connections[j]).value.raw < self.values.len()
        &&& forall|i: int|
            0 <= i < self.memory_reads.len() ==> self.read_port_ok(#[trigger] self.memory_reads[i])
        &&& forall|i: int|
            0 <= i < self.memory_writes.len() ==> self.write_port_ok(
                #[trigger] self.memory_writes[i],
            )
    }

    pub open spec fn read_port_ok(self, port: MemoryReadPort) -> bool {
        &&& port.memory.raw < self.memories.len()
        &&& port.data.raw < self.signals.len()
        &&& self.has(port.address)
        &&& port.timing matches MemoryReadTiming::Synchronous { clock, enable, disabled } ==> {
            &&& self.has(clock.value)
            &&& enable is Some ==> self.has(enable->0.value)
        }
    }

    pub open spec fn write_port_ok(self, port: MemoryWritePort) -> bool {
        &&& port.memory.raw < self.memories.len()
        &&& self.has(port.address)
        &&& self.has(port.data)
        &&& self.has(port.clock.value)
        &&& port.enable is Some ==> self.has(port.enable->0.value)
        &&& port.mask is Some ==> self.has(port.mask->0.value)
    }

    /// No identifier is left for another value or operation.
    pub open spec fn full(self) -> bool {
        self.values.len() >= u32::MAX || self.operations.len() >= u32::MAX
    }

    pub open spec fn next_value(self) -> ValueId {
        ValueId { raw: self.values.len() as u32 }
    }

    pub open spec fn push_operation(
        self,
        kind: OpView,
        ty: WordType,
        source: SourceSpan,
    ) -> ModuleView {
        ModuleView {
            values: self.values.push(
                ValueView {
                    kind: KindView::Operation(OpId { raw: self.operations.len() as u32 }),
                    ty,
                    source,
                },
            ),
            operations: self.operations.push(
                OperationView { kind, result: self.next_value(), source },
            ),
            ..self
        }
    }

    pub open spec fn push_leaf(self, kind: KindView, ty: WordType, source: SourceSpan) -> ModuleView {
        ModuleView { values: self.values.push(ValueView { kind, ty, source }), ..self }
    }

    /// Values and operations were appended; everything else is untouched.
    pub open spec fn grows_to(self, later: ModuleView) -> bool {
        &&& later.name == self.name
        &&& self.values.len() <= later.values.len()
        &&& self.operations.len() <= later.operations.len()
        &&& forall|i: int|
            0 <= i < self.values.len() ==> #[trigger] later.values[i] == self.values[i]
        &&& forall|i: int|
            0 <= i < self.operations.len() ==> #[trigger] later.operations[i] == self.operations[i]
        &&& later.signals == self.signals
        &&& later.ports == self.ports
        &&& later.connects == self.connects
        &&& later.instances == self.instances
        &&& later.memories == self.memories
        &&& later.memory_reads == self.memory_reads
        &&& later.memory_writes == self.memory_writes
        &&& later.names == self.names
    }
}

/// Operand widths are read from the operands alone.
pub proof fn lemma_op_typed_stable(before: ModuleView, after: ModuleView, kind: OpView, ty: WordType)
    requires
        before.values.len() <= after.values.len(),
        forall|i: int|
            0 <= i < before.values.len() ==> #[trigger] after.values[i] == before.values[i],
        before.inputs_below(kind, before.values.len() as int),
    ensures
        after.op_typed(kind, ty) == before.op_typed(kind, ty),
{
    let inputs = op_inputs(kind);
    assert forall|i: int| 0 <= i < inputs.len() implies after.ty(#[trigger] inputs[i]) == before.ty(
        inputs[i],
    ) by {
        assert(inputs[i].raw < before.values.len());
    }
    lemma_op_typed_agree(before, after, kind, ty);
}

/// Whether an operation is typed depends on its operands' types alone.
pub proof fn lemma_op_typed_agree(before: ModuleView, after: ModuleView, kind: OpView, ty: WordType)
    requires
        forall|i: int|
            0 <= i < op_inputs(kind).len() ==> after.ty(#[trigger] op_inputs(kind)[i])
                == before.ty(op_inputs(kind)[i]),
    ensures
        after.op_typed(kind, ty) == before.op_typed(kind, ty),
{
    let inputs = op_inputs(kind);
    match kind {
        OpView::Unary { op, arg } => {
            assert(inputs[0] == arg);
        },
        OpView::Binary { op, left, right } => {},
        OpView::Mux { cond, then_value, else_value } => {
            assert(inputs[0] == cond && inputs[1] == then_value && inputs[2] == else_value);
        },
        OpView::Concat { parts } => {
            assert forall|i: int| 0 <= i < parts.len() implies after.ty(#[trigger] parts[i])
                == before.ty(parts[i]) by {
                assert(inputs[i] == parts[i]);
            }
            lemma_parts_width_agree(before, after, parts);
        },
        OpView::Extract { value, lsb, width } => {
            assert(inputs[0] == value);
        },
        OpView::DynamicExtract { value, offset, width } => {
            assert(inputs[0] == value);
        },
        OpView::DynamicInsert { value, offset, replacement } => {
            assert(inputs[0] == value && inputs[2] == replacement);
        },
        OpView::TriState { data, enable } => {
            assert(inputs[0] == data && inputs[1] == enable.value);
        },
        OpView::Cast { kind: cast, value, target } => {
            assert(inputs[0] == value);
        },
        OpView::Register(register) => {
            let head = seq![register.d, register.clock] + super::types::enable_inputs(
                register.enable,
            );
            assert(inputs[0] == register.d && inputs[1] == register.clock);
            if register.enable is Some {
                assert(inputs[2] == register.enable->0.value);
            }
            lemma_reset_inputs(register.resets);
            assert forall|i: int| 0 <= i < register.resets.len() implies after.ty(
                (#[trigger] register.resets[i]).value,
            ) == before.ty(register.resets[i].value) && after.ty(register.resets[i].reset_value)
                == before.ty(register.resets[i].reset_value) by {
                assert(inputs[head.len() + 2 * i] == register.resets[i].value);
                assert(inputs[head.len() + 2 * i + 1] == register.resets[i].reset_value);
            }
        },
        OpView::Latch(latch) => {
            assert(inputs[0] == latch.d && inputs[1] == latch.enable.value);
            lemma_reset_inputs(latch.resets);
            assert forall|i: int| 0 <= i < latch.resets.len() implies after.ty(
                (#[trigger] latch.resets[i]).value,
            ) == before.ty(latch.resets[i].value) && after.ty(latch.resets[i].reset_value)
                == before.ty(latch.resets[i].reset_value) by {
                assert(inputs[2 + 2 * i] == latch.resets[i].value);
                assert(inputs[2 + 2 * i + 1] == latch.resets[i].reset_value);
            }
        },
    }
}

pub proof fn lemma_reset_inputs(resets: Seq<Reset>)
    ensures
        super::types::reset_inputs(resets).len() == 2 * resets.len(),
        forall|i: int|
            0 <= i < resets.len() ==> super::types::reset_inputs(resets)[2 * i] == (
            #[trigger] resets[i]).value && super::types::reset_inputs(resets)[2 * i + 1]
                == resets[i].reset_value,
    decreases resets.len(),
{
    if resets.len() > 0 {
        lemma_reset_inputs(resets.drop_last());
        assert forall|i: int| 0 <= i < resets.len() implies super::types::reset_inputs(
            resets,
        )[2 * i] == (#[trigger] resets[i]).value && super::types::reset_inputs(resets)[2 * i + 1]
            == resets[i].reset_value by {
            if i < resets.len() - 1 {
                assert(resets.drop_last()[i] == resets[i]);
            }
        }
    }
}

pub proof fn lemma_parts_width_agree(before: ModuleView, after: ModuleView, parts: Seq<ValueId>)
    requires
        forall|i: int|
            0 <= i < parts.len() ==> after.ty(#[trigger] parts[i]) == before.ty(parts[i]),
    ensures
        parts_width(after, parts) == parts_width(before, parts),
    decreases parts.len(),
{
    if parts.len() > 0 {
        assert(after.ty(parts[parts.len() - 1]) == before.ty(parts[parts.len() - 1]));
        assert forall|i: int| 0 <= i < parts.drop_last().len() implies after.ty(
            #[trigger] parts.drop_last()[i],
        ) == before.ty(parts.drop_last()[i]) by {
            assert(parts.drop_last()[i] == parts[i]);
        }
        lemma_parts_width_agree(before, after, parts.drop_last());
    }
}

pub proof fn lemma_parts_width_stable(before: ModuleView, after: ModuleView, parts: Seq<ValueId>)
    requires
        before.values.len() <= after.values.len(),
        forall|i: int|
            0 <= i < before.values.len() ==> #[trigger] after.values[i] == before.values[i],
        forall|i: int| 0 <= i < parts.len() ==> (#[trigger] parts[i]).raw < before.values.len(),
    ensures
        parts_width(after, parts) == parts_width(before, parts),
    decreases parts.len(),
{
    if parts.len() > 0 {
        let last = parts[parts.len() - 1];
        assert(last.raw < before.values.len());
        lemma_parts_width_stable(before, after, parts.drop_last());
    }
}

/// Appending a typed operation keeps a module well formed.
pub proof fn lemma_push_operation(
    before: ModuleView,
    kind: OpView,
    ty: WordType,
    source: SourceSpan,
)
    requires
        before.wf(),
        !before.full(),
        ty.width >= 1,
        before.inputs_below(kind, before.values.len() as int),
        before.op_typed(kind, ty),
    ensures
        before.push_operation(kind, ty, source).wf(),
        before.grows_to(before.push_operation(kind, ty, source)),
{
    let after = before.push_operation(kind, ty, source);
    lemma_op_typed_stable(before, after, kind, ty);
    assert forall|i: int| 0 <= i < after.values.len() implies #[trigger] after.value_ok(i) by {
        if i < before.values.len() {
            assert(before.value_ok(i));
        }
    }
    assert forall|i: int| 0 <= i < after.operations.len() implies #[trigger] after.operation_ok(
        i,
    ) by {
        if i < before.operations.len() {
            assert(before.operation_ok(i));
            let old = before.operations[i];
            assert(before.inputs_below(old.kind, before.values.len() as int)) by {
                assert forall|k: int| 0 <= k < op_inputs(old.kind).len() implies (
                #[trigger] op_inputs(old.kind)[k]).raw < before.values.len() by {}
            }
            lemma_op_typed_stable(
                before,
                after,
                old.kind,
                before.values[old.result.raw as int].ty,
            );
        }
    }
    assert forall|i: int| 0 <= i < after.connects.len() implies after.connect_ok(
        #[trigger] after.connects[i],
    ) by {
        assert(before.connect_ok(before.connects[i]));
    }
}

/// Appending a constant or a read of a signal keeps a module well formed.
pub proof fn lemma_push_leaf(before: ModuleView, kind: KindView, ty: WordType, source: SourceSpan)
    requires
        before.wf(),
        before.values.len() < u32::MAX,
        ty.width >= 1,
        match kind {
            KindView::Signal(reference) => reference.width == ty.width && before.signal_ref_ok(
                reference,
            ),
            KindView::Constant(bits) => bits.len() == ty.width,
            KindView::Operation(_) => false,
        },
    ensures
        before.push_leaf(kind, ty, source).wf(),
        before.grows_to(before.push_leaf(kind, ty, source)),
{
    let after = before.push_leaf(kind, ty, source);
    assert forall|i: int| 0 <= i < after.values.len() implies #[trigger] after.value_ok(i) by {
        if i < before.values.len() {
            assert(before.value_ok(i));
        }
    }
    assert forall|i: int| 0 <= i < after.operations.len() implies #[trigger] after.operation_ok(
        i,
    ) by {
        assert(before.operation_ok(i));
        let old = before.operations[i];
        assert(before.inputs_below(old.kind, before.values.len() as int)) by {
            assert forall|k: int| 0 <= k < op_inputs(old.kind).len() implies (
            #[trigger] op_inputs(old.kind)[k]).raw < before.values.len() by {}
        }
        lemma_op_typed_stable(before, after, old.kind, before.values[old.result.raw as int].ty);
    }
    assert forall|i: int| 0 <= i < after.connects.len() implies after.connect_ok(
        #[trigger] after.connects[i],
    ) by {
        assert(before.connect_ok(before.connects[i]));
    }
}

/// The type that an operator gives to its result.
pub open spec fn unary_type(op: UnaryOp, arg: WordType) -> WordType {
    if op is BitNot {
        arg
    } else {
        WordType { width: 1, signed: false, state: arg.state }
    }
}

pub open spec fn joined_state(left: LogicStateKind, right: LogicStateKind) -> LogicStateKind {
    if left is FourState {
        left
    } else {
        right
    }
}

/// Two operands meet in the wider word, signed only if both are.
pub open spec fn joined_type(left: WordType, right: WordType) -> WordType {
    WordType {
        width: if left.width >= right.width {
            left.width
        } else {
            right.width
        },
        signed: left.signed && right.signed,
        state: joined_state(left.state, right.state),
    }
}

pub open spec fn binary_type(op: BinaryOp, left: WordType, right: WordType) -> WordType {
    if is_predicate(op) {
        WordType { width: 1, signed: false, state: joined_state(left.state, right.state) }
    } else if is_shift(op) {
        WordType { state: joined_state(left.state, right.state), ..left }
    } else {
        joined_type(left, right)
    }
}

/// What an appending builder owes: the operation at a fresh value, or the
/// module unchanged and the reason.
pub open spec fn appended(
    before: ModuleView,
    after: ModuleView,
    kind: OpView,
    ty: WordType,
    source: SourceSpan,
    result: Result<ValueId, SynthError>,
) -> bool {
    if !before.inputs_below(kind, before.values.len() as int) {
        result == Err::<ValueId, SynthError>(SynthError::Invariant(Invariant::UnknownValue))
            && after == before
    } else if ty.width == 0 || !before.op_typed(kind, ty) {
        result == Err::<ValueId, SynthError>(SynthError::Invariant(Invariant::WidthMismatch))
            && after == before
    } else if before.full() {
        result == Err::<ValueId, SynthError>(SynthError::Capacity(Resource::Values)) && after
            == before
    } else {
        result == Ok::<ValueId, SynthError>(before.next_value()) && after == before.push_operation(
            kind,
            ty,
            source,
        )
    }
}

impl WordModule {
    /// An empty module.
    pub fn new() -> (module: Self)
        ensures
            module@.wf(),
            module@.values.len() == 0,
            module@.operations.len() == 0,
            module@.signals.len() == 0,
            module@.ports.len() == 0,
            module@.connects.len() == 0,
            module@.instances.len() == 0,
            module@.memories.len() == 0,
            module@.memory_reads.len() == 0,
            module@.memory_writes.len() == 0,
            module@.names.len() == 0,
    {
        WordModule {
            values: Vec::new(),
            operations: Vec::new(),
            signals: Vec::new(),
            ports: Vec::new(),
            connects: Vec::new(),
            instances: Vec::new(),
            memories: Vec::new(),
            memory_reads: Vec::new(),
            memory_writes: Vec::new(),
            names: Vec::new(),
            name: String::new(),
        }
    }

    /// An empty module with a name.
    pub fn named(name: String) -> (module: Self)
        ensures
            module@.wf(),
            module@.name == name@,
            module@.values.len() == 0,
            module@.operations.len() == 0,
            module@.signals.len() == 0,
            module@.ports.len() == 0,
            module@.connects.len() == 0,
            module@.instances.len() == 0,
            module@.memories.len() == 0,
            module@.memory_reads.len() == 0,
            module@.memory_writes.len() == 0,
            module@.names.len() == 0,
    {
        WordModule {
            values: Vec::new(),
            operations: Vec::new(),
            signals: Vec::new(),
            ports: Vec::new(),
            connects: Vec::new(),
            instances: Vec::new(),
            memories: Vec::new(),
            memory_reads: Vec::new(),
            memory_writes: Vec::new(),
            names: Vec::new(),
            name,
        }
    }

    pub fn value(&self, id: ValueId) -> (value: Option<&Value>)
        ensures
            value is Some <==> self@.has(id),
            value matches Some(v) ==> v@ == self@.values[id.raw as int] && *v
                == self.values@[id.raw as int],
    {
        if (id.raw as usize) < self.values.len() {
            Some(&self.values[id.raw as usize])
        } else {
            None
        }
    }

    pub fn operation(&self, id: OpId) -> (operation: Option<&Operation>)
        ensures
            operation is Some <==> id.raw < self@.operations.len(),
            operation matches Some(o) ==> o@ == self@.operations[id.raw as int],
    {
        if (id.raw as usize) < self.operations.len() {
            Some(&self.operations[id.raw as usize])
        } else {
            None
        }
    }

    pub fn signal(&self, id: SignalId) -> (signal: Option<Signal>)
        ensures
            signal == (if id.raw < self@.signals.len() {
                Some(self@.signals[id.raw as int])
            } else {
                None
            }),
    {
        if (id.raw as usize) < self.signals.len() {
            Some(self.signals[id.raw as usize])
        } else {
            None
        }
    }

    pub fn port(&self, id: PortId) -> (port: Option<Port>)
        ensures
            port == (if id.raw < self@.ports.len() {
                Some(self@.ports[id.raw as int])
            } else {
                None
            }),
    {
        if (id.raw as usize) < self.ports.len() {
            Some(self.ports[id.raw as usize])
        } else {
            None
        }
    }

    /// The type of a value.
    pub fn value_type(&self, id: ValueId) -> (ty: Option<WordType>)
        ensures
            ty == (if self@.has(id) {
                Some(self@.ty(id))
            } else {
                None
            }),
    {
        if (id.raw as usize) < self.values.len() {
            Some(self.values[id.raw as usize].ty)
        } else {
            None
        }
    }

    pub(crate) fn inputs_known(&self, kind: &OpKind) -> (known: bool)
        ensures
            known == self@.inputs_below(kind@, self@.values.len() as int),
    {
        let inputs = operation_inputs(kind);
        let mut index: usize = 0;
        while index < inputs.len()
            invariant
                index <= inputs.len(),
                inputs@ == op_inputs(kind@),
                forall|i: int| 0 <= i < index ==> (#[trigger] inputs@[i]).raw < self@.values.len(),
            decreases inputs.len() - index,
        {
            if inputs[index].raw as usize >= self.values.len() {
                assert(op_inputs(kind@)[index as int].raw >= self@.values.len());
                return false;
            }
            index += 1;
        }
        true
    }

    fn concat_width(&self, parts: &Vec<ValueId>) -> (width: Option<u32>)
        requires
            forall|i: int| 0 <= i < parts@.len() ==> self@.has(#[trigger] parts@[i]),
        ensures
            width == (if parts_width(self@, parts@) <= u32::MAX {
                Some(parts_width(self@, parts@) as u32)
            } else {
                None
            }),
    {
        let mut width: u32 = 0;
        let mut index: usize = 0;
        while index < parts.len()
            invariant
                index <= parts.len(),
                width == parts_width(self@, parts@.take(index as int)),
                forall|i: int| 0 <= i < parts@.len() ==> self@.has(#[trigger] parts@[i]),
            decreases parts.len() - index,
        {
            assert(parts@.take(index + 1).drop_last() =~= parts@.take(index as int));
            assert(self@.has(parts@[index as int]));
            let part: u32 = self.values[parts[index].raw as usize].ty.width;
            match width.checked_add(part) {
                Some(total) => {
                    width = total;
                },
                None => {
                    proof {
                        lemma_parts_width_prefix(self@, parts@, index + 1);
                    }
                    return None;
                },
            }
            index += 1;
        }
        assert(parts@.take(index as int) =~= parts@);
        Some(width)
    }

    fn resets_fit(&self, resets: &Vec<Reset>, width: u32) -> (fit: bool)
        requires
            forall|i: int|
                0 <= i < resets@.len() ==> self@.has((#[trigger] resets@[i]).value) && self@.has(
                    resets@[i].reset_value,
                ),
        ensures
            fit == resets_typed(self@, resets@, width),
    {
        let mut index: usize = 0;
        while index < resets.len()
            invariant
                index <= resets.len(),
                forall|i: int|
                    0 <= i < resets@.len() ==> self@.has((#[trigger] resets@[i]).value)
                        && self@.has(resets@[i].reset_value),
                forall|i: int|
                    0 <= i < index ==> self@.ty((#[trigger] resets@[i]).value).width == 1
                        && self@.ty(resets@[i].reset_value).width == width,
            decreases resets.len() - index,
        {
            let reset = resets[index];
            assert(reset == resets@[index as int]);
            if self.values[reset.value.raw as usize].ty.width != 1
                || self.values[reset.reset_value.raw as usize].ty.width != width {
                return false;
            }
            index += 1;
        }
        true
    }

    pub(crate) fn op_fits(&self, kind: &OpKind, ty: WordType) -> (fits: bool)
        requires
            self@.inputs_below(kind@, self@.values.len() as int),
        ensures
            fits == self@.op_typed(kind@, ty),
    {
        let ghost inputs = op_inputs(kind@);
        match kind {
            OpKind::Unary { op, arg } => {
                assert(inputs[0] == *arg);
                let expected: u32 = match op {
                    UnaryOp::BitNot => self.values[arg.raw as usize].ty.width,
                    _ => 1,
                };
                ty.width == expected
            },
            OpKind::Binary { op, left: _, right: _ } => {
                match op {
                    BinaryOp::LogicalAnd
                    | BinaryOp::LogicalOr
                    | BinaryOp::Eq
                    | BinaryOp::Ne
                    | BinaryOp::Lt
                    | BinaryOp::Le
                    | BinaryOp::Gt
                    | BinaryOp::Ge => ty.width == 1,
                    _ => true,
                }
            },
            OpKind::Mux { cond, then_value, else_value } => {
                assert(inputs[0] == *cond && inputs[1] == *then_value && inputs[2] == *else_value);
                self.values[cond.raw as usize].ty.width == 1 && self.values[then_value.raw as usize]
                    .ty.width == ty.width && self.values[else_value.raw as usize].ty.width
                    == ty.width
            },
            OpKind::Concat { parts } => {
                assert(inputs == parts@);
                if parts.len() == 0 {
                    return false;
                }
                match self.concat_width(parts) {
                    Some(width) => width == ty.width,
                    None => false,
                }
            },
            OpKind::Extract { value, lsb, width } => {
                assert(inputs[0] == *value);
                *width == ty.width && *lsb as u64 + *width as u64 <= self.values[value.raw as usize]
                    .ty.width as u64
            },
            OpKind::DynamicExtract { value, offset: _, width } => {
                assert(inputs[0] == *value);
                *width == ty.width && *width <= self.values[value.raw as usize].ty.width
            },
            OpKind::DynamicInsert { value, offset: _, replacement } => {
                assert(inputs[0] == *value && inputs[2] == *replacement);
                self.values[replacement.raw as usize].ty.width
                    <= self.values[value.raw as usize].ty.width && ty.width
                    == self.values[value.raw as usize].ty.width
            },
            OpKind::TriState { data, enable } => {
                assert(inputs[0] == *data && inputs[1] == enable.value);
                ty.width == self.values[data.raw as usize].ty.width
                    && self.values[enable.value.raw as usize].ty.width == 1
            },
            OpKind::Cast { kind: cast, value, target } => {
                assert(inputs[0] == *value);
                let width: u32 = self.values[value.raw as usize].ty.width;
                ty == *target && match cast {
                    CastKind::Truncate => target.width <= width,
                    _ => target.width >= width,
                }
            },
            OpKind::Register(register) => {
                assert(inputs[0] == register.d && inputs[1] == register.clock);
                let ghost head = seq![register.d, register.clock] + super::types::enable_inputs(
                    register.enable,
                );
                proof {
                    lemma_reset_inputs(register.resets@);
                    assert forall|i: int| 0 <= i < register.resets@.len() implies self@.has(
                        (#[trigger] register.resets@[i]).value,
                    ) && self@.has(register.resets@[i].reset_value) by {
                        assert(inputs[head.len() + 2 * i] == register.resets@[i].value);
                        assert(inputs[head.len() + 2 * i + 1] == register.resets@[i].reset_value);
                    }
                }
                let enabled: bool = match register.enable {
                    Some(enable) => {
                        assert(inputs[2] == enable.value);
                        self.values[enable.value.raw as usize].ty.width == 1
                    },
                    None => true,
                };
                self.values[register.d.raw as usize].ty.width == ty.width
                    && self.values[register.clock.raw as usize].ty.width == 1 && enabled
                    && self.resets_fit(&register.resets, ty.width)
            },
            OpKind::Latch(latch) => {
                assert(inputs[0] == latch.d && inputs[1] == latch.enable.value);
                proof {
                    lemma_reset_inputs(latch.resets@);
                    assert forall|i: int| 0 <= i < latch.resets@.len() implies self@.has(
                        (#[trigger] latch.resets@[i]).value,
                    ) && self@.has(latch.resets@[i].reset_value) by {
                        assert(inputs[2 + 2 * i] == latch.resets@[i].value);
                        assert(inputs[2 + 2 * i + 1] == latch.resets@[i].reset_value);
                    }
                }
                self.values[latch.d.raw as usize].ty.width == ty.width
                    && self.values[latch.enable.value.raw as usize].ty.width == 1
                    && self.resets_fit(&latch.resets, ty.width)
            },
        }
    }

    /// Appends an operation of the given result type.
    pub fn add_operation(&mut self, kind: OpKind, ty: WordType, source: SourceSpan) -> (result:
        Result<ValueId, SynthError>)
        requires
            old(self)@.wf(),
        ensures
            appended(old(self)@, final(self)@, kind@, ty, source, result),
            final(self)@.wf(),
            old(self)@.grows_to(final(self)@),
    {
        if !self.inputs_known(&kind) {
            return Err(SynthError::Invariant(Invariant::UnknownValue));
        }
        if ty.width == 0 || !self.op_fits(&kind, ty) {
            return Err(SynthError::Invariant(Invariant::WidthMismatch));
        }
        if self.values.len() >= u32::MAX as usize || self.operations.len() >= u32::MAX as usize {
            return Err(SynthError::Capacity(Resource::Values));
        }
        let ghost before = self@;
        let ghost view = kind@;
        proof {
            lemma_push_operation(before, view, ty, source);
        }
        let result = ValueId { raw: self.values.len() as u32 };
        let operation = OpId { raw: self.operations.len() as u32 };
        self.values.push(Value { kind: ValueKind::Operation(operation), ty, source });
        self.operations.push(Operation { kind, result, source });
        assert(self@ =~= before.push_operation(view, ty, source)) by {
            assert(self@.values =~= before.push_operation(view, ty, source).values);
            assert(self@.operations =~= before.push_operation(view, ty, source).operations);
        }
        Ok(result)
    }

    /// Appends a constant of its own width.
    pub fn constant(&mut self, bits: ConstBits, ty: WordType, source: SourceSpan) -> (result:
        Result<ValueId, SynthError>)
        requires
            old(self)@.wf(),
        ensures
            final(self)@.wf(),
            old(self)@.grows_to(final(self)@),
            if bits@.len() != ty.width || ty.width == 0 {
                result == Err::<ValueId, SynthError>(SynthError::Invariant(Invariant::WidthMismatch))
                    && final(self)@ == old(self)@
            } else if old(self)@.values.len() >= u32::MAX {
                result == Err::<ValueId, SynthError>(SynthError::Capacity(Resource::Values))
                    && final(self)@ == old(self)@
            } else {
                result == Ok::<ValueId, SynthError>(old(self)@.next_value()) && final(self)@ == old(
                    self,
                )@.push_leaf(KindView::Constant(bits@), ty, source)
            },
    {
        if bits.bits.len() != ty.width as usize || ty.width == 0 {
            return Err(SynthError::Invariant(Invariant::WidthMismatch));
        }
        if self.values.len() >= u32::MAX as usize {
            return Err(SynthError::Capacity(Resource::Values));
        }
        let ghost before = self@;
        let ghost view = KindView::Constant(bits@);
        proof {
            lemma_push_leaf(before, view, ty, source);
        }
        let result = ValueId { raw: self.values.len() as u32 };
        self.values.push(Value { kind: ValueKind::Constant(bits), ty, source });
        assert(self@ =~= before.push_leaf(view, ty, source)) by {
            assert(self@.values =~= before.push_leaf(view, ty, source).values);
        }
        Ok(result)
    }

    /// Appends a read of a run of a signal's bits.
    pub fn read_signal_slice(
        &mut self,
        signal: SignalId,
        lsb: u32,
        width: u32,
        source: SourceSpan,
    ) -> (result: Result<ValueId, SynthError>)
        requires
            old(self)@.wf(),
        ensures
            final(self)@.wf(),
            old(self)@.grows_to(final(self)@),
            ({
                let reference = SignalRef { signal, lsb, width };
                if !old(self)@.signal_ref_ok(reference) {
                    result == Err::<ValueId, SynthError>(
                        SynthError::Invariant(Invariant::UnknownSignal),
                    ) && final(self)@ == old(self)@
                } else if old(self)@.values.len() >= u32::MAX {
                    result == Err::<ValueId, SynthError>(SynthError::Capacity(Resource::Values))
                        && final(self)@ == old(self)@
                } else {
                    result == Ok::<ValueId, SynthError>(old(self)@.next_value()) && final(self)@
                        == old(self)@.push_leaf(
                        KindView::Signal(reference),
                        slice_type(old(self)@.signals[signal.raw as int].ty, width),
                        source,
                    )
                }
            }),
    {
        let reference = SignalRef { signal, lsb, width };
        if signal.raw as usize >= self.signals.len() || width == 0 || lsb as u64 + width as u64
            > self.signals[signal.raw as usize].ty.width as u64 {
            return Err(SynthError::Invariant(Invariant::UnknownSignal));
        }
        if self.values.len() >= u32::MAX as usize {
            return Err(SynthError::Capacity(Resource::Values));
        }
        let whole = self.signals[signal.raw as usize].ty;
        let ty = if width == whole.width {
            whole
        } else {
            WordType { width, signed: false, state: whole.state }
        };
        let ghost before = self@;
        proof {
            lemma_push_leaf(before, KindView::Signal(reference), ty, source);
        }
        let result = ValueId { raw: self.values.len() as u32 };
        self.values.push(Value { kind: ValueKind::Signal(reference), ty, source });
        assert(self@ =~= before.push_leaf(KindView::Signal(reference), ty, source)) by {
            assert(self@.values =~= before.push_leaf(
                KindView::Signal(reference),
                ty,
                source,
            ).values);
        }
        Ok(result)
    }

    /// Appends a read of a whole signal.
    pub fn read_signal(&mut self, signal: SignalId, source: SourceSpan) -> (result: Result<
        ValueId,
        SynthError,
    >)
        requires
            old(self)@.wf(),
        ensures
            final(self)@.wf(),
            old(self)@.grows_to(final(self)@),
            if signal.raw >= old(self)@.signals.len() {
                result == Err::<ValueId, SynthError>(SynthError::Invariant(Invariant::UnknownSignal))
                    && final(self)@ == old(self)@
            } else if old(self)@.values.len() >= u32::MAX {
                result == Err::<ValueId, SynthError>(SynthError::Capacity(Resource::Values))
                    && final(self)@ == old(self)@
            } else {
                let ty = old(self)@.signals[signal.raw as int].ty;
                result == Ok::<ValueId, SynthError>(old(self)@.next_value()) && final(self)@ == old(
                    self,
                )@.push_leaf(
                    KindView::Signal(SignalRef { signal, lsb: 0, width: ty.width }),
                    ty,
                    source,
                )
            },
    {
        if signal.raw as usize >= self.signals.len() {
            return Err(SynthError::Invariant(Invariant::UnknownSignal));
        }
        let width: u32 = self.signals[signal.raw as usize].ty.width;
        self.read_signal_slice(signal, 0, width, source)
    }

    /// Appends a unary operation.
    pub fn unary(&mut self, op: UnaryOp, arg: ValueId, source: SourceSpan) -> (result: Result<
        ValueId,
        SynthError,
    >)
        requires
            old(self)@.wf(),
        ensures
            appended(
                old(self)@,
                final(self)@,
                OpView::Unary { op, arg },
                unary_type(op, old(self)@.ty(arg)),
                source,
                result,
            ),
            final(self)@.wf(),
            old(self)@.grows_to(final(self)@),
    {
        match self.value_type(arg) {
            Some(ty) => {
                let ty = match op {
                    UnaryOp::BitNot => ty,
                    _ => WordType { width: 1, signed: false, state: ty.state },
                };
                self.add_operation(OpKind::Unary { op, arg }, ty, source)
            },
            None => {
                assert(op_inputs(OpView::Unary { op, arg })[0] == arg);
                Err(SynthError::Invariant(Invariant::UnknownValue))
            },
        }
    }

    /// Appends a binary operation.
    pub fn binary(
        &mut self,
        op: BinaryOp,
        left: ValueId,
        right: ValueId,
        source: SourceSpan,
    ) -> (result: Result<ValueId, SynthError>)
        requires
            old(self)@.wf(),
        ensures
            appended(
                old(self)@,
                final(self)@,
                OpView::Binary { op, left, right },
                binary_type(op, old(self)@.ty(left), old(self)@.ty(right)),
                source,
                result,
            ),
            final(self)@.wf(),
            old(self)@.grows_to(final(self)@),
    {
        let ghost inputs = op_inputs(OpView::Binary { op, left, right });
        assert(inputs[0] == left && inputs[1] == right);
        match (self.value_type(left), self.value_type(right)) {
            (Some(left_ty), Some(right_ty)) => {
                let state = if left_ty.state == LogicStateKind::FourState {
                    left_ty.state
                } else {
                    right_ty.state
                };
                let ty = match op {
                    BinaryOp::LogicalAnd
                    | BinaryOp::LogicalOr
                    | BinaryOp::Eq
                    | BinaryOp::Ne
                    | BinaryOp::Lt
                    | BinaryOp::Le
                    | BinaryOp::Gt
                    | BinaryOp::Ge => WordType { width: 1, signed: false, state },
                    BinaryOp::Shl | BinaryOp::Shr | BinaryOp::Ashr => WordType {
                        width: left_ty.width,
                        signed: left_ty.signed,
                        state,
                    },
                    _ => WordType {
                        width: if left_ty.width >= right_ty.width {
                            left_ty.width
                        } else {
                            right_ty.width
                        },
                        signed: left_ty.signed && right_ty.signed,
                        state,
                    },
                };
                self.add_operation(OpKind::Binary { op, left, right }, ty, source)
            },
            _ => Err(SynthError::Invariant(Invariant::UnknownValue)),
        }
    }

    /// Appends a selection between two words.
    pub fn mux(
        &mut self,
        cond: ValueId,
        then_value: ValueId,
        else_value: ValueId,
        source: SourceSpan,
    ) -> (result: Result<ValueId, SynthError>)
        requires
            old(self)@.wf(),
        ensures
            appended(
                old(self)@,
                final(self)@,
                OpView::Mux { cond, then_value, else_value },
                joined_type(old(self)@.ty(then_value), old(self)@.ty(else_value)),
                source,
                result,
            ),
            final(self)@.wf(),
            old(self)@.grows_to(final(self)@),
    {
        let ghost inputs = op_inputs(OpView::Mux { cond, then_value, else_value });
        assert(inputs[0] == cond && inputs[1] == then_value && inputs[2] == else_value);
        match (self.value_type(then_value), self.value_type(else_value)) {
            (Some(left_ty), Some(right_ty)) => {
                let ty = WordType {
                    width: if left_ty.width >= right_ty.width {
                        left_ty.width
                    } else {
                        right_ty.width
                    },
                    signed: left_ty.signed && right_ty.signed,
                    state: if left_ty.state == LogicStateKind::FourState {
                        left_ty.state
                    } else {
                        right_ty.state
                    },
                };
                self.add_operation(OpKind::Mux { cond, then_value, else_value }, ty, source)
            },
            _ => Err(SynthError::Invariant(Invariant::UnknownValue)),
        }
    }

    /// Appends a concatenation; the first part is the most significant.
    pub fn concat(&mut self, parts: Vec<ValueId>, source: SourceSpan) -> (result: Result<
        ValueId,
        SynthError,
    >)
        requires
            old(self)@.wf(),
        ensures
            appended(
                old(self)@,
                final(self)@,
                OpView::Concat { parts: parts@ },
                concat_type(old(self)@, parts@),
                source,
                result,
            ),
            final(self)@.wf(),
            old(self)@.grows_to(final(self)@),
    {
        let kind = OpKind::Concat { parts: copy_values(&parts) };
        assert(kind@ == OpView::Concat { parts: parts@ });
        assert(op_inputs(kind@) == parts@);
        if !self.inputs_known(&kind) {
            return Err(SynthError::Invariant(Invariant::UnknownValue));
        }
        let width: u32 = match self.concat_width(&parts) {
            Some(width) => width,
            None => 0,
        };
        let ty = WordType { width, signed: false, state: LogicStateKind::FourState };
        self.add_operation(kind, ty, source)
    }

    /// Appends a fixed run of a word's bits.
    pub fn extract(&mut self, value: ValueId, lsb: u32, width: u32, source: SourceSpan) -> (result:
        Result<ValueId, SynthError>)
        requires
            old(self)@.wf(),
        ensures
            appended(
                old(self)@,
                final(self)@,
                OpView::Extract { value, lsb, width },
                slice_of(old(self)@.ty(value), width),
                source,
                result,
            ),
            final(self)@.wf(),
            old(self)@.grows_to(final(self)@),
    {
        match self.value_type(value) {
            Some(ty) => {
                let ty = WordType { width, signed: false, state: ty.state };
                self.add_operation(OpKind::Extract { value, lsb, width }, ty, source)
            },
            None => {
                assert(op_inputs(OpView::Extract { value, lsb, width })[0] == value);
                Err(SynthError::Invariant(Invariant::UnknownValue))
            },
        }
    }

    /// Appends a run of a word's bits at a computed offset.
    pub fn dynamic_extract(
        &mut self,
        value: ValueId,
        offset: ValueId,
        width: u32,
        source: SourceSpan,
    ) -> (result: Result<ValueId, SynthError>)
        requires
            old(self)@.wf(),
        ensures
            appended(
                old(self)@,
                final(self)@,
                OpView::DynamicExtract { value, offset, width },
                slice_of(old(self)@.ty(value), width),
                source,
                result,
            ),
            final(self)@.wf(),
            old(self)@.grows_to(final(self)@),
    {
        match self.value_type(value) {
            Some(ty) => {
                let ty = WordType { width, signed: false, state: ty.state };
                self.add_operation(OpKind::DynamicExtract { value, offset, width }, ty, source)
            },
            None => {
                assert(op_inputs(OpView::DynamicExtract { value, offset, width })[0] == value);
                Err(SynthError::Invariant(Invariant::UnknownValue))
            },
        }
    }

    /// Appends a word with a run of its bits replaced at a computed offset.
    pub fn dynamic_insert(
        &mut self,
        value: ValueId,
        offset: ValueId,
        replacement: ValueId,
        source: SourceSpan,
    ) -> (result: Result<ValueId, SynthError>)
        requires
            old(self)@.wf(),
        ensures
            appended(
                old(self)@,
                final(self)@,
                OpView::DynamicInsert { value, offset, replacement },
                old(self)@.ty(value),
                source,
                result,
            ),
            final(self)@.wf(),
            old(self)@.grows_to(final(self)@),
    {
        match self.value_type(value) {
            Some(ty) => self.add_operation(
                OpKind::DynamicInsert { value, offset, replacement },
                ty,
                source,
            ),
            None => {
                assert(op_inputs(OpView::DynamicInsert { value, offset, replacement })[0] == value);
                Err(SynthError::Invariant(Invariant::UnknownValue))
            },
        }
    }

    /// Appends a driver that lets go of its net unless it is enabled; its result has
    /// the type of its data.
    pub fn tri_state(&mut self, data: ValueId, enable: Enable, source: SourceSpan) -> (result: Result<
        ValueId,
        SynthError,
    >)
        requires
            old(self)@.wf(),
        ensures
            appended(
                old(self)@,
                final(self)@,
                OpView::TriState { data, enable },
                old(self)@.ty(data),
                source,
                result,
            ),
            final(self)@.wf(),
            old(self)@.grows_to(final(self)@),
    {
        match self.value_type(data) {
            Some(ty) => self.add_operation(OpKind::TriState { data, enable }, ty, source),
            None => {
                assert(op_inputs(OpView::TriState { data, enable })[0] == data);
                Err(SynthError::Invariant(Invariant::UnknownValue))
            },
        }
    }

    /// Appends a change of type.
    pub fn cast(&mut self, kind: CastKind, value: ValueId, target: WordType, source: SourceSpan)
        -> (result: Result<ValueId, SynthError>)
        requires
            old(self)@.wf(),
        ensures
            appended(
                old(self)@,
                final(self)@,
                OpView::Cast { kind, value, target },
                target,
                source,
                result,
            ),
            final(self)@.wf(),
            old(self)@.grows_to(final(self)@),
    {
        self.add_operation(OpKind::Cast { kind, value, target }, target, source)
    }

    /// Appends a register; its result has the type of its data.
    pub fn register(&mut self, register: RegisterOp, source: SourceSpan) -> (result: Result<
        ValueId,
        SynthError,
    >)
        requires
            old(self)@.wf(),
        ensures
            appended(
                old(self)@,
                final(self)@,
                OpView::Register(register@),
                old(self)@.ty(register.d),
                source,
                result,
            ),
            final(self)@.wf(),
            old(self)@.grows_to(final(self)@),
    {
        match self.value_type(register.d) {
            Some(ty) => self.add_operation(OpKind::Register(register), ty, source),
            None => {
                assert(op_inputs(OpView::Register(register@))[0] == register.d);
                Err(SynthError::Invariant(Invariant::UnknownValue))
            },
        }
    }

    /// Appends a latch; its result has the type of its data.
    pub fn latch(&mut self, latch: LatchOp, source: SourceSpan) -> (result: Result<
        ValueId,
        SynthError,
    >)
        requires
            old(self)@.wf(),
        ensures
            appended(
                old(self)@,
                final(self)@,
                OpView::Latch(latch@),
                old(self)@.ty(latch.d),
                source,
                result,
            ),
            final(self)@.wf(),
            old(self)@.grows_to(final(self)@),
    {
        match self.value_type(latch.d) {
            Some(ty) => self.add_operation(OpKind::Latch(latch), ty, source),
            None => {
                assert(op_inputs(OpView::Latch(latch@))[0] == latch.d);
                Err(SynthError::Invariant(Invariant::UnknownValue))
            },
        }
    }
}

/// The type of a run of `width` bits.
pub open spec fn slice_of(ty: WordType, width: u32) -> WordType {
    WordType { width, signed: false, state: ty.state }
}

/// The type of a read of `width` bits of a signal.
pub open spec fn slice_type(ty: WordType, width: u32) -> WordType {
    if width == ty.width {
        ty
    } else {
        slice_of(ty, width)
    }
}

pub open spec fn concat_type(module: ModuleView, parts: Seq<ValueId>) -> WordType {
    WordType {
        width: if parts_width(module, parts) <= u32::MAX {
            parts_width(module, parts) as u32
        } else {
            0
        },
        signed: false,
        state: LogicStateKind::FourState,
    }
}

proof fn lemma_parts_width_prefix(module: ModuleView, parts: Seq<ValueId>, count: int)
    requires
        0 <= count <= parts.len(),
    ensures
        parts_width(module, parts.take(count)) <= parts_width(module, parts),
    decreases parts.len() - count,
{
    if count == parts.len() {
        assert(parts.take(count) =~= parts);
    } else {
        lemma_parts_width_prefix(module, parts, count + 1);
        assert(parts.take(count + 1).drop_last() =~= parts.take(count));
    }
}

} // verus!
