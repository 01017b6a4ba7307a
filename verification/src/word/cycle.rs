//! Combinational loops.

use super::drivers::{bit_driver, lemma_folded_driver, SignalDriverIndex, ValueBit};
use super::module::{parts_width, KindView, ModuleView, ValueKind, WordModule};
use super::types::{op_inputs, BinaryOp, OpId, OpKind, OpView, UnaryOp, ValueId};
use crate::error::{CombinationalCycle, CycleNode, SynthError};
use vstd::prelude::*;

verus! {

/// A value that is worked out from another one without state between them: an
/// operand of its operation, or what drives the signal that it reads.
pub open spec fn value_leads(
    module: ModuleView,
    drivers: &SignalDriverIndex,
    value: ValueId,
    part: ValueId,
) -> bool {
    &&& module.has(value)
    &&& match module.kind(value) {
        KindView::Constant(_) => false,
        KindView::Signal(reference) => drivers.resolves(reference) && drivers.drives(
            reference,
            part,
        ),
        KindView::Operation(operation) => {
            let kind = module.operations[operation.raw as int].kind;
            !(kind is Register) && !(kind is Latch) && op_inputs(kind).contains(part)
        },
    }
}

/// A walk along what values are worked out from.
pub open spec fn value_walk(
    module: ModuleView,
    drivers: &SignalDriverIndex,
    walk: Seq<ValueId>,
) -> bool {
    &&& walk.len() >= 2
    &&& forall|i: int|
        0 <= i < walk.len() - 1 ==> value_leads(module, drivers, #[trigger] walk[i], walk[i + 1])
}

/// Some value is worked out from itself.
pub open spec fn values_loop(module: ModuleView, drivers: &SignalDriverIndex) -> bool {
    exists|walk: Seq<ValueId>| #[trigger]
        value_walk(module, drivers, walk) && walk[0] == walk.last()
}

/// The place in a part of a concatenation of one of its bits. It lies within the
/// part where the part holds the bit.
pub open spec fn part_place(module: ModuleView, parts: Seq<ValueId>, part: int, bit: int) -> int {
    bit - (parts_width(module, parts) - parts_width(module, parts.take(part + 1)))
}

/// A bit of a value, the last one where it has no such bit.
pub open spec fn last_bit(module: ModuleView, value: ValueId, bit: int) -> int {
    if bit < module.ty(value).width {
        bit
    } else {
        module.ty(value).width - 1
    }
}

/// A bit of an operation is worked out from a bit of an operand. Where an operation
/// does not go bit by bit, every bit of it is worked out from all of its operands.
pub open spec fn operation_depends(
    module: ModuleView,
    operation: OpId,
    bit: int,
    part: ValueId,
    place: int,
) -> bool {
    let kind = module.operations[operation.raw as int].kind;
    match kind {
        OpView::Unary { op, arg } => part == arg && (op is BitNot ==> place == bit),
        OpView::Binary { op, left, right } => (part == left || part == right) && ((op is BitAnd
            || op is BitOr || op is BitXor) ==> place == last_bit(module, part, bit)),
        OpView::Mux { cond, then_value, else_value } => part == cond || (part == then_value || part
            == else_value) && place == bit,
        OpView::Concat { parts } => exists|k: int|
            0 <= k < parts.len() && #[trigger] parts[k] == part && place == part_place(
                module,
                parts,
                k,
                bit,
            ),
        OpView::Extract { value, lsb, width } => part == value && place == lsb + bit,
        OpView::Cast { kind, value, target } => part == value && place == last_bit(
            module,
            part,
            bit,
        ),
        OpView::DynamicExtract { value, offset, width } => part == value || part == offset,
        OpView::DynamicInsert { value, offset, replacement } => part == value || part == offset
            || part == replacement,
        OpView::TriState { data, enable } => part == data || part == enable.value,
        OpView::Register(_) => false,
        OpView::Latch(_) => false,
    }
}

/// A module has a bit.
pub open spec fn has_bit(module: ModuleView, node: ValueBit) -> bool {
    module.has(node.value) && node.bit < module.ty(node.value).width
}

/// A bit is worked out from another one without state between them.
pub open spec fn bit_depends(
    module: ModuleView,
    drivers: &SignalDriverIndex,
    node: ValueBit,
    next: ValueBit,
) -> bool {
    &&& has_bit(module, node)
    &&& has_bit(module, next)
    &&& match module.kind(node.value) {
        KindView::Constant(_) => false,
        KindView::Signal(reference) => drivers.resolves(reference) && drivers.driver_at(
            reference,
            node.bit as int,
        ) == Some(next),
        KindView::Operation(operation) => operation_depends(
            module,
            operation,
            node.bit as int,
            next.value,
            next.bit as int,
        ),
    }
}

/// Every bit has a rank above those of the bits that it is worked out from.
pub open spec fn bits_ranked(
    module: ModuleView,
    drivers: &SignalDriverIndex,
    rank: spec_fn(ValueBit) -> nat,
) -> bool {
    &&& forall|node: ValueBit| #[trigger] rank(node) < 0x1_0000_0000_0000_0000
    &&& forall|node: ValueBit, next: ValueBit| #[trigger]
        bit_depends(module, drivers, node, next) ==> rank(next) < rank(node)
}

/// No bit is worked out from itself.
#[verifier::opaque]
pub open spec fn bits_acyclic(module: ModuleView, drivers: &SignalDriverIndex) -> bool {
    exists|rank: spec_fn(ValueBit) -> nat| #[trigger] bits_ranked(module, drivers, rank)
}

/// The bit after one on a loop.
pub open spec fn after_on(path: Seq<ValueBit>, i: int) -> ValueBit {
    if i + 1 < path.len() {
        path[i + 1]
    } else {
        path[0]
    }
}

/// A bit of a path is worked out from the next one.
pub open spec fn on_loop(
    module: ModuleView,
    drivers: &SignalDriverIndex,
    path: Seq<ValueBit>,
    i: int,
) -> bool {
    bit_depends(module, drivers, path[i], after_on(path, i))
}

pub open spec fn not_above(left: ValueBit, right: ValueBit) -> bool {
    left.value.raw < right.value.raw || left.value.raw == right.value.raw && left.bit <= right.bit
}

/// A loop: every bit of the path is worked out from the next one and the last one
/// from the first, no bit stands on it twice, and it starts at the first bit in the
/// order of the module.
pub open spec fn bit_loop(
    module: ModuleView,
    drivers: &SignalDriverIndex,
    path: Seq<ValueBit>,
) -> bool {
    &&& path.len() > 0
    &&& path.no_duplicates()
    &&& forall|i: int|
        0 <= i < path.len() ==> #[trigger] on_loop(module, drivers, path, i)
    &&& forall|i: int| 0 <= i < path.len() ==> not_above(path[0], #[trigger] path[i])
}

/// A walk along what bits are worked out from.
pub open spec fn bit_walk(
    module: ModuleView,
    drivers: &SignalDriverIndex,
    walk: Seq<ValueBit>,
) -> bool {
    &&& walk.len() > 0
    &&& forall|i: int|
        0 <= i < walk.len() - 1 ==> bit_depends(module, drivers, #[trigger] walk[i], walk[i + 1])
}

/// A bit is another one, or is worked out from it at some remove.
pub open spec fn bit_leads_to(
    module: ModuleView,
    drivers: &SignalDriverIndex,
    bit: ValueBit,
    other: ValueBit,
) -> bool {
    exists|walk: Seq<ValueBit>| #[trigger]
        bit_walk(module, drivers, walk) && walk[0] == bit && walk.last() == other
}

/// A bit leads to no loop.
pub open spec fn bit_tame(module: ModuleView, drivers: &SignalDriverIndex, bit: ValueBit) -> bool {
    forall|path: Seq<ValueBit>| #[trigger]
        bit_loop(module, drivers, path) ==> !bit_leads_to(module, drivers, bit, path[0])
}

/// A bit leads to a loop, and none before it in the order of the module leads to one.
pub open spec fn first_to_loop(
    module: ModuleView,
    drivers: &SignalDriverIndex,
    bit: ValueBit,
    path: Seq<ValueBit>,
) -> bool {
    &&& has_bit(module, bit)
    &&& bit_leads_to(module, drivers, bit, path[0])
    &&& forall|other: ValueBit|
        has_bit(module, other) && !not_above(bit, other) ==> #[trigger] bit_tame(
            module,
            drivers,
            other,
        )
}

/// A loop that the first bit that leads to one leads to.
pub open spec fn first_loop(
    module: ModuleView,
    drivers: &SignalDriverIndex,
    path: Seq<ValueBit>,
) -> bool {
    &&& bit_loop(module, drivers, path)
    &&& exists|bit: ValueBit| #[trigger] first_to_loop(module, drivers, bit, path)
}

/// The name of the signal that a value reads.
pub open spec fn read_name(module: ModuleView, value: ValueId) -> Option<Seq<char>> {
    match module.kind(value) {
        KindView::Signal(reference) => match module.signals[reference.signal.raw as int].name {
            Some(name) => if name.raw < module.names.len() {
                Some(module.names[name.raw as int])
            } else {
                None
            },
            None => None,
        },
        _ => None,
    }
}

/// A node tells of a bit where its value comes from and what signal it reads.
pub open spec fn tells(module: ModuleView, node: CycleNode, bit: ValueBit) -> bool {
    &&& node.value == bit.value
    &&& node.bit == bit.bit
    &&& node.source == module.values[bit.value.raw as int].source
    &&& match node.signal {
        Some(name) => read_name(module, bit.value) == Some(name@),
        None => read_name(module, bit.value) is None,
    }
}

/// An error tells of a loop of a module, one that the first bit that leads to a loop
/// leads to.
pub open spec fn loop_error(
    module: ModuleView,
    drivers: &SignalDriverIndex,
    name: Seq<char>,
    error: SynthError,
) -> bool {
    match error {
        SynthError::CombinationalCycle(cycle) => {
            &&& cycle.module@ == name
            &&& exists|path: Seq<ValueBit>| #[trigger]
                first_loop(module, drivers, path) && path.len() == cycle.path@.len() && forall|i: int|
                    0 <= i < path.len() ==> tells(module, #[trigger] cycle.path@[i], path[i])
        },
        _ => false,
    }
}

fn push_bit(list: &mut Vec<ValueBit>, value: ValueId, bit: u64, width: u32)
    ensures
        forall|node: ValueBit| #[trigger]
            final(list)@.contains(node) <==> old(list)@.contains(node) || node.value == value
                && node.bit == bit && node.bit < width,
{
    let ghost before = list@;
    if bit < width as u64 {
        let node = ValueBit { value, bit: bit as u32 };
        list.push(node);
        proof {
            lemma_pushed(before, node);
        }
    }
}

proof fn lemma_pushed(before: Seq<ValueBit>, last: ValueBit)
    ensures
        forall|node: ValueBit| #[trigger]
            before.push(last).contains(node) <==> before.contains(node) || node == last,
{
    assert forall|node: ValueBit| #[trigger]
        before.push(last).contains(node) <==> before.contains(node) || node == last by {
        if before.contains(node) {
            let i = choose|i: int| 0 <= i < before.len() && before[i] == node;
            assert(before.push(last)[i] == node);
        }
        if node == last {
            assert(before.push(last)[before.len() as int] == node);
        }
    }
}

fn push_bits(list: &mut Vec<ValueBit>, value: ValueId, width: u32)
    ensures
        forall|node: ValueBit| #[trigger]
            final(list)@.contains(node) <==> old(list)@.contains(node) || node.value == value
                && node.bit < width,
{
    let ghost before = list@;
    let mut bit: u32 = 0;
    while bit < width
        invariant
            bit <= width,
            forall|node: ValueBit| #[trigger]
                list@.contains(node) <==> before.contains(node) || node.value == value && node.bit
                    < bit,
        decreases width - bit,
    {
        let node = ValueBit { value, bit };
        proof {
            lemma_pushed(list@, node);
        }
        list.push(node);
        bit += 1;
    }
}

fn width_of(module: &WordModule, value: ValueId) -> (width: u32)
    requires
        module@.wf(),
        module@.has(value),
    ensures
        width == module@.ty(value).width,
        width >= 1,
{
    assert(module@.value_ok(value.raw as int));
    module.values[value.raw as usize].ty.width
}

fn clamped(bit: u32, width: u32) -> (place: u64)
    requires
        width >= 1,
    ensures
        place == if bit < width {
            bit as int
        } else {
            width - 1
        },
{
    if bit < width {
        bit as u64
    } else {
        (width - 1) as u64
    }
}

proof fn lemma_parts_taken(module: ModuleView, parts: Seq<ValueId>, k: int)
    requires
        0 <= k < parts.len(),
    ensures
        parts_width(module, parts.take(k + 1)) == parts_width(module, parts.take(k)) + module.ty(
            parts[k],
        ).width,
{
    assert(parts.take(k + 1).drop_last() =~= parts.take(k));
}

proof fn lemma_parts_ascend(module: ModuleView, parts: Seq<ValueId>, k: int, n: int)
    requires
        0 <= k <= n <= parts.len(),
    ensures
        parts_width(module, parts.take(k)) <= parts_width(module, parts.take(n)),
    decreases n - k,
{
    if k < n {
        lemma_parts_taken(module, parts, n - 1);
        lemma_parts_ascend(module, parts, k, n - 1);
    }
}

fn push_part(list: &mut Vec<ValueBit>, module: &WordModule, parts: &Vec<ValueId>, bit: u32)
    requires
        module@.wf(),
        forall|k: int| 0 <= k < parts@.len() ==> module@.has(#[trigger] parts@[k]),
    ensures
        forall|node: ValueBit| #[trigger]
            final(list)@.contains(node) <==> old(list)@.contains(node) || has_bit(module@, node) && (
            exists|k: int|
                0 <= k < parts@.len() && #[trigger] parts@[k] == node.value && node.bit
                    == part_place(module@, parts@, k, bit as int)),
{
    let ghost before = list@;
    let ghost total = parts_width(module@, parts@);
    let mut k: usize = parts.len();
    let mut below: u64 = 0;
    assert(parts@.take(parts@.len() as int) =~= parts@);
    while k > 0 && below <= bit as u64
        invariant
            module@.wf(),
            forall|k: int| 0 <= k < parts@.len() ==> module@.has(#[trigger] parts@[k]),
            total == parts_width(module@, parts@),
            k <= parts@.len(),
            below == total - parts_width(module@, parts@.take(k as int)),
            below <= 0x2_0000_0000,
            forall|node: ValueBit| #[trigger]
                list@.contains(node) <==> before.contains(node) || has_bit(module@, node) && (
                exists|j: int|
                    k <= j < parts@.len() && #[trigger] parts@[j] == node.value && node.bit
                        == part_place(module@, parts@, j, bit as int)),
        decreases k,
    {
        let ghost row = list@;
        k -= 1;
        let part = parts[k];
        let width = width_of(module, part);
        proof {
            assert(module@.has(parts@[k as int]));
            lemma_parts_taken(module@, parts@, k as int);
        }
        push_bit(list, part, bit as u64 - below, width);
        proof {
            assert(bit - below == part_place(module@, parts@, k as int, bit as int));
            assert forall|node: ValueBit| #[trigger]
                list@.contains(node) <==> before.contains(node) || has_bit(module@, node) && (
                exists|j: int|
                    k <= j < parts@.len() && #[trigger] parts@[j] == node.value && node.bit
                        == part_place(module@, parts@, j, bit as int)) by {
                assert(row.contains(node) <==> before.contains(node) || has_bit(module@, node) && (
                exists|j: int|
                    k + 1 <= j < parts@.len() && #[trigger] parts@[j] == node.value && node.bit
                        == part_place(module@, parts@, j, bit as int)));
                if has_bit(module@, node) && (exists|j: int|
                    k <= j < parts@.len() && #[trigger] parts@[j] == node.value && node.bit
                        == part_place(module@, parts@, j, bit as int)) {
                    let j = choose|j: int|
                        k <= j < parts@.len() && #[trigger] parts@[j] == node.value && node.bit
                            == part_place(module@, parts@, j, bit as int);
                    if j > k {
                        assert(row.contains(node));
                    }
                }
                if node.value == part && node.bit == bit - below && node.bit < width {
                    assert(parts@[k as int] == node.value);
                }
            }
        }
        below += width as u64;
    }
    proof {
        assert forall|node: ValueBit| #[trigger]
            list@.contains(node) <==> before.contains(node) || has_bit(module@, node) && (
            exists|j: int|
                0 <= j < parts@.len() && #[trigger] parts@[j] == node.value && node.bit
                    == part_place(module@, parts@, j, bit as int)) by {
            if has_bit(module@, node) && exists|j: int|
                0 <= j < parts@.len() && #[trigger] parts@[j] == node.value && node.bit
                    == part_place(module@, parts@, j, bit as int) {
                let j = choose|j: int|
                    0 <= j < parts@.len() && #[trigger] parts@[j] == node.value && node.bit
                        == part_place(module@, parts@, j, bit as int);
                if j < k {
                    lemma_parts_ascend(module@, parts@, j + 1, k as int);
                }
            }
        }
    }
}

/// The bits that a bit of an operation is worked out from.
fn operation_dependencies(module: &WordModule, operation: OpId, bit: u32) -> (list: Vec<ValueBit>)
    requires
        module@.wf(),
        operation.raw < module@.operations.len(),
    ensures
        forall|node: ValueBit| #[trigger]
            list@.contains(node) <==> has_bit(module@, node) && operation_depends(
                module@,
                operation,
                bit as int,
                node.value,
                node.bit as int,
            ),
{
    let mut list: Vec<ValueBit> = Vec::new();
    let ghost view = module@.operations[operation.raw as int].kind;
    proof {
        assert(module@.operation_ok(operation.raw as int));
        assert forall|k: int| 0 <= k < op_inputs(view).len() implies module@.has(
            #[trigger] op_inputs(view)[k],
        ) by {}
    }
    match &module.operations[operation.raw as usize].kind {
        OpKind::Unary { op, arg } => {
            assert(op_inputs(view)[0] == *arg);
            let width = width_of(module, *arg);
            if matches!(*op, UnaryOp::BitNot) {
                push_bit(&mut list, *arg, bit as u64, width);
            } else {
                push_bits(&mut list, *arg, width);
            }
        },
        OpKind::Binary { op, left, right } => {
            assert(op_inputs(view)[0] == *left);
            assert(op_inputs(view)[1] == *right);
            let left_width = width_of(module, *left);
            let right_width = width_of(module, *right);
            if matches!(*op, BinaryOp::BitAnd) || matches!(*op, BinaryOp::BitOr)
                || matches!(*op, BinaryOp::BitXor) {
                push_bit(&mut list, *left, clamped(bit, left_width), left_width);
                push_bit(&mut list, *right, clamped(bit, right_width), right_width);
            } else {
                push_bits(&mut list, *left, left_width);
                push_bits(&mut list, *right, right_width);
            }
        },
        OpKind::Mux { cond, then_value, else_value } => {
            assert(op_inputs(view)[0] == *cond);
            assert(op_inputs(view)[1] == *then_value);
            assert(op_inputs(view)[2] == *else_value);
            push_bits(&mut list, *cond, width_of(module, *cond));
            push_bit(&mut list, *then_value, bit as u64, width_of(module, *then_value));
            push_bit(&mut list, *else_value, bit as u64, width_of(module, *else_value));
        },
        OpKind::Concat { parts } => {
            assert(op_inputs(view) == parts@);
            push_part(&mut list, module, parts, bit);
        },
        OpKind::Extract { value, lsb, width: _ } => {
            assert(op_inputs(view)[0] == *value);
            push_bit(&mut list, *value, *lsb as u64 + bit as u64, width_of(module, *value));
        },
        OpKind::Cast { kind: _, value, target: _ } => {
            assert(op_inputs(view)[0] == *value);
            let width = width_of(module, *value);
            push_bit(&mut list, *value, clamped(bit, width), width);
        },
        OpKind::DynamicExtract { value, offset, width: _ } => {
            assert(op_inputs(view)[0] == *value);
            assert(op_inputs(view)[1] == *offset);
            push_bits(&mut list, *value, width_of(module, *value));
            push_bits(&mut list, *offset, width_of(module, *offset));
        },
        OpKind::DynamicInsert { value, offset, replacement } => {
            assert(op_inputs(view)[0] == *value);
            assert(op_inputs(view)[1] == *offset);
            assert(op_inputs(view)[2] == *replacement);
            push_bits(&mut list, *value, width_of(module, *value));
            push_bits(&mut list, *offset, width_of(module, *offset));
            push_bits(&mut list, *replacement, width_of(module, *replacement));
        },
        OpKind::TriState { data, enable } => {
            assert(op_inputs(view)[0] == *data);
            assert(op_inputs(view)[1] == enable.value);
            push_bits(&mut list, *data, width_of(module, *data));
            push_bits(&mut list, enable.value, width_of(module, enable.value));
        },
        OpKind::Register(_) => {},
        OpKind::Latch(_) => {},
    }
    list
}

/// The bits that a bit is worked out from.
fn dependencies(module: &WordModule, drivers: &SignalDriverIndex, node: ValueBit) -> (list: Vec<
    ValueBit,
>)
    requires
        module@.wf(),
        drivers.describes(module@),
        has_bit(module@, node),
    ensures
        forall|next: ValueBit| #[trigger]
            list@.contains(next) <==> bit_depends(module@, drivers, node, next),
{
    assert(module@.value_ok(node.value.raw as int));
    match &module.values[node.value.raw as usize].kind {
        ValueKind::Constant(_) => Vec::new(),
        ValueKind::Signal(reference) => {
            let mut list: Vec<ValueBit> = Vec::new();
            assert(drivers.bits@[reference.signal.raw as int]@.len()
                == module@.signals[reference.signal.raw as int].ty.width);
            if let Some(bits) = drivers.resolve_reference(*reference) {
                let next = bits[node.bit as usize];
                proof {
                    let signal = reference.signal;
                    let place = reference.lsb + node.bit;
                    assert(Some(bits@[node.bit as int]) == drivers.driver_at(
                        *reference,
                        node.bit as int,
                    ));
                    assert(drivers.bits@[signal.raw as int]@[place] == bit_driver(
                        module@,
                        signal,
                        place,
                    ));
                    lemma_folded_driver(module@, signal, place, module@.connects.len());
                    lemma_pushed(list@, next);
                }
                list.push(next);
            }
            list
        },
        ValueKind::Operation(operation) => operation_dependencies(module, *operation, node.bit),
    }
}

/// A bit whose dependencies are being followed, and how many were.
struct Frame {
    node: ValueBit,
    deps: Vec<ValueBit>,
    next: usize,
}

spec fn color(colors: Seq<Vec<u8>>, node: ValueBit) -> u8 {
    colors[node.value.raw as int]@[node.bit as int]
}

spec fn on_stack(stack: Seq<Frame>, node: ValueBit) -> bool {
    exists|i: int| 0 <= i < stack.len() && (#[trigger] stack[i]).node == node
}

spec fn code(node: ValueBit) -> int {
    node.value.raw * 0x1_0000_0000 + node.bit
}

spec fn work(stack: Seq<Frame>) -> nat
    decreases stack.len(),
{
    if stack.len() == 0 {
        0
    } else {
        let last = stack.last();
        work(stack.drop_last()) + 1 + (last.deps@.len() - last.next) as nat
    }
}

spec fn colored(module: ModuleView, colors: Seq<Vec<u8>>) -> bool {
    &&& colors.len() == module.values.len()
    &&& forall|v: int|
        0 <= v < colors.len() ==> (#[trigger] colors[v])@.len() == module.values[v].ty.width
}

/// A frame lists what its bit is worked out from; what was followed is done, or is
/// the frame above.
spec fn frame_ok(
    module: ModuleView,
    drivers: &SignalDriverIndex,
    colors: Seq<Vec<u8>>,
    stack: Seq<Frame>,
    i: int,
) -> bool {
    let frame = stack[i];
    &&& has_bit(module, frame.node)
    &&& color(colors, frame.node) == 1
    &&& frame.next <= frame.deps@.len()
    &&& forall|next: ValueBit| #[trigger]
        frame.deps@.contains(next) <==> bit_depends(module, drivers, frame.node, next)
    &&& i + 1 < stack.len() ==> frame.next >= 1 && frame.deps@[frame.next - 1] == stack[i + 1].node
    &&& forall|j: int|
        0 <= j < frame.next - (if i + 1 < stack.len() {
            1int
        } else {
            0int
        }) ==> color(colors, #[trigger] frame.deps@[j]) == 2
}

spec fn done_ok(
    module: ModuleView,
    drivers: &SignalDriverIndex,
    colors: Seq<Vec<u8>>,
    ranks: Map<ValueBit, nat>,
    clock: nat,
    node: ValueBit,
) -> bool {
    &&& ranks[node] < clock
    &&& forall|next: ValueBit| #[trigger]
        bit_depends(module, drivers, node, next) ==> color(colors, next) == 2 && ranks[next]
            < ranks[node]
}

/// What holds while dependencies are followed.
#[verifier::opaque]
spec fn searching(
    module: ModuleView,
    drivers: &SignalDriverIndex,
    colors: Seq<Vec<u8>>,
    stack: Seq<Frame>,
    ranks: Map<ValueBit, nat>,
    clock: nat,
    touched: Set<int>,
) -> bool {
    &&& colored(module, colors)
    &&& forall|i: int| 0 <= i < stack.len() ==> #[trigger] frame_ok(module, drivers, colors, stack, i)
    &&& forall|i: int, j: int|
        0 <= i < j < stack.len() ==> (#[trigger] stack[i]).node != (#[trigger] stack[j]).node
    &&& forall|node: ValueBit|
        has_bit(module, node) && #[trigger] color(colors, node) == 1 ==> on_stack(stack, node)
    &&& forall|node: ValueBit|
        has_bit(module, node) ==> #[trigger] color(colors, node) <= 2
    &&& forall|node: ValueBit|
        has_bit(module, node) && #[trigger] color(colors, node) == 2 ==> done_ok(
            module,
            drivers,
            colors,
            ranks,
            clock,
            node,
        )
    &&& touched.finite()
    &&& clock + stack.len() == touched.len()
    &&& forall|node: ValueBit|
        has_bit(module, node) ==> (#[trigger] color(colors, node) != 0 <==> touched.contains(
            code(node),
        ))
    &&& forall|c: int| #[trigger]
        touched.contains(c) ==> 0 <= c < module.values.len() * 0x1_0000_0000
}

proof fn lemma_recolored(
    module: ModuleView,
    before: Seq<Vec<u8>>,
    after: Seq<Vec<u8>>,
    node: ValueBit,
    shade: u8,
)
    requires
        module.wf(),
        colored(module, before),
        has_bit(module, node),
        after.len() == before.len(),
        after[node.value.raw as int]@ == before[node.value.raw as int]@.update(
            node.bit as int,
            shade,
        ),
        forall|v: int|
            0 <= v < before.len() && v != node.value.raw ==> #[trigger] after[v] == before[v],
    ensures
        colored(module, after),
        color(after, node) == shade,
        forall|other: ValueBit|
            has_bit(module, other) && other != node ==> #[trigger] color(after, other) == color(
                before,
                other,
            ),
{
    assert forall|v: int| 0 <= v < after.len() implies (#[trigger] after[v])@.len()
        == module.values[v].ty.width by {
        assert(before[v]@.len() == module.values[v].ty.width);
    }
    assert forall|other: ValueBit| has_bit(module, other) && other != node implies #[trigger] color(
        after,
        other,
    ) == color(before, other) by {
        assert(before[other.value.raw as int]@.len() == module.ty(other.value).width);
        if other.value.raw == node.value.raw {
            assert(other.value == node.value);
        }
    }
}

fn recolor(colors: &mut Vec<Vec<u8>>, node: ValueBit, shade: u8)
    requires
        node.value.raw < old(colors)@.len(),
        node.bit < old(colors)@[node.value.raw as int]@.len(),
    ensures
        final(colors)@.len() == old(colors)@.len(),
        final(colors)@[node.value.raw as int]@ == old(colors)@[node.value.raw as int]@.update(
            node.bit as int,
            shade,
        ),
        forall|v: int|
            0 <= v < old(colors)@.len() && v != node.value.raw ==> #[trigger] final(colors)@[v]
                == old(colors)@[v],
{
    let row = &mut colors[node.value.raw as usize];
    row.set(node.bit as usize, shade);
}

/// A bit that was not touched is put on the stack.
proof fn lemma_entered(
    module: ModuleView,
    drivers: &SignalDriverIndex,
    before: Seq<Vec<u8>>,
    after: Seq<Vec<u8>>,
    stack: Seq<Frame>,
    ranks: Map<ValueBit, nat>,
    clock: nat,
    touched: Set<int>,
    frame: Frame,
)
    requires
        module.wf(),
        colored(module, before),
        has_bit(module, frame.node),
        color(before, frame.node) == 0,
        after.len() == before.len(),
        after[frame.node.value.raw as int]@ == before[frame.node.value.raw as int]@.update(
            frame.node.bit as int,
            1,
        ),
        forall|v: int|
            0 <= v < before.len() && v != frame.node.value.raw ==> #[trigger] after[v] == before[v],
        stack.len() > 0 ==> stack.last().next >= 1 && stack.last().next <= stack.last().deps@.len()
            && stack.last().deps@[stack.last().next - 1] == frame.node && searching(
            module,
            drivers,
            before,
            stack.drop_last().push(
                Frame { next: (stack.last().next - 1) as usize, ..stack.last() },
            ),
            ranks,
            clock,
            touched,
        ),
        stack.len() == 0 ==> searching(module, drivers, before, stack, ranks, clock, touched),
        frame.next == 0,
        forall|next: ValueBit| #[trigger]
            frame.deps@.contains(next) <==> bit_depends(module, drivers, frame.node, next),
    ensures
        searching(
            module,
            drivers,
            after,
            stack.push(frame),
            ranks,
            clock,
            touched.insert(code(frame.node)),
        ),
        touched.insert(code(frame.node)).len() == touched.len() + 1,
{
    reveal(searching);
    let old_stack = if stack.len() > 0 {
        stack.drop_last().push(Frame { next: (stack.last().next - 1) as usize, ..stack.last() })
    } else {
        stack
    };
    let grown = stack.push(frame);
    let node = frame.node;
    lemma_recolored(module, before, after, node, 1);
    assert(!touched.contains(code(node)));
    assert forall|i: int| 0 <= i < grown.len() implies #[trigger] frame_ok(
        module,
        drivers,
        after,
        grown,
        i,
    ) by {
        if i < stack.len() {
            assert(frame_ok(module, drivers, before, old_stack, i));
            assert(old_stack[i].node == stack[i].node && old_stack[i].deps == stack[i].deps);
            assert(stack[i].node != node);
            assert forall|j: int|
                0 <= j < grown[i].next - (if i + 1 < grown.len() {
                    1int
                } else {
                    0int
                }) implies color(after, #[trigger] grown[i].deps@[j]) == 2 by {
                assert(color(before, old_stack[i].deps@[j]) == 2);
                assert(old_stack[i].deps@.contains(old_stack[i].deps@[j]));
            }
            if i + 1 < stack.len() {
                assert(old_stack[i + 1].node == stack[i + 1].node);
            }
        }
    }
    assert forall|i: int, j: int| 0 <= i < j < grown.len() implies (#[trigger] grown[i]).node != (
    #[trigger] grown[j]).node by {
        assert(old_stack[i].node == grown[i].node);
        assert(frame_ok(module, drivers, before, old_stack, i));
        if j < stack.len() {
            assert(old_stack[j].node == grown[j].node);
        }
    }
    assert forall|other: ValueBit|
        has_bit(module, other) && #[trigger] color(after, other) == 1 implies on_stack(
        grown,
        other,
    ) by {
        if other == node {
            assert(grown[stack.len() as int].node == node);
        } else {
            assert(on_stack(old_stack, other));
            let i = choose|i: int|
                0 <= i < old_stack.len() && (#[trigger] old_stack[i]).node == other;
            assert(grown[i].node == other);
        }
    }
    assert forall|other: ValueBit|
        has_bit(module, other) && #[trigger] color(after, other) == 2 implies done_ok(
        module,
        drivers,
        after,
        ranks,
        clock,
        other,
    ) by {
        assert(color(before, other) == 2);
        assert forall|next: ValueBit| #[trigger]
            bit_depends(module, drivers, other, next) implies color(after, next) == 2 by {
            assert(color(before, next) == 2);
        }
    }
    assert forall|other: ValueBit| has_bit(module, other) implies (#[trigger] color(after, other)
        != 0 <==> touched.insert(code(node)).contains(code(other))) by {
        if other != node {
            assert(code(other) != code(node));
            assert(color(after, other) == color(before, other));
        }
    }
    assert(code(node) < module.values.len() * 0x1_0000_0000);
}

/// A bit whose dependencies are all done is done.
proof fn lemma_left(
    module: ModuleView,
    drivers: &SignalDriverIndex,
    before: Seq<Vec<u8>>,
    after: Seq<Vec<u8>>,
    stack: Seq<Frame>,
    ranks: Map<ValueBit, nat>,
    clock: nat,
    touched: Set<int>,
)
    requires
        module.wf(),
        searching(module, drivers, before, stack, ranks, clock, touched),
        stack.len() > 0,
        stack.last().next == stack.last().deps@.len(),
        after.len() == before.len(),
        after[stack.last().node.value.raw as int]@ == before[stack.last().node.value.raw as int]@.update(
            stack.last().node.bit as int,
            2,
        ),
        forall|v: int|
            0 <= v < before.len() && v != stack.last().node.value.raw ==> #[trigger] after[v]
                == before[v],
    ensures
        searching(
            module,
            drivers,
            after,
            stack.drop_last(),
            ranks.insert(stack.last().node, clock),
            clock + 1,
            touched,
        ),
{
    reveal(searching);
    let top = stack.len() - 1;
    let frame = stack.last();
    let node = frame.node;
    let rest = stack.drop_last();
    let later = ranks.insert(node, clock);
    assert(frame_ok(module, drivers, before, stack, top));
    lemma_recolored(module, before, after, node, 2);
    assert forall|i: int| 0 <= i < rest.len() implies #[trigger] frame_ok(
        module,
        drivers,
        after,
        rest,
        i,
    ) by {
        assert(frame_ok(module, drivers, before, stack, i));
        assert(stack[i].node != stack[top].node);
        assert forall|j: int|
            0 <= j < rest[i].next - (if i + 1 < rest.len() {
                1int
            } else {
                0int
            }) implies color(after, #[trigger] rest[i].deps@[j]) == 2 by {
            assert(stack[i].deps@.contains(stack[i].deps@[j]));
            if j < stack[i].next - 1 {
                assert(color(before, stack[i].deps@[j]) == 2);
            } else {
                assert(stack[i].deps@[j] == stack[i + 1].node);
            }
        }
    }
    assert forall|other: ValueBit|
        has_bit(module, other) && #[trigger] color(after, other) == 1 implies on_stack(
        rest,
        other,
    ) by {
        assert(color(before, other) == 1);
        let i = choose|i: int| 0 <= i < stack.len() && (#[trigger] stack[i]).node == other;
        assert(rest[i].node == other);
    }
    assert forall|other: ValueBit|
        has_bit(module, other) && #[trigger] color(after, other) == 2 implies done_ok(
        module,
        drivers,
        after,
        later,
        clock + 1,
        other,
    ) by {
        if other == node {
            assert forall|next: ValueBit| #[trigger]
                bit_depends(module, drivers, node, next) implies color(after, next) == 2
                && later[next] < later[node] by {
                assert(frame.deps@.contains(next));
                let j = choose|j: int| 0 <= j < frame.deps@.len() && frame.deps@[j] == next;
                assert(color(before, frame.deps@[j]) == 2);
                assert(done_ok(module, drivers, before, ranks, clock, next));
            }
        } else {
            assert(color(before, other) == 2);
            assert(done_ok(module, drivers, before, ranks, clock, other));
            assert forall|next: ValueBit| #[trigger]
                bit_depends(module, drivers, other, next) implies color(after, next) == 2
                && later[next] < later[other] by {
                assert(color(before, next) == 2);
            }
        }
    }
    assert forall|other: ValueBit| has_bit(module, other) implies (#[trigger] color(after, other)
        != 0 <==> touched.contains(code(other))) by {
        assert(color(before, other) != 0 <==> touched.contains(code(other)));
    }
}

/// A dependency that is done is passed over.
proof fn lemma_passed(
    module: ModuleView,
    drivers: &SignalDriverIndex,
    colors: Seq<Vec<u8>>,
    before: Seq<Frame>,
    after: Seq<Frame>,
    ranks: Map<ValueBit, nat>,
    clock: nat,
    touched: Set<int>,
)
    requires
        searching(module, drivers, colors, before, ranks, clock, touched),
        before.len() > 0,
        before.last().next < before.last().deps@.len(),
        color(colors, before.last().deps@[before.last().next as int]) == 2,
        after == before.drop_last().push(
            Frame { next: (before.last().next + 1) as usize, ..before.last() },
        ),
    ensures
        searching(module, drivers, colors, after, ranks, clock, touched),
{
    reveal(searching);
    assert forall|i: int| 0 <= i < after.len() implies #[trigger] frame_ok(
        module,
        drivers,
        colors,
        after,
        i,
    ) by {
        assert(frame_ok(module, drivers, colors, before, i));
        assert(after[i].node == before[i].node && after[i].deps == before[i].deps);
        if i + 1 < before.len() {
            assert(after[i + 1].node == before[i + 1].node);
        }
        assert forall|j: int|
            0 <= j < after[i].next - (if i + 1 < after.len() {
                1int
            } else {
                0int
            }) implies color(colors, #[trigger] after[i].deps@[j]) == 2 by {
            if j < before[i].next - (if i + 1 < after.len() {
                1int
            } else {
                0int
            }) {
                assert(color(colors, before[i].deps@[j]) == 2);
            }
        }
    }
    assert forall|i: int, j: int| 0 <= i < j < after.len() implies (#[trigger] after[i]).node != (
    #[trigger] after[j]).node by {
        assert(before[i].node != before[j].node);
    }
    assert forall|other: ValueBit|
        has_bit(module, other) && #[trigger] color(colors, other) == 1 implies on_stack(
        after,
        other,
    ) by {
        let i = choose|i: int| 0 <= i < before.len() && (#[trigger] before[i]).node == other;
        assert(after[i].node == other);
    }
}

/// A path whose last bit is worked out from its first one.
spec fn closed_path(module: ModuleView, drivers: &SignalDriverIndex, path: Seq<ValueBit>) -> bool {
    &&& path.len() > 0
    &&& path.no_duplicates()
    &&& forall|i: int|
        0 <= i < path.len() ==> #[trigger] on_loop(module, drivers, path, i)
}

proof fn lemma_turned(module: ModuleView, drivers: &SignalDriverIndex, path: Seq<ValueBit>, m: int)
    requires
        closed_path(module, drivers, path),
        0 <= m < path.len(),
        forall|k: int| 0 <= k < path.len() ==> not_above(path[m], #[trigger] path[k]),
    ensures
        bit_loop(module, drivers, path.skip(m) + path.take(m)),
{
    let n = path.len() as int;
    let r = path.skip(m) + path.take(m);
    assert forall|i: int| 0 <= i < n implies #[trigger] on_loop(module, drivers, r, i) by {
        let at = if i < n - m {
            m + i
        } else {
            i - (n - m)
        };
        assert(r[i] == path[at]);
        assert(on_loop(module, drivers, path, at));
        if i + 1 < n {
            if i + 1 < n - m {
                assert(r[i + 1] == path[m + i + 1]);
            } else {
                assert(r[i + 1] == path[i + 1 - (n - m)]);
            }
        } else {
            assert(r[0] == path[m]);
        }
        assert(after_on(r, i) == after_on(path, at));
    }
    assert forall|i: int, j: int| 0 <= i < n && 0 <= j < n && i != j implies r[i] != r[j] by {
        let a = if i < n - m {
            m + i
        } else {
            i - (n - m)
        };
        let b = if j < n - m {
            m + j
        } else {
            j - (n - m)
        };
        assert(r[i] == path[a] && r[j] == path[b] && a != b);
    }
    assert(r[0] == path[m]);
    assert forall|i: int| 0 <= i < n implies not_above(r[0], #[trigger] r[i]) by {
        let at = if i < n - m {
            m + i
        } else {
            i - (n - m)
        };
        assert(r[i] == path[at]);
    }
}

/// Turns a loop so that it starts at its first bit in the order of the module.
fn turned(module: &WordModule, drivers: &SignalDriverIndex, path: Vec<ValueBit>) -> (turned: Vec<
    ValueBit,
>)
    requires
        closed_path(module@, drivers, path@),
    ensures
        bit_loop(module@, drivers, turned@),
        exists|m: int| 0 <= m < path@.len() && turned@[0] == #[trigger] path@[m],
{
    let mut least: usize = 0;
    let mut i: usize = 1;
    while i < path.len()
        invariant
            least < path@.len(),
            1 <= i <= path@.len(),
            forall|k: int| 0 <= k < i ==> not_above(path@[least as int], #[trigger] path@[k]),
        decreases path.len() - i,
    {
        if path[i].value.raw < path[least].value.raw || path[i].value.raw == path[least].value.raw
            && path[i].bit < path[least].bit {
            least = i;
        }
        i += 1;
    }
    let ghost n = path@.len() as int;
    let mut result: Vec<ValueBit> = Vec::new();
    let mut k: usize = least;
    while k < path.len()
        invariant
            least <= k <= path@.len(),
            result@ =~= path@.subrange(least as int, k as int),
        decreases path.len() - k,
    {
        result.push(path[k]);
        k += 1;
    }
    k = 0;
    while k < least
        invariant
            k <= least < path@.len(),
            n == path@.len(),
            result@ =~= path@.subrange(least as int, n) + path@.subrange(0, k as int),
        decreases least - k,
    {
        result.push(path[k]);
        k += 1;
    }
    proof {
        lemma_turned(module@, drivers, path@, least as int);
        assert(path@.subrange(0, least as int) =~= path@.take(least as int));
        assert(path@.subrange(least as int, n) =~= path@.skip(least as int));
        assert(result@[0] == path@[least as int]);
    }
    result
}

/// What stands on the stack is what its lowest bit leads to.
proof fn lemma_stack_leads(
    module: ModuleView,
    drivers: &SignalDriverIndex,
    colors: Seq<Vec<u8>>,
    stack: Seq<Frame>,
    at: int,
)
    requires
        0 <= at < stack.len(),
        forall|i: int|
            0 <= i < stack.len() ==> #[trigger] frame_ok(module, drivers, colors, stack, i),
    ensures
        bit_leads_to(module, drivers, stack[0].node, stack[at].node),
{
    let walk = Seq::new((at + 1) as nat, |i: int| stack[i].node);
    assert forall|i: int| 0 <= i < walk.len() - 1 implies bit_depends(
        module,
        drivers,
        #[trigger] walk[i],
        walk[i + 1],
    ) by {
        assert(frame_ok(module, drivers, colors, stack, i));
        let frame = stack[i];
        assert(frame.deps@.contains(frame.deps@[frame.next - 1]));
    }
    assert(bit_walk(module, drivers, walk) && walk[0] == stack[0].node && walk.last()
        == stack[at].node);
}

/// A bit that is done with leads to no loop.
proof fn lemma_done_tame(
    module: ModuleView,
    drivers: &SignalDriverIndex,
    colors: Seq<Vec<u8>>,
    ranks: Map<ValueBit, nat>,
    clock: nat,
    touched: Set<int>,
    bit: ValueBit,
)
    requires
        searching(module, drivers, colors, Seq::empty(), ranks, clock, touched),
        has_bit(module, bit),
        color(colors, bit) == 2,
    ensures
        bit_tame(module, drivers, bit),
{
    assert forall|path: Seq<ValueBit>| #[trigger]
        bit_loop(module, drivers, path) implies !bit_leads_to(module, drivers, bit, path[0]) by {
        if bit_leads_to(module, drivers, bit, path[0]) {
            let walk = choose|walk: Seq<ValueBit>| #[trigger]
                bit_walk(module, drivers, walk) && walk[0] == bit && walk.last() == path[0];
            lemma_walk_done(module, drivers, colors, ranks, clock, touched, walk, walk.len() - 1);
            let last = path.len() - 1;
            lemma_loop_done(module, drivers, colors, ranks, clock, touched, path, last);
            reveal(searching);
            assert(on_loop(module, drivers, path, last));
            assert(done_ok(module, drivers, colors, ranks, clock, path[last]));
        }
    }
}

proof fn lemma_walk_done(
    module: ModuleView,
    drivers: &SignalDriverIndex,
    colors: Seq<Vec<u8>>,
    ranks: Map<ValueBit, nat>,
    clock: nat,
    touched: Set<int>,
    walk: Seq<ValueBit>,
    i: int,
)
    requires
        searching(module, drivers, colors, Seq::empty(), ranks, clock, touched),
        bit_walk(module, drivers, walk),
        has_bit(module, walk[0]),
        color(colors, walk[0]) == 2,
        0 <= i < walk.len(),
    ensures
        has_bit(module, walk[i]),
        color(colors, walk[i]) == 2,
    decreases i,
{
    if i > 0 {
        lemma_walk_done(module, drivers, colors, ranks, clock, touched, walk, i - 1);
        reveal(searching);
        assert(done_ok(module, drivers, colors, ranks, clock, walk[i - 1]));
        assert(bit_depends(module, drivers, walk[i - 1], walk[i - 1 + 1]));
    }
}

proof fn lemma_loop_done(
    module: ModuleView,
    drivers: &SignalDriverIndex,
    colors: Seq<Vec<u8>>,
    ranks: Map<ValueBit, nat>,
    clock: nat,
    touched: Set<int>,
    path: Seq<ValueBit>,
    i: int,
)
    requires
        searching(module, drivers, colors, Seq::empty(), ranks, clock, touched),
        bit_loop(module, drivers, path),
        has_bit(module, path[0]),
        color(colors, path[0]) == 2,
        0 <= i < path.len(),
    ensures
        has_bit(module, path[i]),
        color(colors, path[i]) == 2,
        ranks[path[i]] + i <= ranks[path[0]],
    decreases i,
{
    if i > 0 {
        lemma_loop_done(module, drivers, colors, ranks, clock, touched, path, i - 1);
        reveal(searching);
        assert(on_loop(module, drivers, path, i - 1));
        assert(done_ok(module, drivers, colors, ranks, clock, path[i - 1]));
    }
}

/// Follows dependencies until the stack is empty, or a bit is met again.
#[verifier::rlimit(40)]
fn search(
    module: &WordModule,
    drivers: &SignalDriverIndex,
    colors: &mut Vec<Vec<u8>>,
    start: ValueBit,
    Ghost(ranks): Ghost<Map<ValueBit, nat>>,
    Ghost(clock): Ghost<nat>,
    Ghost(touched): Ghost<Set<int>>,
) -> (result: (Option<Vec<ValueBit>>, Ghost<(Map<ValueBit, nat>, nat, Set<int>)>))
    requires
        module@.wf(),
        drivers.describes(module@),
        has_bit(module@, start),
        color(old(colors)@, start) == 0,
        searching(module@, drivers, old(colors)@, Seq::empty(), ranks, clock, touched),
    ensures
        match result.0 {
            Some(path) => bit_loop(module@, drivers, path@) && bit_leads_to(
                module@,
                drivers,
                start,
                path@[0],
            ),
            None => {
                &&& searching(
                    module@,
                    drivers,
                    final(colors)@,
                    Seq::empty(),
                    result.1@.0,
                    result.1@.1,
                    result.1@.2,
                )
                &&& color(final(colors)@, start) == 2
                &&& forall|node: ValueBit|
                    has_bit(module@, node) && color(old(colors)@, node) == 2 ==> #[trigger] color(
                        final(colors)@,
                        node,
                    ) == 2
            },
        },
{
    let ghost first = colors@;
    let ghost mut ranks = ranks;
    let ghost mut clock = clock;
    let ghost mut touched = touched;
    let mut stack: Vec<Frame> = Vec::new();
    let deps = dependencies(module, drivers, start);
    proof {
        reveal(searching);
        assert(colors@[start.value.raw as int]@.len() == module@.ty(start.value).width);
    }
    recolor(colors, start, 1);
    let frame = Frame { node: start, deps, next: 0 };
    proof {
        assert(stack@ =~= Seq::empty());
        lemma_entered(
            module@,
            drivers,
            first,
            colors@,
            stack@,
            ranks,
            clock,
            touched,
            frame,
        );
        lemma_recolored(module@, first, colors@, start, 1);
        touched = touched.insert(code(start));
    }
    stack.push(frame);
    while stack.len() > 0
        invariant
            module@.wf(),
            drivers.describes(module@),
            has_bit(module@, start),
            searching(module@, drivers, colors@, stack@, ranks, clock, touched),
            touched.contains(code(start)),
            stack@.len() > 0 ==> stack@[0].node == start,
            forall|node: ValueBit|
                has_bit(module@, node) && color(first, node) == 2 ==> #[trigger] color(
                    colors@,
                    node,
                ) == 2,
        decreases 0x1_0000_0000_0000_0000 - touched.len(), work(stack@),
    {
        let ghost before_stack = stack@;
        let ghost before_colors = colors@;
        let top: usize = stack.len() - 1;
        proof {
            reveal(searching);
            assert(frame_ok(module@, drivers, colors@, stack@, top as int));
        }
        if stack[top].next == stack[top].deps.len() {
            let node = stack[top].node;
            proof {
                assert(colors@[node.value.raw as int]@.len() == module@.ty(node.value).width);
            }
            recolor(colors, node, 2);
            proof {
                lemma_left(
                    module@,
                    drivers,
                    before_colors,
                    colors@,
                    before_stack,
                    ranks,
                    clock,
                    touched,
                );
                lemma_recolored(module@, before_colors, colors@, node, 2);
                ranks = ranks.insert(node, clock);
                clock = clock + 1;
            }
            stack.pop();
            assert(stack@ =~= before_stack.drop_last());
        } else {
            let child = stack[top].deps[stack[top].next];
            let mut frame = match stack.pop() {
                Some(frame) => frame,
                None => {
                    assert(false);
                    return (None, Ghost((ranks, clock, touched)));
                },
            };
            frame.next = frame.next + 1;
            let ghost stepped = frame;
            stack.push(frame);
            proof {
                assert(before_stack[top as int].deps@.contains(child));
                assert(stack@ =~= before_stack.drop_last().push(stepped));
                assert(colors@[child.value.raw as int]@.len() == module@.ty(child.value).width);
                assert(stack@.drop_last() =~= before_stack.drop_last());
                assert(work(stack@) < work(before_stack));
                assert(color(colors@, child) <= 2);
            }
            let shade = colors[child.value.raw as usize][child.bit as usize];
            if shade == 0 {
                let deps = dependencies(module, drivers, child);
                recolor(colors, child, 1);
                let frame = Frame { node: child, deps, next: 0 };
                proof {
                    assert(stack@.drop_last().push(
                        Frame { next: (stack@.last().next - 1) as usize, ..stack@.last() },
                    ) =~= before_stack);
                    lemma_entered(
                        module@,
                        drivers,
                        before_colors,
                        colors@,
                        stack@,
                        ranks,
                        clock,
                        touched,
                        frame,
                    );
                    lemma_recolored(module@, before_colors, colors@, child, 1);
                    touched = touched.insert(code(child));
                    assert(searching(
                        module@,
                        drivers,
                        colors@,
                        stack@.push(frame),
                        ranks,
                        clock,
                        touched,
                    ));
                    crate::word::numbers::lemma_below(
                        touched,
                        (module@.values.len() * 0x1_0000_0000) as nat,
                    );
                }
                stack.push(frame);
            } else if shade == 1 {
                let mut at: usize = 0;
                proof {
                    assert(on_stack(before_stack, child));
                    let i = choose|i: int|
                        0 <= i < before_stack.len() && (#[trigger] before_stack[i]).node == child;
                    assert(stack@[i].node == child);
                }
                while stack[at].node != child
                    invariant
                        on_stack(stack@, child),
                        at < stack@.len(),
                        forall|i: int| 0 <= i < at ==> (#[trigger] stack@[i]).node != child,
                    decreases stack.len() - at,
                {
                    proof {
                        let i = choose|i: int|
                            0 <= i < stack@.len() && (#[trigger] stack@[i]).node == child;
                        assert(at < i);
                    }
                    at += 1;
                }
                let ghost from = at as int;
                let mut path: Vec<ValueBit> = Vec::new();
                while at < stack.len()
                    invariant
                        from <= at <= stack@.len(),
                        path@.len() == at - from,
                        forall|i: int|
                            0 <= i < path@.len() ==> #[trigger] path@[i] == stack@[from + i].node,
                    decreases stack.len() - at,
                {
                    path.push(stack[at].node);
                    at += 1;
                }
                proof {
                    let m = path@.len() as int;
                    assert forall|i: int| 0 <= i < m implies #[trigger] on_loop(
                        module@,
                        drivers,
                        path@,
                        i,
                    ) by {
                        assert(path@[i] == stack@[from + i].node);
                        assert(frame_ok(module@, drivers, colors@, before_stack, from + i));
                        assert(before_stack[from + i].node == stack@[from + i].node);
                        if i + 1 < m {
                            let below = before_stack[from + i];
                            assert(below.deps@[below.next - 1] == before_stack[from + i + 1].node);
                            assert(below.deps@.contains(below.deps@[below.next - 1]));
                            assert(before_stack[from + i + 1].node == stack@[from + i + 1].node);
                        }
                    }
                    assert forall|i: int, j: int| 0 <= i < m && 0 <= j < m && i != j implies path@[i]
                        != path@[j] by {
                        let a = if i < j {
                            i
                        } else {
                            j
                        };
                        let b = if i < j {
                            j
                        } else {
                            i
                        };
                        assert(before_stack[from + a].node != before_stack[from + b].node);
                        assert(before_stack[from + a].node == stack@[from + a].node);
                        assert(before_stack[from + b].node == stack@[from + b].node);
                    }
                }
                let ghost held = path@;
                let turned_path = turned(module, drivers, path);
                proof {
                    let m = choose|m: int|
                        0 <= m < held.len() && turned_path@[0] == #[trigger] held[m];
                    lemma_stack_leads(module@, drivers, before_colors, before_stack, from + m);
                    assert(held[m] == stack@[from + m].node);
                    assert(before_stack[from + m].node == stack@[from + m].node);
                }
                return (Some(turned_path), Ghost((ranks, clock, touched)));
            } else {
                proof {
                    lemma_passed(
                        module@,
                        drivers,
                        colors@,
                        before_stack,
                        stack@,
                        ranks,
                        clock,
                        touched,
                    );
                }
            }
        }
    }
    proof {
        assert(stack@ =~= Seq::empty());
        reveal(searching);
        assert(color(colors@, start) != 0);
        if color(colors@, start) == 1 {
            assert(on_stack(stack@, start));
        }
    }
    (None, Ghost((ranks, clock, touched)))
}

/// A loop of a module, where some bit is worked out from itself.
pub fn find_loop(module: &WordModule, drivers: &SignalDriverIndex) -> (path: Option<Vec<ValueBit>>)
    requires
        module@.wf(),
        drivers.describes(module@),
    ensures
        match path {
            Some(path) => first_loop(module@, drivers, path@),
            None => bits_acyclic(module@, drivers),
        },
{
    let mut colors: Vec<Vec<u8>> = Vec::new();
    let mut v: usize = 0;
    while v < module.values.len()
        invariant
            v <= module@.values.len(),
            colors@.len() == v,
            forall|i: int|
                0 <= i < v ==> (#[trigger] colors@[i])@.len() == module@.values[i].ty.width,
            forall|i: int, b: int|
                0 <= i < v && 0 <= b < module@.values[i].ty.width ==> #[trigger] colors@[i]@[b] == 0,
        decreases module.values.len() - v,
    {
        let mut row: Vec<u8> = Vec::new();
        let width = module.values[v].ty.width;
        let mut b: u32 = 0;
        while b < width
            invariant
                b <= width,
                row@.len() == b,
                forall|i: int| 0 <= i < b ==> #[trigger] row@[i] == 0,
            decreases width - b,
        {
            row.push(0);
            b += 1;
        }
        colors.push(row);
        v += 1;
    }
    let ghost mut ranks: Map<ValueBit, nat> = Map::empty();
    let ghost mut clock: nat = 0;
    let ghost mut touched: Set<int> = Set::empty();
    proof {
        reveal(searching);
        assert forall|node: ValueBit| has_bit(module@, node) implies #[trigger] color(
            colors@,
            node,
        ) == 0 by {
            assert(colors@[node.value.raw as int]@[node.bit as int] == 0);
        }
    }
    v = 0;
    while v < module.values.len()
        invariant
            module@.wf(),
            drivers.describes(module@),
            v <= module@.values.len(),
            searching(module@, drivers, colors@, Seq::empty(), ranks, clock, touched),
            forall|node: ValueBit|
                has_bit(module@, node) && node.value.raw < v ==> #[trigger] color(colors@, node)
                    == 2,
        decreases module.values.len() - v,
    {
        let width = module.values[v].ty.width;
        let mut b: u32 = 0;
        while b < width
            invariant
                module@.wf(),
                drivers.describes(module@),
                v < module@.values.len(),
                width == module@.values[v as int].ty.width,
                b <= width,
                searching(module@, drivers, colors@, Seq::empty(), ranks, clock, touched),
                forall|node: ValueBit|
                    has_bit(module@, node) && (node.value.raw < v || node.value.raw == v && node.bit
                        < b) ==> #[trigger] color(colors@, node) == 2,
            decreases width - b,
        {
            let node = ValueBit { value: ValueId { raw: v as u32 }, bit: b };
            proof {
                reveal(searching);
                assert(colors@[v as int]@.len() == width);
                assert(has_bit(module@, node));
                assert(color(colors@, node) <= 2);
                if color(colors@, node) == 1 {
                    assert(on_stack(Seq::empty(), node));
                }
            }
            if colors[v][b as usize] == 0 {
                let ghost before = colors@;
                let (found, Ghost(state)) = search(
                    module,
                    drivers,
                    &mut colors,
                    node,
                    Ghost(ranks),
                    Ghost(clock),
                    Ghost(touched),
                );
                if let Some(path) = found {
                    proof {
                        assert forall|other: ValueBit|
                            has_bit(module@, other) && !not_above(node, other) implies #[trigger] bit_tame(
                            module@,
                            drivers,
                            other,
                        ) by {
                            assert(color(before, other) == 2);
                            lemma_done_tame(
                                module@,
                                drivers,
                                before,
                                ranks,
                                clock,
                                touched,
                                other,
                            );
                        }
                        assert(first_to_loop(module@, drivers, node, path@));
                    }
                    return Some(path);
                }
                proof {
                    ranks = state.0;
                    clock = state.1;
                    touched = state.2;
                }
            }
            b += 1;
        }
        v += 1;
    }
    proof {
        reveal(searching);
        reveal(bits_acyclic);
        crate::word::numbers::lemma_below(
            touched,
            (module@.values.len() * 0x1_0000_0000) as nat,
        );
        let rank = |node: ValueBit|
            if has_bit(module@, node) {
                ranks[node]
            } else {
                0
            };
        assert forall|node: ValueBit| #[trigger] rank(node) < 0x1_0000_0000_0000_0000 by {
            if has_bit(module@, node) {
                assert(color(colors@, node) == 2);
                assert(done_ok(module@, drivers, colors@, ranks, clock, node));
            }
        }
        assert forall|node: ValueBit, next: ValueBit| #[trigger]
            bit_depends(module@, drivers, node, next) implies rank(next) < rank(node) by {
            assert(color(colors@, node) == 2);
            assert(done_ok(module@, drivers, colors@, ranks, clock, node));
        }
        assert(bits_ranked(module@, drivers, rank));
    }
    None
}

proof fn lemma_ranked_path(
    module: ModuleView,
    drivers: &SignalDriverIndex,
    rank: spec_fn(ValueBit) -> nat,
    path: Seq<ValueBit>,
    i: int,
)
    requires
        bits_ranked(module, drivers, rank),
        bit_loop(module, drivers, path),
        0 <= i < path.len(),
    ensures
        rank(path[i]) + i <= rank(path[0]),
    decreases i,
{
    if i > 0 {
        lemma_ranked_path(module, drivers, rank, path, i - 1);
        assert(on_loop(module, drivers, path, i - 1));
    }
}

/// A module without loops has none.
pub proof fn acyclic_bits_have_no_loop(
    module: ModuleView,
    drivers: &SignalDriverIndex,
    path: Seq<ValueBit>,
)
    requires
        bits_acyclic(module, drivers),
    ensures
        !bit_loop(module, drivers, path),
{
    reveal(bits_acyclic);
    let rank = choose|rank: spec_fn(ValueBit) -> nat| #[trigger]
        bits_ranked(module, drivers, rank);
    if bit_loop(module, drivers, path) {
        let last = path.len() - 1;
        lemma_ranked_path(module, drivers, rank, path, last);
        assert(on_loop(module, drivers, path, last));
    }
}

fn told(module: &WordModule, bit: ValueBit) -> (node: CycleNode)
    requires
        module@.wf(),
        module@.has(bit.value),
    ensures
        tells(module@, node, bit),
{
    let source = module.values[bit.value.raw as usize].source;
    let mut signal: Option<String> = None;
    assert(module@.value_ok(bit.value.raw as int));
    if let ValueKind::Signal(reference) = &module.values[bit.value.raw as usize].kind {
        if let Some(name) = module.signals[reference.signal.raw as usize].name {
            if (name.raw as usize) < module.names.len() {
                signal = Some(module.names[name.raw as usize].clone());
            }
        }
    }
    CycleNode { value: bit.value, bit: bit.bit, source, signal }
}

/// Refuses a module in which some bit is worked out from itself, and tells of such a
/// loop.
pub fn validate_combinational_acyclic(module: &WordModule, drivers: &SignalDriverIndex) -> (result:
    Result<(), SynthError>)
    requires
        module@.wf(),
        drivers.describes(module@),
    ensures
        match result {
            Ok(_) => bits_acyclic(module@, drivers),
            Err(error) => !bits_acyclic(module@, drivers) && loop_error(
                module@,
                drivers,
                module.name@,
                error,
            ),
        },
{
    let path = match find_loop(module, drivers) {
        Some(path) => path,
        None => return Ok(()),
    };
    let mut nodes: Vec<CycleNode> = Vec::new();
    let mut i: usize = 0;
    while i < path.len()
        invariant
            module@.wf(),
            first_loop(module@, drivers, path@),
            i <= path@.len(),
            nodes@.len() == i,
            forall|k: int| 0 <= k < i ==> tells(module@, #[trigger] nodes@[k], path@[k]),
        decreases path.len() - i,
    {
        assert(on_loop(module@, drivers, path@, i as int));
        nodes.push(told(module, path[i]));
        i += 1;
    }
    proof {
        if bits_acyclic(module@, drivers) {
            acyclic_bits_have_no_loop(module@, drivers, path@);
        }
    }
    Err(
        SynthError::CombinationalCycle(
            CombinationalCycle { module: module.name.clone(), path: nodes },
        ),
    )
}

} // verus!
