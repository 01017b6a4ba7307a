//! Which low bits of a module's words can be observed.

use crate::error::{Invariant, SynthError, Unsupported};
use crate::word::module::{
    lemma_reset_inputs, Connect, KindView, ModuleView, Port, PortDirection, ValueKind, WordModule,
};
use crate::word::types::{
    enable_inputs, op_inputs, BinaryOp, OpKind, OpView, Reset, SignalId, UnaryOp, ValueId,
};
use crate::word::uses::{gathered, instance_values, instance_values_of};
use vstd::prelude::*;

verus! {

/// A number of low bits that a value or a signal has to provide. Values come
/// first in the numbering of nodes, signals after them.
#[derive(Clone, Copy, PartialEq, Eq, Structural, Debug)]
pub struct Need {
    pub node: u64,
    pub prefix: u32,
}

pub open spec fn lesser(left: u32, right: u32) -> u32 {
    if left <= right {
        left
    } else {
        right
    }
}

/// The number of nodes of a module.
pub open spec fn node_count(module: ModuleView) -> nat {
    module.values.len() + module.signals.len()
}

pub open spec fn node_width(module: ModuleView, node: int) -> u32 {
    if node < module.values.len() {
        module.values[node].ty.width
    } else {
        module.signals[node - module.values.len()].ty.width
    }
}

/// The low bits of a value, as far as it has them.
pub open spec fn low(module: ModuleView, value: ValueId, prefix: u32) -> Need {
    Need { node: value.raw as u64, prefix: lesser(prefix, module.ty(value).width) }
}

/// All bits of a value.
pub open spec fn full(module: ModuleView, value: ValueId) -> Need {
    Need { node: value.raw as u64, prefix: module.ty(value).width }
}

/// The low bits of a signal, as far as it has them.
pub open spec fn signal_low(module: ModuleView, signal: SignalId, prefix: u32) -> Need {
    Need {
        node: (module.values.len() + signal.raw) as u64,
        prefix: lesser(prefix, module.signals[signal.raw as int].ty.width),
    }
}

/// What resets need for a number of low bits of a stored word.
pub open spec fn reset_needs(module: ModuleView, resets: Seq<Reset>, demand: u32) -> Seq<Need>
    decreases resets.len(),
{
    if resets.len() == 0 {
        seq![]
    } else {
        reset_needs(module, resets.drop_last(), demand) + seq![
            full(module, resets.last().value),
            low(module, resets.last().reset_value, demand),
        ]
    }
}

/// What is left of a demand below the lowest parts of a concatenation.
pub open spec fn left_over(demand: u32, width: u32) -> u32 {
    if demand <= width {
        0
    } else {
        (demand - width) as u32
    }
}

/// What the parts of a concatenation need, from the lowest part up.
pub open spec fn part_needs(module: ModuleView, parts: Seq<ValueId>, demand: u32) -> Seq<Need>
    decreases parts.len(),
{
    if parts.len() == 0 {
        seq![]
    } else {
        seq![low(module, parts.last(), demand)] + part_needs(
            module,
            parts.drop_last(),
            left_over(demand, module.ty(parts.last()).width),
        )
    }
}

/// What an operation needs for a number of low bits of its result. A carry
/// makes the low bits of sums and products depend on all bits below them.
pub open spec fn operation_needs(module: ModuleView, kind: OpView, demand: u32) -> Seq<Need> {
    match kind {
        OpView::Unary { op, arg } => seq![
            if op is BitNot {
                low(module, arg, demand)
            } else {
                full(module, arg)
            },
        ],
        OpView::Binary { op, left, right } => if op is Add || op is Sub || op is Mul || op is BitAnd
            || op is BitOr || op is BitXor {
            seq![low(module, left, demand), low(module, right, demand)]
        } else {
            seq![full(module, left), full(module, right)]
        },
        OpView::Mux { cond, then_value, else_value } => seq![
            full(module, cond),
            low(module, then_value, demand),
            low(module, else_value, demand),
        ],
        OpView::Concat { parts } => part_needs(module, parts, demand),
        OpView::Extract { value, lsb, width } => seq![
            low(module, value, (lsb + demand) as u32),
        ],
        OpView::DynamicExtract { value, offset, width } => seq![
            full(module, value),
            full(module, offset),
        ],
        OpView::DynamicInsert { value, offset, replacement } => seq![
            full(module, value),
            full(module, offset),
            full(module, replacement),
        ],
        OpView::TriState { data, enable } => seq![
            low(module, data, demand),
            full(module, enable.value),
        ],
        OpView::Cast { kind: cast, value, target } => seq![low(module, value, demand)],
        OpView::Register(register) => seq![
            low(module, register.d, demand),
            full(module, register.clock),
        ] + (match register.enable {
            Some(enable) => seq![full(module, enable.value)],
            None => seq![],
        }) + reset_needs(module, register.resets, demand),
        OpView::Latch(latch) => seq![
            low(module, latch.d, demand),
            full(module, latch.enable.value),
        ] + reset_needs(module, latch.resets, demand),
    }
}

/// What a connection needs of its value for a number of low bits of a signal.
pub open spec fn connect_need(module: ModuleView, connect: Connect, signal: int, demand: u32) -> Need {
    let width = module.ty(connect.value).width;
    Need {
        node: connect.value.raw as u64,
        prefix: if connect.target.signal.raw != signal {
            0
        } else {
            match connect.target.range {
                None => lesser(demand, width),
                Some(range) => if range.msb >= range.lsb {
                    lesser(left_over(demand, range.lsb), width)
                } else if demand > range.msb {
                    width
                } else {
                    0
                },
            }
        },
    }
}

/// What a node needs for a number of its low bits.
pub open spec fn node_needs(module: ModuleView, node: int, demand: u32) -> Seq<Need> {
    if node < module.values.len() {
        match module.values[node].kind {
            KindView::Signal(reference) => seq![
                signal_low(
                    module,
                    reference.signal,
                    (reference.lsb + lesser(demand, reference.width)) as u32,
                ),
            ],
            KindView::Constant(_) => seq![],
            KindView::Operation(operation) => operation_needs(
                module,
                module.operations[operation.raw as int].kind,
                demand,
            ),
        }
    } else {
        module.connects.map_values(
            |connect: Connect| connect_need(module, connect, node - module.values.len(), demand),
        )
    }
}

/// What is observed from outside: ports that lead out, the pins of instances,
/// and the values that are asked for.
pub open spec fn root_needs(module: ModuleView, observed: Seq<ValueId>) -> Seq<Need> {
    module.ports.map_values(
        |port: Port|
            signal_low(
                module,
                port.signal,
                if port.direction is Input {
                    0
                } else {
                    port.ty.width
                },
            ),
    ) + gathered(|i: int| instance_values(module, i), module.instances.len()).map_values(
        |value: ValueId| full(module, value),
    ) + observed.map_values(|value: ValueId| full(module, value))
}

/// Demands that provide what is needed.
pub open spec fn meets(demands: Seq<u32>, needs: Seq<Need>) -> bool {
    forall|i: int|
        0 <= i < needs.len() ==> demands[(#[trigger] needs[i]).node as int] >= needs[i].prefix
}

/// Demands that are closed: what is observed is provided, and so is what every
/// demanded node needs.
pub open spec fn is_closed(module: ModuleView, observed: Seq<ValueId>, demands: Seq<u32>) -> bool {
    &&& demands.len() == node_count(module)
    &&& forall|k: int|
        0 <= k < demands.len() ==> #[trigger] demands[k] <= node_width(module, k)
    &&& meets(demands, root_needs(module, observed))
    &&& forall|k: int|
        0 <= k < demands.len() && #[trigger] demands[k] > 0 ==> meets(
            demands,
            node_needs(module, k, demands[k]),
        )
}

pub open spec fn no_more(left: Seq<u32>, right: Seq<u32>) -> bool {
    forall|k: int| 0 <= k < left.len() ==> #[trigger] left[k] <= right[k]
}

/// The least closed demands.
pub open spec fn is_least(module: ModuleView, observed: Seq<ValueId>, demands: Seq<u32>) -> bool {
    &&& is_closed(module, observed, demands)
    &&& forall|other: Seq<u32>| #[trigger]
        is_closed(module, observed, other) ==> no_more(demands, other)
}

/// Needs that ask for no more than others of the same nodes.
pub open spec fn asks_no_more(left: Seq<Need>, right: Seq<Need>) -> bool {
    &&& left.len() == right.len()
    &&& forall|i: int|
        0 <= i < left.len() ==> (#[trigger] left[i]).node == right[i].node && left[i].prefix
            <= right[i].prefix
}

proof fn lemma_reset_needs(module: ModuleView, resets: Seq<Reset>, small: u32, large: u32)
    requires
        small <= large,
    ensures
        asks_no_more(reset_needs(module, resets, small), reset_needs(module, resets, large)),
    decreases resets.len(),
{
    if resets.len() > 0 {
        lemma_reset_needs(module, resets.drop_last(), small, large);
    }
}

proof fn lemma_part_needs(module: ModuleView, parts: Seq<ValueId>, small: u32, large: u32)
    requires
        small <= large,
    ensures
        asks_no_more(part_needs(module, parts, small), part_needs(module, parts, large)),
    decreases parts.len(),
{
    if parts.len() > 0 {
        let width = module.ty(parts.last()).width;
        lemma_part_needs(
            module,
            parts.drop_last(),
            left_over(small, width),
            left_over(large, width),
        );
    }
}

/// A larger demand needs no less.
pub proof fn needs_grow_with_demand(module: ModuleView, node: int, small: u32, large: u32)
    requires
        module.wf(),
        0 <= node < node_count(module),
        small <= large <= node_width(module, node),
    ensures
        asks_no_more(node_needs(module, node, small), node_needs(module, node, large)),
{
    if node < module.values.len() {
        assert(module.value_ok(node));
        if let KindView::Operation(operation) = module.values[node].kind {
            assert(module.operation_ok(operation.raw as int));
            match module.operations[operation.raw as int].kind {
                OpView::Concat { parts } => {
                    lemma_part_needs(module, parts, small, large);
                },
                OpView::Register(register) => {
                    lemma_reset_needs(module, register.resets, small, large);
                },
                OpView::Latch(latch) => {
                    lemma_reset_needs(module, latch.resets, small, large);
                },
                _ => {},
            }
        }
    }
}


/// Needs of nodes that exist, of no more bits than they have.
spec fn needs_ok(module: ModuleView, needs: Seq<Need>) -> bool {
    forall|i: int|
        0 <= i < needs.len() ==> (#[trigger] needs[i]).node < node_count(module)
            && needs[i].prefix <= node_width(module, needs[i].node as int)
}

fn min_of(left: u32, right: u32) -> (least: u32)
    ensures
        least == lesser(left, right),
{
    if left <= right {
        left
    } else {
        right
    }
}

fn need_low(module: &WordModule, value: ValueId, prefix: u32) -> (need: Need)
    requires
        module@.has(value),
    ensures
        need == low(module@, value, prefix),
{
    assert(module@.values[value.raw as int] == module.values@[value.raw as int]@);
    let width: u32 = module.values[value.raw as usize].ty.width;
    Need { node: value.raw as u64, prefix: min_of(prefix, width) }
}

fn need_full(module: &WordModule, value: ValueId) -> (need: Need)
    requires
        module@.has(value),
    ensures
        need == full(module@, value),
{
    assert(module@.values[value.raw as int] == module.values@[value.raw as int]@);
    Need { node: value.raw as u64, prefix: module.values[value.raw as usize].ty.width }
}

fn need_signal(module: &WordModule, signal: SignalId, prefix: u32) -> (need: Need)
    requires
        module@.wf(),
        signal.raw < module@.signals.len(),
    ensures
        need == signal_low(module@, signal, prefix),
{
    let width: u32 = module.signals[signal.raw as usize].ty.width;
    let total: usize = module.values.len();
    Need { node: total as u64 + signal.raw as u64, prefix: min_of(prefix, width) }
}

fn push_reset_needs(needs: &mut Vec<Need>, module: &WordModule, resets: &Vec<Reset>, demand: u32)
    requires
        forall|i: int|
            0 <= i < resets@.len() ==> module@.has((#[trigger] resets@[i]).value) && module@.has(
                resets@[i].reset_value,
            ),
        needs_ok(module@, old(needs)@),
    ensures
        final(needs)@ == old(needs)@ + reset_needs(module@, resets@, demand),
        needs_ok(module@, final(needs)@),
{
    let ghost start = needs@;
    let mut i: usize = 0;
    assert(resets@.take(0).len() == 0);
    assert(needs@ =~= start + reset_needs(module@, resets@.take(0), demand));
    while i < resets.len()
        invariant
            i <= resets@.len(),
            forall|i: int|
                0 <= i < resets@.len() ==> module@.has((#[trigger] resets@[i]).value)
                    && module@.has(resets@[i].reset_value),
            needs@ == start + reset_needs(module@, resets@.take(i as int), demand),
            needs_ok(module@, needs@),
        decreases resets.len() - i,
    {
        let reset = resets[i];
        assert(module@.has(resets@[i as int].value));
        let ghost before = needs@;
        needs.push(need_full(module, reset.value));
        needs.push(need_low(module, reset.reset_value, demand));
        proof {
            assert(resets@.take(i + 1).drop_last() =~= resets@.take(i as int));
            assert(resets@.take(i + 1).last() == reset);
            assert(needs@ =~= before + seq![
                full(module@, reset.value),
                low(module@, reset.reset_value, demand),
            ]);
            assert(needs@ =~= start + reset_needs(module@, resets@.take(i + 1), demand));
        }
        i += 1;
    }
    assert(resets@.take(i as int) =~= resets@);
}

/// What an operation needs for a number of low bits of its result.
#[verifier::rlimit(40)]
fn find_operation_needs(module: &WordModule, kind: &OpKind, demand: u32)
    -> (needs: Vec<Need>)
    requires
        module@.wf(),
        module@.inputs_below(kind@, module@.values.len() as int),
        kind matches OpKind::Extract { value, lsb, width } ==> lsb + demand <= u32::MAX,
    ensures
        needs@ == operation_needs(module@, kind@, demand),
        needs_ok(module@, needs@),
{
    let ghost inputs = op_inputs(kind@);
    assert(forall|i: int| 0 <= i < inputs.len() ==> module@.has(#[trigger] inputs[i]));
    let mut needs: Vec<Need> = Vec::new();
    match kind {
        OpKind::Unary { op, arg } => {
            assert(inputs[0] == *arg);
            match op {
                UnaryOp::BitNot => {
                    needs.push(need_low(module, *arg, demand));
                },
                _ => {
                    needs.push(need_full(module, *arg));
                },
            }
        },
        OpKind::Binary { op, left, right } => {
            assert(inputs[0] == *left && inputs[1] == *right);
            match op {
                BinaryOp::Add | BinaryOp::Sub | BinaryOp::Mul | BinaryOp::BitAnd | BinaryOp::BitOr
                | BinaryOp::BitXor => {
                    needs.push(need_low(module, *left, demand));
                    needs.push(need_low(module, *right, demand));
                },
                _ => {
                    needs.push(need_full(module, *left));
                    needs.push(need_full(module, *right));
                },
            }
        },
        OpKind::Mux { cond, then_value, else_value } => {
            assert(inputs[0] == *cond && inputs[1] == *then_value && inputs[2] == *else_value);
            needs.push(need_full(module, *cond));
            needs.push(need_low(module, *then_value, demand));
            needs.push(need_low(module, *else_value, demand));
        },
        OpKind::Concat { parts } => {
            let mut remaining: u32 = demand;
            let mut i: usize = parts.len();
            assert(parts@.take(i as int) =~= parts@);
            while i > 0
                invariant
                    i <= parts@.len(),
                    inputs == parts@,
                    forall|i: int| 0 <= i < inputs.len() ==> module@.has(#[trigger] inputs[i]),
                    part_needs(module@, parts@, demand) == needs@ + part_needs(
                        module@,
                        parts@.take(i as int),
                        remaining,
                    ),
                    needs_ok(module@, needs@),
                decreases i,
            {
                let ghost before = needs@;
                let ghost shorter = parts@.take(i as int);
                i -= 1;
                let part = parts[i];
                assert(module@.has(inputs[i as int]));
                assert(module@.values[part.raw as int] == module.values@[part.raw as int]@);
                let part_width: u32 = module.values[part.raw as usize].ty.width;
                let need = need_low(module, part, remaining);
                needs.push(need);
                proof {
                    assert(shorter.drop_last() =~= parts@.take(i as int));
                    assert(shorter.last() == part);
                    assert(before + part_needs(module@, shorter, remaining) =~= needs@
                        + part_needs(
                        module@,
                        parts@.take(i as int),
                        left_over(remaining, part_width),
                    ));
                }
                remaining = if remaining <= part_width {
                    0
                } else {
                    remaining - part_width
                };
            }
            assert(parts@.take(0).len() == 0);
            assert(needs@ =~= part_needs(module@, parts@, demand));
        },
        OpKind::Extract { value, lsb, .. } => {
            assert(inputs[0] == *value);
            needs.push(need_low(module, *value, *lsb + demand));
        },
        OpKind::DynamicExtract { value, offset, .. } => {
            assert(inputs[0] == *value && inputs[1] == *offset);
            needs.push(need_full(module, *value));
            needs.push(need_full(module, *offset));
        },
        OpKind::DynamicInsert { value, offset, replacement } => {
            assert(inputs[0] == *value && inputs[1] == *offset && inputs[2] == *replacement);
            needs.push(need_full(module, *value));
            needs.push(need_full(module, *offset));
            needs.push(need_full(module, *replacement));
        },
        OpKind::TriState { data, enable } => {
            assert(inputs[0] == *data && inputs[1] == enable.value);
            needs.push(need_low(module, *data, demand));
            needs.push(need_full(module, enable.value));
        },
        OpKind::Cast { value, .. } => {
            assert(inputs[0] == *value);
            needs.push(need_low(module, *value, demand));
        },
        OpKind::Register(register) => {
            let ghost head = seq![register.d, register.clock] + enable_inputs(register.enable);
            assert(inputs[0] == register.d && inputs[1] == register.clock);
            proof {
                if register.enable is Some {
                    assert(inputs[2] == register.enable->0.value);
                }
                lemma_reset_inputs(register.resets@);
                assert forall|i: int| 0 <= i < register.resets@.len() implies module@.has(
                    (#[trigger] register.resets@[i]).value,
                ) && module@.has(register.resets@[i].reset_value) by {
                    assert(inputs[head.len() + 2 * i] == register.resets@[i].value);
                    assert(inputs[head.len() + 2 * i + 1] == register.resets@[i].reset_value);
                }
            }
            needs.push(need_low(module, register.d, demand));
            needs.push(need_full(module, register.clock));
            if let Some(enable) = register.enable {
                needs.push(need_full(module, enable.value));
            }
            assert(needs@ =~= seq![
                low(module@, register.d, demand),
                full(module@, register.clock),
            ] + (match register.enable {
                Some(enable) => seq![full(module@, enable.value)],
                None => seq![],
            }));
            push_reset_needs(&mut needs, module, &register.resets, demand);
        },
        OpKind::Latch(latch) => {
            assert(inputs[0] == latch.d && inputs[1] == latch.enable.value);
            proof {
                lemma_reset_inputs(latch.resets@);
                assert forall|i: int| 0 <= i < latch.resets@.len() implies module@.has(
                    (#[trigger] latch.resets@[i]).value,
                ) && module@.has(latch.resets@[i].reset_value) by {
                    assert(inputs[2 + 2 * i] == latch.resets@[i].value);
                    assert(inputs[2 + 2 * i + 1] == latch.resets@[i].reset_value);
                }
            }
            needs.push(need_low(module, latch.d, demand));
            needs.push(need_full(module, latch.enable.value));
            assert(needs@ =~= seq![
                low(module@, latch.d, demand),
                full(module@, latch.enable.value),
            ]);
            push_reset_needs(&mut needs, module, &latch.resets, demand);
        },
    }
    assert(needs@ =~= operation_needs(module@, kind@, demand));
    needs
}

/// What a node needs for a number of its low bits.
fn find_needs(module: &WordModule, node: u64, demand: u32) -> (needs: Vec<Need>)
    requires
        module@.wf(),
        node < node_count(module@),
        demand <= node_width(module@, node as int),
    ensures
        needs@ == node_needs(module@, node as int, demand),
        needs_ok(module@, needs@),
{
    let total: usize = module.values.len();
    if node < total as u64 {
        let place: usize = node as usize;
        let stored = &module.values[place];
        assert(stored@ == module@.values[place as int]);
        assert(module@.value_ok(place as int));
        match &stored.kind {
            ValueKind::Signal(reference) => {
                let mut needs: Vec<Need> = Vec::new();
                let bits: u32 = min_of(demand, reference.width);
                needs.push(need_signal(module, reference.signal, reference.lsb + bits));
                assert(needs@ =~= node_needs(module@, node as int, demand));
                needs
            },
            ValueKind::Constant(_) => {
                let needs: Vec<Need> = Vec::new();
                assert(needs@ =~= node_needs(module@, node as int, demand));
                needs
            },
            ValueKind::Operation(operation) => {
                let index: usize = operation.raw as usize;
                let kind = &module.operations[index].kind;
                assert(kind@ == module@.operations[index as int].kind);
                assert(module@.operation_ok(index as int));
                find_operation_needs(module, kind, demand)
            },
        }
    } else {
        let signal: u64 = node - total as u64;
        let mut needs: Vec<Need> = Vec::new();
        let mut c: usize = 0;
        while c < module.connects.len()
            invariant
                module@.wf(),
                node == total + signal,
                total == module@.values.len(),
                c <= module@.connects.len(),
                needs@ =~= node_needs(module@, node as int, demand).take(c as int),
                needs_ok(module@, needs@),
            decreases module.connects.len() - c,
        {
            let connect = module.connects[c];
            assert(module@.connect_ok(module@.connects[c as int]));
            assert(module@.values[connect.value.raw as int]
                == module.values@[connect.value.raw as int]@);
            let width: u32 = module.values[connect.value.raw as usize].ty.width;
            let prefix: u32 = if connect.target.signal.raw as u64 != signal {
                0
            } else {
                match connect.target.range {
                    None => min_of(demand, width),
                    Some(range) => if range.msb >= range.lsb {
                        if demand <= range.lsb {
                            0
                        } else {
                            min_of(demand - range.lsb, width)
                        }
                    } else if demand > range.msb {
                        width
                    } else {
                        0
                    },
                }
            };
            let need = Need { node: connect.value.raw as u64, prefix };
            assert(need == connect_need(module@, connect, signal as int, demand));
            needs.push(need);
            c += 1;
        }
        assert(needs@ =~= node_needs(module@, node as int, demand));
        needs
    }
}

/// What is observed from outside.
fn find_roots(module: &WordModule, observed: &Vec<ValueId>) -> (needs: Vec<Need>)
    requires
        module@.wf(),
        forall|i: int| 0 <= i < observed@.len() ==> module@.has(#[trigger] observed@[i]),
    ensures
        needs@ == root_needs(module@, observed@),
        needs_ok(module@, needs@),
{
    let ghost view = module@;
    let ghost ports = view.ports.map_values(
        |port: Port|
            signal_low(
                view,
                port.signal,
                if port.direction is Input {
                    0
                } else {
                    port.ty.width
                },
            ),
    );
    let ghost full_of = |value: ValueId| full(view, value);
    let mut needs: Vec<Need> = Vec::new();
    let mut p: usize = 0;
    while p < module.ports.len()
        invariant
            view == module@,
            view.wf(),
            ports == view.ports.map_values(
                |port: Port|
                    signal_low(
                        view,
                        port.signal,
                        if port.direction is Input {
                            0
                        } else {
                            port.ty.width
                        },
                    ),
            ),
            p <= view.ports.len(),
            needs@ =~= ports.take(p as int),
            needs_ok(view, needs@),
        decreases module.ports.len() - p,
    {
        let port = module.ports[p];
        assert(view.ports[p as int].signal.raw < view.signals.len());
        let prefix: u32 = match port.direction {
            PortDirection::Input => 0,
            _ => port.ty.width,
        };
        needs.push(need_signal(module, port.signal, prefix));
        p += 1;
    }
    assert(needs@ =~= ports);
    let pins = instance_values_of(module);
    proof {
        lemma_pins(view, view.instances.len());
    }
    let ghost pin_needs = pins@.map_values(full_of);
    let mut i: usize = 0;
    while i < pins.len()
        invariant
            view == module@,
            forall|i: int| 0 <= i < pins@.len() ==> view.has(#[trigger] pins@[i]),
            full_of == (|value: ValueId| full(view, value)),
            pin_needs == pins@.map_values(full_of),
            i <= pins@.len(),
            needs@ =~= ports + pin_needs.take(i as int),
            needs_ok(view, needs@),
        decreases pins.len() - i,
    {
        assert(view.has(pins@[i as int]));
        needs.push(need_full(module, pins[i]));
        i += 1;
    }
    let ghost asked = observed@.map_values(full_of);
    let mut i: usize = 0;
    while i < observed.len()
        invariant
            view == module@,
            forall|i: int| 0 <= i < observed@.len() ==> view.has(#[trigger] observed@[i]),
            full_of == (|value: ValueId| full(view, value)),
            asked == observed@.map_values(full_of),
            i <= observed@.len(),
            needs@ =~= ports + pin_needs + asked.take(i as int),
            needs_ok(view, needs@),
        decreases observed.len() - i,
    {
        assert(view.has(observed@[i as int]));
        needs.push(need_full(module, observed[i]));
        i += 1;
    }
    assert(needs@ =~= root_needs(view, observed@));
    needs
}

/// The pins of instances carry values of the module.
proof fn lemma_pins(module: ModuleView, count: nat)
    requires
        module.wf(),
        count <= module.instances.len(),
    ensures
        ({
            let pins = gathered(|i: int| instance_values(module, i), count);
            forall|k: int| 0 <= k < pins.len() ==> module.has(#[trigger] pins[k])
        }),
    decreases count,
{
    if count > 0 {
        lemma_pins(module, (count - 1) as nat);
        let row = |i: int| instance_values(module, i);
        let below = gathered(row, (count - 1) as nat);
        let pins = gathered(row, count);
        assert forall|k: int| 0 <= k < pins.len() implies module.has(#[trigger] pins[k]) by {
            if k < below.len() {
                assert(pins[k] == below[k]);
            } else {
                let j = k - below.len();
                assert(pins[k] == module.instances[count - 1].connections[j].value);
            }
        }
    }
}


/// How many bits are not demanded yet.
spec fn slack(module: ModuleView, demands: Seq<u32>, count: nat) -> nat
    decreases count,
{
    if count == 0 {
        0
    } else {
        slack(module, demands, (count - 1) as nat) + (node_width(module, count - 1)
            - demands[count - 1]) as nat
    }
}

proof fn lemma_slack(
    module: ModuleView,
    before: Seq<u32>,
    after: Seq<u32>,
    node: int,
    count: nat,
)
    requires
        count <= before.len(),
        0 <= node < before.len(),
        after == before.update(node, after[node]),
        before[node] < after[node] <= node_width(module, node),
        forall|k: int|
            0 <= k < before.len() ==> #[trigger] before[k] <= node_width(module, k),
    ensures
        node < count ==> slack(module, after, count) < slack(module, before, count),
        node >= count ==> slack(module, after, count) == slack(module, before, count),
    decreases count,
{
    if count > 0 {
        lemma_slack(module, before, after, node, (count - 1) as nat);
        assert(before[count - 1] <= node_width(module, count - 1));
        if count - 1 != node {
            assert(after[count - 1] == before[count - 1]);
        }
    }
}

/// The demands found so far and the nodes that may need more.
struct DemandAnalysis {
    values: Vec<u32>,
    signals: Vec<u32>,
    pending: Vec<u64>,
}

impl DemandAnalysis {
    spec fn demands(&self) -> Seq<u32> {
        self.values@ + self.signals@
    }

    spec fn fits(&self, module: ModuleView) -> bool {
        &&& self.values@.len() == module.values.len()
        &&& self.signals@.len() == module.signals.len()
        &&& forall|k: int|
            0 <= k < self.demands().len() ==> #[trigger] self.demands()[k] <= node_width(module, k)
        &&& forall|i: int|
            0 <= i < self.pending@.len() ==> (#[trigger] self.pending@[i]) < node_count(module)
                && self.demands()[self.pending@[i] as int] > 0
    }

    /// Demands no more than any closed demands.
    spec fn is_lowest(&self, module: ModuleView, observed: Seq<ValueId>) -> bool {
        forall|other: Seq<u32>| #[trigger]
            is_closed(module, observed, other) ==> no_more(self.demands(), other)
    }

    /// Every demanded node that is not waiting has what it needs.
    spec fn settled(&self, module: ModuleView) -> bool {
        forall|k: int|
            0 <= k < self.demands().len() && #[trigger] self.demands()[k] > 0
                && !self.pending@.contains(k as u64) ==> meets(
                self.demands(),
                node_needs(module, k, self.demands()[k]),
            )
    }

    /// The bits demanded of a node.
    fn demand(&self, module: &WordModule, node: u64) -> (demand: u32)
        requires
            self.fits(module@),
            node < node_count(module@),
        ensures
            demand == self.demands()[node as int],
    {
        let total: usize = self.values.len();
        if node < total as u64 {
            self.values[node as usize]
        } else {
            let more: usize = self.signals.len();
            assert(node - total < more);
            self.signals[(node - total as u64) as usize]
        }
    }

    /// Demands what a need asks for.
    fn raise(&mut self, module: &WordModule, need: Need, Ghost(observed): Ghost<Seq<ValueId>>)
        requires
            module@.wf(),
            old(self).fits(module@),
            old(self).is_lowest(module@, observed),
            need.node < node_count(module@),
            need.prefix <= node_width(module@, need.node as int),
            forall|other: Seq<u32>| #[trigger]
                is_closed(module@, observed, other) ==> other[need.node as int] >= need.prefix,
        ensures
            final(self).fits(module@),
            final(self).is_lowest(module@, observed),
            no_more(old(self).demands(), final(self).demands()),
            final(self).demands().len() == old(self).demands().len(),
            final(self).demands()[need.node as int] >= need.prefix,
            forall|k: u64| #[trigger]
                old(self).pending@.contains(k) ==> final(self).pending@.contains(k),
            forall|k: int|
                0 <= k < old(self).demands().len() && final(self).demands()[k]
                    != #[trigger] old(self).demands()[k] ==> final(self).pending@.contains(k as u64),
            *final(self) == *old(self) || slack(
                module@,
                final(self).demands(),
                node_count(module@),
            ) < slack(module@, old(self).demands(), node_count(module@)),
    {
        let ghost before = *self;
        let held: u32 = self.demand(module, need.node);
        if need.prefix > held {
            let total: usize = self.values.len();
            if need.node < total as u64 {
                self.values.set(need.node as usize, need.prefix);
            } else {
                let more: usize = self.signals.len();
                assert(need.node - total < more);
                self.signals.set((need.node - total as u64) as usize, need.prefix);
            }
            self.pending.push(need.node);
            proof {
                let after = *self;
                assert(after.demands() =~= before.demands().update(
                    need.node as int,
                    need.prefix,
                ));
                lemma_slack(
                    module@,
                    before.demands(),
                    after.demands(),
                    need.node as int,
                    node_count(module@),
                );
                assert forall|k: u64| #[trigger]
                    before.pending@.contains(k) implies after.pending@.contains(k) by {
                    let i = choose|i: int|
                        0 <= i < before.pending@.len() && before.pending@[i] == k;
                    assert(after.pending@[i] == k);
                }
                assert(after.pending@[after.pending@.len() - 1] == need.node);
                assert(after.pending@.contains(need.node));
                assert forall|i: int| 0 <= i < after.pending@.len() implies (
                #[trigger] after.pending@[i]) < node_count(module@)
                    && after.demands()[after.pending@[i] as int] > 0 by {
                    if i < before.pending@.len() {
                        assert(after.pending@[i] == before.pending@[i]);
                        assert(before.demands()[before.pending@[i] as int] > 0);
                    }
                }
                assert forall|other: Seq<u32>| #[trigger]
                    is_closed(module@, observed, other) implies no_more(
                    after.demands(),
                    other,
                ) by {
                    assert(no_more(before.demands(), other));
                    assert forall|k: int|
                        0 <= k < after.demands().len() implies #[trigger] after.demands()[k]
                        <= other[k] by {
                        if k != need.node {
                            assert(after.demands()[k] == before.demands()[k]);
                        }
                    }
                }
            }
        }
    }
}

/// A stack without its last entry holds the others.
proof fn lemma_popped(before: Seq<u64>, after: Seq<u64>, last: u64)
    requires
        before == after.push(last),
    ensures
        forall|k: u64| #[trigger] before.contains(k) ==> k == last || after.contains(k),
{
    assert forall|k: u64| #[trigger] before.contains(k) implies k == last || after.contains(k) by {
        let i = choose|i: int| 0 <= i < before.len() && before[i] == k;
        if i < after.len() {
            assert(after[i] == k);
        }
    }
}

/// Demands what a list of needs asks for.
fn raise_all(
    analysis: &mut DemandAnalysis,
    module: &WordModule,
    needs: &Vec<Need>,
    Ghost(observed): Ghost<Seq<ValueId>>,
)
    requires
        module@.wf(),
        old(analysis).fits(module@),
        old(analysis).is_lowest(module@, observed),
        needs_ok(module@, needs@),
        forall|other: Seq<u32>, i: int|
            is_closed(module@, observed, other) && 0 <= i < needs@.len()
                ==> #[trigger] other[(#[trigger] needs@[i]).node as int] >= needs@[i].prefix,
    ensures
        final(analysis).fits(module@),
        final(analysis).is_lowest(module@, observed),
        no_more(old(analysis).demands(), final(analysis).demands()),
        final(analysis).demands().len() == old(analysis).demands().len(),
        meets(final(analysis).demands(), needs@),
        forall|k: u64| #[trigger]
            old(analysis).pending@.contains(k) ==> final(analysis).pending@.contains(k),
        forall|k: int|
            0 <= k < old(analysis).demands().len() && final(analysis).demands()[k]
                != #[trigger] old(analysis).demands()[k] ==> final(analysis).pending@.contains(
                k as u64,
            ),
        *final(analysis) == *old(analysis) || slack(
            module@,
            final(analysis).demands(),
            node_count(module@),
        ) < slack(module@, old(analysis).demands(), node_count(module@)),
{
    let ghost start = *analysis;
    let mut i: usize = 0;
    while i < needs.len()
        invariant
            module@.wf(),
            start == *old(analysis),
            analysis.fits(module@),
            analysis.is_lowest(module@, observed),
            needs_ok(module@, needs@),
            forall|other: Seq<u32>, i: int|
                is_closed(module@, observed, other) && 0 <= i < needs@.len()
                    ==> #[trigger] other[(#[trigger] needs@[i]).node as int] >= needs@[i].prefix,
            no_more(start.demands(), analysis.demands()),
            analysis.demands().len() == start.demands().len(),
            i <= needs@.len(),
            forall|j: int|
                0 <= j < i ==> analysis.demands()[(#[trigger] needs@[j]).node as int]
                    >= needs@[j].prefix,
            forall|k: u64| #[trigger]
                start.pending@.contains(k) ==> analysis.pending@.contains(k),
            forall|k: int|
                0 <= k < start.demands().len() && analysis.demands()[k]
                    != #[trigger] start.demands()[k] ==> analysis.pending@.contains(k as u64),
            *analysis == start || slack(module@, analysis.demands(), node_count(module@)) < slack(
                module@,
                start.demands(),
                node_count(module@),
            ),
        decreases needs.len() - i,
    {
        let ghost before = *analysis;
        assert(needs@[i as int].node < node_count(module@));
        analysis.raise(module, needs[i], Ghost(observed));
        proof {
            assert forall|k: int| 0 <= k < start.demands().len() implies #[trigger] start.demands()[k]
                <= analysis.demands()[k] by {
                assert(start.demands()[k] <= before.demands()[k]);
                assert(before.demands()[k] <= analysis.demands()[k]);
            }
            assert forall|j: int| 0 <= j < i + 1 implies analysis.demands()[(
            #[trigger] needs@[j]).node as int] >= needs@[j].prefix by {
                if j < i {
                    assert(needs@[j].node < node_count(module@));
                    assert(before.demands()[needs@[j].node as int]
                        <= analysis.demands()[needs@[j].node as int]);
                }
            }
            assert forall|k: int|
                0 <= k < start.demands().len() && analysis.demands()[k]
                    != #[trigger] start.demands()[k] implies analysis.pending@.contains(
                k as u64,
            ) by {
                if before.demands()[k] == start.demands()[k] {
                    assert(analysis.demands()[k] != before.demands()[k]);
                }
            }
        }
        i += 1;
    }
}

/// Every closed demand provides what a demanded node needs.
proof fn lemma_closed_needs(
    module: ModuleView,
    observed: Seq<ValueId>,
    demands: Seq<u32>,
    node: int,
    needs: Seq<Need>,
)
    requires
        module.wf(),
        demands.len() == node_count(module),
        0 <= node < demands.len(),
        0 < demands[node] <= node_width(module, node),
        needs == node_needs(module, node, demands[node]),
        forall|other: Seq<u32>| #[trigger]
            is_closed(module, observed, other) ==> no_more(demands, other),
    ensures
        forall|other: Seq<u32>, i: int|
            is_closed(module, observed, other) && 0 <= i < needs.len() ==> #[trigger] other[(
            #[trigger] needs[i]).node as int] >= needs[i].prefix,
{
    assert forall|other: Seq<u32>, i: int|
        is_closed(module, observed, other) && 0 <= i < needs.len() implies #[trigger] other[(
    #[trigger] needs[i]).node as int] >= needs[i].prefix by {
        assert(no_more(demands, other));
        assert(demands[node] <= other[node]);
        assert(other[node] <= node_width(module, node));
        needs_grow_with_demand(module, node, demands[node], other[node]);
        let larger = node_needs(module, node, other[node]);
        assert(meets(other, larger));
        assert(needs[i].node == larger[i].node && needs[i].prefix <= larger[i].prefix);
        assert(other[larger[i].node as int] >= larger[i].prefix);
    }
}

/// A number of low bits of every value that may be observed.
pub struct ObservableBits {
    pub value_prefixes: Vec<u32>,
}

/// The prefixes are those of the least closed demands.
pub open spec fn observes(module: ModuleView, observed: Seq<ValueId>, prefixes: Seq<u32>) -> bool {
    exists|demands: Seq<u32>| #[trigger]
        is_least(module, observed, demands) && prefixes == demands.take(module.values.len() as int)
}

pub open spec fn has_dynamic(module: ModuleView) -> bool {
    exists|i: int|
        0 <= i < module.connects.len() && (#[trigger] module.connects[i]).target.dynamic is Some
}

impl ObservableBits {
    /// The bits of each value that a module's outputs, its instances and the
    /// given values depend on.
    #[verifier::rlimit(60)]
    pub fn analyze_with_values(module: &WordModule, observed: &Vec<ValueId>) -> (result: Result<
        Self,
        SynthError,
    >)
        requires
            module@.wf(),
        ensures
            has_dynamic(module@) ==> result == Err::<Self, SynthError>(SynthError::Unsupported(Unsupported::Operation)),
            !has_dynamic(module@) && !(forall|i: int|
                0 <= i < observed@.len() ==> module@.has(#[trigger] observed@[i])) ==> result
                == Err::<Self, SynthError>(SynthError::Invariant(Invariant::UnknownValue)),
            !has_dynamic(module@) && (forall|i: int|
                0 <= i < observed@.len() ==> module@.has(#[trigger] observed@[i])) ==> (
            result matches Ok(bits) && observes(module@, observed@, bits.value_prefixes@)),
    {
        let ghost view = module@;
        let mut c: usize = 0;
        while c < module.connects.len()
            invariant
                view == module@,
                c <= view.connects.len(),
                forall|i: int|
                    0 <= i < c ==> (#[trigger] view.connects[i]).target.dynamic is None,
            decreases module.connects.len() - c,
        {
            if module.connects[c].target.dynamic.is_some() {
                assert(view.connects[c as int].target.dynamic is Some);
                return Err(SynthError::Unsupported(Unsupported::Operation));
            }
            c += 1;
        }
        let mut i: usize = 0;
        while i < observed.len()
            invariant
                view == module@,
                i <= observed@.len(),
                !has_dynamic(view),
                forall|k: int| 0 <= k < i ==> view.has(#[trigger] observed@[k]),
            decreases observed.len() - i,
        {
            if observed[i].raw as usize >= module.values.len() {
                assert(!view.has(observed@[i as int]));
                return Err(SynthError::Invariant(Invariant::UnknownValue));
            }
            i += 1;
        }
        let mut values: Vec<u32> = Vec::new();
        values.resize(module.values.len(), 0);
        let mut signals: Vec<u32> = Vec::new();
        signals.resize(module.signals.len(), 0);
        let mut analysis = DemandAnalysis { values, signals, pending: Vec::new() };
        let roots = find_roots(module, observed);
        proof {
            assert forall|other: Seq<u32>, i: int|
                is_closed(view, observed@, other) && 0 <= i < roots@.len() implies #[trigger] other[(
            #[trigger] roots@[i]).node as int] >= roots@[i].prefix by {
                assert(meets(other, root_needs(view, observed@)));
            }
        }
        let ghost zero = analysis;
        raise_all(&mut analysis, module, &roots, Ghost(observed@));
        proof {
            assert(analysis.settled(view)) by {
                assert forall|k: int|
                    0 <= k < analysis.demands().len() && #[trigger] analysis.demands()[k] > 0
                        && !analysis.pending@.contains(k as u64) implies meets(
                    analysis.demands(),
                    node_needs(view, k, analysis.demands()[k]),
                ) by {
                    assert(zero.demands()[k] == 0);
                }
            }
        }
        while analysis.pending.len() > 0
            invariant
                view == module@,
                view.wf(),
                analysis.fits(view),
                analysis.is_lowest(view, observed@),
                analysis.settled(view),
                roots@ == root_needs(view, observed@),
                needs_ok(view, roots@),
                meets(analysis.demands(), roots@),
            decreases
                    slack(view, analysis.demands(), node_count(view)),
                    analysis.pending@.len(),
        {
            let ghost start = analysis;
            let last: usize = analysis.pending.len() - 1;
            let node: u64 = analysis.pending[last];
            assert(start.pending@[last as int] < node_count(view));
            let top = analysis.pending.pop();
            let ghost popped = analysis;
            proof {
                assert(start.pending@ =~= popped.pending@.push(node));
                lemma_popped(start.pending@, popped.pending@, node);
                assert forall|i: int| 0 <= i < popped.pending@.len() implies (
                #[trigger] popped.pending@[i]) < node_count(view)
                    && popped.demands()[popped.pending@[i] as int] > 0 by {
                    assert(popped.pending@[i] == start.pending@[i]);
                }
                assert(popped.demands() == start.demands());
                assert(popped.is_lowest(view, observed@));
            }
            let demand: u32 = analysis.demand(module, node);
            let needs = find_needs(module, node, demand);
            proof {
                lemma_closed_needs(view, observed@, popped.demands(), node as int, needs@);
            }
            raise_all(&mut analysis, module, &needs, Ghost(observed@));
            proof {
                let now = analysis;
                assert forall|k: int|
                    0 <= k < now.demands().len() && #[trigger] now.demands()[k] > 0
                        && !now.pending@.contains(k as u64) implies meets(
                    now.demands(),
                    node_needs(view, k, now.demands()[k]),
                ) by {
                    assert(now.demands()[k] == popped.demands()[k]);
                    if k == node {
                        assert(needs@ == node_needs(view, k, now.demands()[k]));
                    } else {
                        if start.pending@.contains(k as u64) {
                            assert(popped.pending@.contains(k as u64));
                        }
                        let held = node_needs(view, k, start.demands()[k]);
                        assert(meets(start.demands(), held));
                        lemma_needs_inside(view, k, start.demands()[k]);
                        assert forall|i: int| 0 <= i < held.len() implies now.demands()[(
                        #[trigger] held[i]).node as int] >= held[i].prefix by {
                            assert(start.demands()[held[i].node as int] >= held[i].prefix);
                            assert(popped.demands()[held[i].node as int]
                                <= now.demands()[held[i].node as int]);
                        }
                    }
                }
                assert forall|i: int| 0 <= i < roots@.len() implies now.demands()[(
                #[trigger] roots@[i]).node as int] >= roots@[i].prefix by {
                    assert(start.demands()[roots@[i].node as int] >= roots@[i].prefix);
                    assert(roots@[i].node < node_count(view));
                    assert(popped.demands()[roots@[i].node as int]
                        <= now.demands()[roots@[i].node as int]);
                }
            }
        }
        proof {
            let demands = analysis.demands();
            assert(is_closed(view, observed@, demands)) by {
                assert forall|k: int|
                    0 <= k < demands.len() && #[trigger] demands[k] > 0 implies meets(
                    demands,
                    node_needs(view, k, demands[k]),
                ) by {
                    assert(!analysis.pending@.contains(k as u64));
                }
            }
            assert(is_least(view, observed@, demands));
            assert(analysis.values@ =~= demands.take(view.values.len() as int));
            assert(observes(view, observed@, analysis.values@));
        }
        Ok(ObservableBits { value_prefixes: analysis.values })
    }

    /// The bits of each value that a module's outputs and instances depend on.
    pub fn analyze(module: &WordModule) -> (result: Result<Self, SynthError>)
        requires
            module@.wf(),
        ensures
            has_dynamic(module@) ==> result == Err::<Self, SynthError>(SynthError::Unsupported(Unsupported::Operation)),
            !has_dynamic(module@) ==> (result matches Ok(bits) && observes(
                module@,
                Seq::empty(),
                bits.value_prefixes@,
            )),
    {
        let observed: Vec<ValueId> = Vec::new();
        assert(observed@ =~= Seq::<ValueId>::empty());
        ObservableBits::analyze_with_values(module, &observed)
    }

    pub open spec fn prefix(&self, value: ValueId) -> u32 {
        if value.raw < self.value_prefixes@.len() {
            self.value_prefixes@[value.raw as int]
        } else {
            0
        }
    }

    /// How many low bits of a value are observed.
    pub fn required_prefix(&self, value: ValueId) -> (prefix: u32)
        ensures
            prefix == self.prefix(value),
    {
        if (value.raw as usize) < self.value_prefixes.len() {
            self.value_prefixes[value.raw as usize]
        } else {
            0
        }
    }
}

/// A node needs bits of nodes that exist.
proof fn lemma_needs_inside(module: ModuleView, node: int, demand: u32)
    requires
        module.wf(),
        0 <= node < node_count(module),
        demand <= node_width(module, node),
    ensures
        forall|i: int|
            0 <= i < node_needs(module, node, demand).len() ==> (#[trigger] node_needs(
                module,
                node,
                demand,
            )[i]).node < node_count(module),
{
    if node < module.values.len() {
        assert(module.value_ok(node));
        if let KindView::Operation(operation) = module.values[node].kind {
            assert(module.operation_ok(operation.raw as int));
            let kind = module.operations[operation.raw as int].kind;
            let inputs = op_inputs(kind);
            assert forall|i: int| 0 <= i < inputs.len() implies (#[trigger] inputs[i]).raw
                < module.values.len() by {}
            match kind {
                OpView::Unary { op, arg } => {
                    assert(inputs[0] == arg);
                },
                OpView::Binary { op, left, right } => {
                    assert(inputs[0] == left && inputs[1] == right);
                },
                OpView::Mux { cond, then_value, else_value } => {
                    assert(inputs[0] == cond && inputs[1] == then_value && inputs[2]
                        == else_value);
                },
                OpView::Concat { parts } => {
                    lemma_parts_inside(module, parts, demand);
                },
                OpView::Extract { value, lsb, width } => {
                    assert(inputs[0] == value);
                },
                OpView::DynamicExtract { value, offset, width } => {
                    assert(inputs[0] == value && inputs[1] == offset);
                },
                OpView::DynamicInsert { value, offset, replacement } => {
                    assert(inputs[0] == value && inputs[1] == offset && inputs[2] == replacement);
                },
                OpView::TriState { data, enable } => {
                    assert(inputs[0] == data && inputs[1] == enable.value);
                },
                OpView::Cast { kind: cast, value, target } => {
                    assert(inputs[0] == value);
                },
                OpView::Register(register) => {
                    let head = seq![register.d, register.clock] + enable_inputs(register.enable);
                    assert(inputs[0] == register.d && inputs[1] == register.clock);
                    if register.enable is Some {
                        assert(inputs[2] == register.enable->0.value);
                    }
                    lemma_reset_inputs(register.resets);
                    assert forall|i: int| 0 <= i < register.resets.len() implies module.has(
                        (#[trigger] register.resets[i]).value,
                    ) && module.has(register.resets[i].reset_value) by {
                        assert(inputs[head.len() + 2 * i] == register.resets[i].value);
                        assert(inputs[head.len() + 2 * i + 1] == register.resets[i].reset_value);
                    }
                    lemma_resets_inside(module, register.resets, demand);
                },
                OpView::Latch(latch) => {
                    assert(inputs[0] == latch.d && inputs[1] == latch.enable.value);
                    lemma_reset_inputs(latch.resets);
                    assert forall|i: int| 0 <= i < latch.resets.len() implies module.has(
                        (#[trigger] latch.resets[i]).value,
                    ) && module.has(latch.resets[i].reset_value) by {
                        assert(inputs[2 + 2 * i] == latch.resets[i].value);
                        assert(inputs[2 + 2 * i + 1] == latch.resets[i].reset_value);
                    }
                    lemma_resets_inside(module, latch.resets, demand);
                },
            }
        }
    } else {
        let needs = node_needs(module, node, demand);
        assert forall|i: int| 0 <= i < needs.len() implies (#[trigger] needs[i]).node < node_count(
            module,
        ) by {
            assert(module.connect_ok(module.connects[i]));
        }
    }
}

proof fn lemma_parts_inside(module: ModuleView, parts: Seq<ValueId>, demand: u32)
    requires
        forall|i: int| 0 <= i < parts.len() ==> (#[trigger] parts[i]).raw < module.values.len(),
    ensures
        forall|i: int|
            0 <= i < part_needs(module, parts, demand).len() ==> (#[trigger] part_needs(
                module,
                parts,
                demand,
            )[i]).node < node_count(module),
    decreases parts.len(),
{
    if parts.len() > 0 {
        assert(parts[parts.len() - 1].raw < module.values.len());
        assert forall|i: int| 0 <= i < parts.drop_last().len() implies (
        #[trigger] parts.drop_last()[i]).raw < module.values.len() by {
            assert(parts.drop_last()[i] == parts[i]);
        }
        lemma_parts_inside(
            module,
            parts.drop_last(),
            left_over(demand, module.ty(parts.last()).width),
        );
        let needs = part_needs(module, parts, demand);
        let rest = part_needs(
            module,
            parts.drop_last(),
            left_over(demand, module.ty(parts.last()).width),
        );
        assert forall|i: int| 0 <= i < needs.len() implies (#[trigger] needs[i]).node < node_count(
            module,
        ) by {
            if i > 0 {
                assert(needs[i] == rest[i - 1]);
            }
        }
    }
}

proof fn lemma_resets_inside(module: ModuleView, resets: Seq<Reset>, demand: u32)
    requires
        forall|i: int|
            0 <= i < resets.len() ==> module.has((#[trigger] resets[i]).value) && module.has(
                resets[i].reset_value,
            ),
    ensures
        forall|i: int|
            0 <= i < reset_needs(module, resets, demand).len() ==> (#[trigger] reset_needs(
                module,
                resets,
                demand,
            )[i]).node < node_count(module),
    decreases resets.len(),
{
    if resets.len() > 0 {
        assert(module.has(resets[resets.len() - 1].value));
        assert forall|i: int| 0 <= i < resets.drop_last().len() implies module.has(
            (#[trigger] resets.drop_last()[i]).value,
        ) && module.has(resets.drop_last()[i].reset_value) by {
            assert(resets.drop_last()[i] == resets[i]);
        }
        lemma_resets_inside(module, resets.drop_last(), demand);
        let needs = reset_needs(module, resets, demand);
        let rest = reset_needs(module, resets.drop_last(), demand);
        assert(module.has(resets[resets.len() - 1].reset_value));
        assert forall|i: int| 0 <= i < needs.len() implies (#[trigger] needs[i]).node < node_count(
            module,
        ) by {
            if i < rest.len() {
                assert(needs[i] == rest[i]);
            }
        }
    }
}

} // verus!
