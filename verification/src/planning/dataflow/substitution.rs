//! Putting values in the place of others.

use super::canonical::{even_env, map_ok, same_value, sound_map};
use crate::word::module::{
    lemma_op_typed_agree, lemma_reset_inputs, parts_width, resets_typed, Connect, DynamicTarget, Instance,
    InstanceConnection, InstanceView, KindView, LValue, MemoryClock, MemoryReadPort,
    MemoryReadTiming, MemoryWriteMask, MemoryWritePort, ModuleView, Operation, OperationView,
    WordModule,
};
use crate::word::semantics::{eval, lemma_op_bits_agree, op_bits, word_of, Env};
use crate::word::types::{
    enable_inputs, op_inputs, reset_inputs, Enable, LatchOp, LatchView, OpKind, OpView, RegisterOp,
    RegisterView, Reset, ValueId, WordType,
};
use vstd::prelude::*;

verus! {

pub open spec fn renamed_reset(reset: Reset, f: spec_fn(ValueId) -> ValueId) -> Reset {
    Reset { value: f(reset.value), reset_value: f(reset.reset_value), ..reset }
}

pub open spec fn renamed_resets(resets: Seq<Reset>, f: spec_fn(ValueId) -> ValueId) -> Seq<Reset> {
    resets.map_values(|reset: Reset| renamed_reset(reset, f))
}

pub open spec fn renamed_enable(enable: Enable, f: spec_fn(ValueId) -> ValueId) -> Enable {
    Enable { value: f(enable.value), ..enable }
}

/// An operation on other operands.
pub open spec fn with_inputs(kind: OpView, f: spec_fn(ValueId) -> ValueId) -> OpView {
    match kind {
        OpView::Unary { op, arg } => OpView::Unary { op, arg: f(arg) },
        OpView::Binary { op, left, right } => OpView::Binary { op, left: f(left), right: f(right) },
        OpView::Mux { cond, then_value, else_value } => OpView::Mux {
            cond: f(cond),
            then_value: f(then_value),
            else_value: f(else_value),
        },
        OpView::Concat { parts } => OpView::Concat { parts: parts.map_values(f) },
        OpView::Extract { value, lsb, width } => OpView::Extract { value: f(value), lsb, width },
        OpView::DynamicExtract { value, offset, width } => OpView::DynamicExtract {
            value: f(value),
            offset: f(offset),
            width,
        },
        OpView::DynamicInsert { value, offset, replacement } => OpView::DynamicInsert {
            value: f(value),
            offset: f(offset),
            replacement: f(replacement),
        },
        OpView::TriState { data, enable } => OpView::TriState {
            data: f(data),
            enable: renamed_enable(enable, f),
        },
        OpView::Cast { kind: cast, value, target } => OpView::Cast {
            kind: cast,
            value: f(value),
            target,
        },
        OpView::Register(register) => OpView::Register(
            RegisterView {
                d: f(register.d),
                clock: f(register.clock),
                enable: match register.enable {
                    Some(enable) => Some(renamed_enable(enable, f)),
                    None => None,
                },
                resets: renamed_resets(register.resets, f),
                ..register
            },
        ),
        OpView::Latch(latch) => OpView::Latch(
            LatchView {
                d: f(latch.d),
                enable: renamed_enable(latch.enable, f),
                resets: renamed_resets(latch.resets, f),
                ..latch
            },
        ),
    }
}

/// The operands of an operation on other operands.
pub proof fn lemma_with_inputs(kind: OpView, f: spec_fn(ValueId) -> ValueId)
    ensures
        op_inputs(with_inputs(kind, f)) =~= op_inputs(kind).map_values(f),
{
    match kind {
        OpView::Register(register) => {
            lemma_renamed_resets(register.resets, f);
        },
        OpView::Latch(latch) => {
            lemma_renamed_resets(latch.resets, f);
        },
        _ => {},
    }
}

proof fn lemma_renamed_resets(resets: Seq<Reset>, f: spec_fn(ValueId) -> ValueId)
    ensures
        reset_inputs(renamed_resets(resets, f)) =~= reset_inputs(resets).map_values(f),
    decreases resets.len(),
{
    if resets.len() > 0 {
        lemma_renamed_resets(resets.drop_last(), f);
        assert(renamed_resets(resets, f).drop_last() =~= renamed_resets(resets.drop_last(), f));
    }
}

/// Operands of the same widths suit an operation as well.
pub proof fn lemma_typed_inputs(module: ModuleView, kind: OpView, f: spec_fn(ValueId) -> ValueId, ty: WordType)
    requires
        forall|i: int|
            0 <= i < op_inputs(kind).len() ==> module.ty(f(#[trigger] op_inputs(kind)[i])).width
                == module.ty(op_inputs(kind)[i]).width,
    ensures
        module.op_typed(with_inputs(kind, f), ty) == module.op_typed(kind, ty),
{
    let inputs = op_inputs(kind);
    match kind {
        OpView::Unary { op, arg } => {
            assert(inputs[0] == arg);
        },
        OpView::Mux { cond, then_value, else_value } => {
            assert(inputs[0] == cond && inputs[1] == then_value && inputs[2] == else_value);
        },
        OpView::Concat { parts } => {
            assert forall|i: int| 0 <= i < parts.len() implies module.ty(
                f(#[trigger] parts[i]),
            ).width == module.ty(parts[i]).width by {
                assert(inputs[i] == parts[i]);
            }
            lemma_renamed_width(module, parts, f);
        },
        OpView::Extract { value, lsb, width } => {
            assert(inputs[0] == value);
        },
        OpView::DynamicExtract { value, offset, width } => {
            assert(inputs[0] == value);
        },
        OpView::DynamicInsert { value, offset, replacement } => {
            assert(inputs[0] == value && inputs[2] == replacement);
        },
        OpView::TriState { data, enable } => {
            assert(inputs[0] == data && inputs[1] == enable.value);
        },
        OpView::Cast { kind: cast, value, target } => {
            assert(inputs[0] == value);
        },
        OpView::Register(register) => {
            let head = seq![register.d, register.clock] + enable_inputs(register.enable);
            assert(inputs[0] == register.d && inputs[1] == register.clock);
            if register.enable is Some {
                assert(inputs[2] == register.enable->0.value);
            }
            lemma_reset_inputs(register.resets);
            lemma_reset_widths(module, inputs, head.len() as int, register.resets, f, ty.width);
        },
        OpView::Latch(latch) => {
            assert(inputs[0] == latch.d && inputs[1] == latch.enable.value);
            lemma_reset_inputs(latch.resets);
            lemma_reset_widths(module, inputs, 2, latch.resets, f, ty.width);
        },
        _ => {},
    }
}

proof fn lemma_reset_widths(
    module: ModuleView,
    inputs: Seq<ValueId>,
    start: int,
    resets: Seq<Reset>,
    f: spec_fn(ValueId) -> ValueId,
    width: u32,
)
    requires
        start >= 0,
        inputs.len() == start + 2 * resets.len(),
        forall|i: int|
            0 <= i < resets.len() ==> inputs[start + 2 * i] == (#[trigger] resets[i]).value
                && inputs[start + 2 * i + 1] == resets[i].reset_value,
        forall|i: int|
            0 <= i < inputs.len() ==> module.ty(f(#[trigger] inputs[i])).width == module.ty(
                inputs[i],
            ).width,
    ensures
        resets_typed(module, renamed_resets(resets, f), width) == resets_typed(
            module,
            resets,
            width,
        ),
{
    let renamed = renamed_resets(resets, f);
    assert forall|i: int| 0 <= i < resets.len() implies module.ty(
        (#[trigger] renamed[i]).value,
    ).width == module.ty(resets[i].value).width && module.ty(renamed[i].reset_value).width
        == module.ty(resets[i].reset_value).width by {
        assert(inputs[start + 2 * i] == resets[i].value);
        assert(inputs[start + 2 * i + 1] == resets[i].reset_value);
    }
    if resets_typed(module, renamed, width) {
        assert forall|i: int| 0 <= i < resets.len() implies module.ty(
            (#[trigger] resets[i]).value,
        ).width == 1 && module.ty(resets[i].reset_value).width == width by {
            assert(module.ty(renamed[i].value).width == 1);
        }
    }
}

proof fn lemma_renamed_width(module: ModuleView, parts: Seq<ValueId>, f: spec_fn(ValueId) -> ValueId)
    requires
        forall|i: int|
            0 <= i < parts.len() ==> module.ty(f(#[trigger] parts[i])).width == module.ty(
                parts[i],
            ).width,
    ensures
        parts_width(module, parts.map_values(f)) == parts_width(module, parts),
    decreases parts.len(),
{
    if parts.len() > 0 {
        assert(parts.map_values(f).drop_last() =~= parts.drop_last().map_values(f));
        assert forall|i: int| 0 <= i < parts.drop_last().len() implies module.ty(
            f(#[trigger] parts.drop_last()[i]),
        ).width == module.ty(parts.drop_last()[i]).width by {
            assert(parts.drop_last()[i] == parts[i]);
        }
        lemma_renamed_width(module, parts.drop_last(), f);
        let last = parts[parts.len() - 1];
        assert(module.ty(f(last)).width == module.ty(last).width);
    }
}

/// What an operation on other operands computes.
proof fn lemma_bits_with_inputs(
    module: ModuleView,
    env: Env,
    result: int,
    kind: OpView,
    ty: WordType,
    operand: spec_fn(ValueId) -> Seq<bool>,
    f: spec_fn(ValueId) -> ValueId,
)
    requires
        forall|i: int|
            0 <= i < op_inputs(kind).len() ==> module.ty(f(#[trigger] op_inputs(kind)[i]))
                == module.ty(op_inputs(kind)[i]) && operand(f(op_inputs(kind)[i])) == operand(
                op_inputs(kind)[i],
            ),
    ensures
        op_bits(module, env, result, with_inputs(kind, f), ty, operand) == op_bits(
            module,
            env,
            result,
            kind,
            ty,
            operand,
        ),
{
    let inputs = op_inputs(kind);
    match kind {
        OpView::Unary { op, arg } => {
            assert(inputs[0] == arg);
        },
        OpView::Binary { op, left, right } => {
            assert(inputs[0] == left && inputs[1] == right);
        },
        OpView::Mux { cond, then_value, else_value } => {
            assert(inputs[0] == cond && inputs[1] == then_value && inputs[2] == else_value);
        },
        OpView::Concat { parts } => {
            assert(Seq::new(parts.len(), |i: int| operand(parts[i])) =~= Seq::new(
                parts.map_values(f).len(),
                |i: int| operand(parts.map_values(f)[i]),
            )) by {
                assert forall|i: int| 0 <= i < parts.len() implies operand(f(parts[i])) == operand(
                    parts[i],
                ) by {
                    assert(inputs[i] == parts[i]);
                }
            }
        },
        OpView::Extract { value, lsb, width } => {
            assert(inputs[0] == value);
        },
        OpView::DynamicExtract { value, offset, width } => {
            assert(inputs[0] == value && inputs[1] == offset);
        },
        OpView::DynamicInsert { value, offset, replacement } => {
            assert(inputs[0] == value && inputs[1] == offset && inputs[2] == replacement);
        },
        OpView::TriState { data, enable } => {
            assert(inputs[0] == data && inputs[1] == enable.value);
        },
        OpView::Cast { kind: cast, value, target } => {
            assert(inputs[0] == value);
        },
        OpView::Register(_) | OpView::Latch(_) => {},
    }
}

/// An operand may be replaced by what it stands for, if that is defined before
/// the result and is as wide.
pub open spec fn moves(module: ModuleView, map: Seq<ValueId>, bound: int, value: ValueId) -> bool {
    let other = map[value.raw as int];
    other.raw < bound && module.ty(other).width == module.ty(value).width
}

/// What an operand of an operation is replaced by.
pub open spec fn replaced(module: ModuleView, map: Seq<ValueId>, bound: int, value: ValueId) -> ValueId {
    if moves(module, map, bound, value) {
        map[value.raw as int]
    } else {
        value
    }
}

pub open spec fn replacing(module: ModuleView, map: Seq<ValueId>, bound: int) -> spec_fn(
    ValueId,
) -> ValueId {
    |value: ValueId| replaced(module, map, bound, value)
}

/// The operations of a module on the operands that a map gives them.
pub open spec fn renamed_operations(module: ModuleView, map: Seq<ValueId>) -> Seq<OperationView> {
    module.operations.map_values(
        |operation: OperationView|
            OperationView {
                kind: with_inputs(
                    operation.kind,
                    replacing(module, map, operation.result.raw as int),
                ),
                ..operation
            },
    )
}

/// Replacing operands keeps a module well formed.
pub proof fn lemma_renamed_wf(module: ModuleView, map: Seq<ValueId>)
    requires
        module.wf(),
        map_ok(module, map),
    ensures
        (ModuleView { operations: renamed_operations(module, map), ..module }).wf(),
{
    let after = ModuleView { operations: renamed_operations(module, map), ..module };
    assert forall|i: int| 0 <= i < after.values.len() implies #[trigger] after.value_ok(i) by {
        assert(module.value_ok(i));
    }
    assert forall|i: int| 0 <= i < after.operations.len() implies #[trigger] after.operation_ok(
        i,
    ) by {
        assert(module.operation_ok(i));
        let operation = module.operations[i];
        let f = replacing(module, map, operation.result.raw as int);
        let inputs = op_inputs(operation.kind);
        lemma_with_inputs(operation.kind, f);
        let renamed = op_inputs(after.operations[i].kind);
        assert(after.operations[i].kind == with_inputs(operation.kind, f));
        assert forall|k: int| 0 <= k < renamed.len() implies (#[trigger] renamed[k]).raw
            < operation.result.raw by {
            assert(renamed[k] == f(inputs[k]));
            assert(inputs[k].raw < operation.result.raw);
        }
        lemma_typed_inputs(module, operation.kind, f, module.ty(operation.result));
        assert forall|k: int| 0 <= k < renamed.len() implies after.ty(#[trigger] renamed[k])
            == module.ty(renamed[k]) by {}
        lemma_op_typed_agree(
            module,
            after,
            after.operations[i].kind,
            module.ty(operation.result),
        );
    }
    assert forall|i: int| 0 <= i < after.connects.len() implies after.connect_ok(
        #[trigger] after.connects[i],
    ) by {
        assert(module.connect_ok(module.connects[i]));
    }
    assert forall|i: int| 0 <= i < after.memory_reads.len() implies after.read_port_ok(
        #[trigger] after.memory_reads[i],
    ) by {
        assert(module.read_port_ok(module.memory_reads[i]));
    }
    assert forall|i: int| 0 <= i < after.memory_writes.len() implies after.write_port_ok(
        #[trigger] after.memory_writes[i],
    ) by {
        assert(module.write_port_ok(module.memory_writes[i]));
    }
}

/// Operands that are replaced by values which are the same leave every word as
/// it was.
pub proof fn replacing_operands_keeps_words(
    before: ModuleView,
    after: ModuleView,
    map: Seq<ValueId>,
    env: Env,
    value: int,
)
    requires
        before.wf(),
        sound_map(before, map),
        after.values == before.values,
        after.operations == renamed_operations(before, map),
        even_env(before, env),
        0 <= value < before.values.len(),
    ensures
        eval(after, env, value) == eval(before, env, value),
    decreases value,
{
    assert(before.value_ok(value));
    if let KindView::Operation(operation) = before.values[value].kind {
        assert(before.operation_ok(operation.raw as int));
        let kind = before.operations[operation.raw as int].kind;
        let ty = before.values[value].ty;
        let f = replacing(before, map, value);
        let inputs = op_inputs(kind);
        let old_words = crate::word::semantics::words_below(before, env, value);
        let new_words = crate::word::semantics::words_below(after, env, value);
        assert(after.operations[operation.raw as int].kind == with_inputs(kind, f));
        lemma_with_inputs(kind, f);
        assert forall|i: int| 0 <= i < inputs.len() implies before.ty(f(#[trigger] inputs[i]))
            == before.ty(inputs[i]) && old_words(f(inputs[i])) == old_words(inputs[i]) by {
            let input = inputs[i];
            assert(input.raw < value);
            assert(before.has(input));
            assert(same_value(before, input, map[input.raw as int]));
            assert(word_of(before, env, input) == word_of(before, env, map[input.raw as int]));
        }
        lemma_bits_with_inputs(before, env, value, kind, ty, old_words, f);
        let renamed = op_inputs(with_inputs(kind, f));
        assert forall|i: int| 0 <= i < renamed.len() implies old_words(#[trigger] renamed[i])
            == new_words(renamed[i]) && before.ty(renamed[i]) == after.ty(renamed[i]) by {
            assert(renamed[i] == f(inputs[i]));
            assert(inputs[i].raw < value);
            assert(renamed[i].raw < value);
            replacing_operands_keeps_words(before, after, map, env, renamed[i].raw as int);
        }
        lemma_op_bits_agree(
            before,
            after,
            env,
            value,
            with_inputs(kind, f),
            ty,
            old_words,
            new_words,
        );
    }
}

/// The operand that takes the place of another.
fn replacement(module: &WordModule, map: &Vec<ValueId>, bound: u32, value: ValueId) -> (other: ValueId)
    requires
        map_ok(module@, map@),
        module@.has(value),
    ensures
        other == replaced(module@, map@, bound as int, value),
{
    let other = map[value.raw as usize];
    assert(module@.has(map@[value.raw as int]));
    assert(module@.values[value.raw as int] == module.values@[value.raw as int]@);
    assert(module@.values[other.raw as int] == module.values@[other.raw as int]@);
    if other.raw < bound && module.values[other.raw as usize].ty.width
        == module.values[value.raw as usize].ty.width {
        other
    } else {
        value
    }
}

fn replace_resets(module: &WordModule, map: &Vec<ValueId>, bound: u32, resets: &Vec<Reset>) -> (renamed:
    Vec<Reset>)
    requires
        map_ok(module@, map@),
        forall|i: int|
            0 <= i < resets@.len() ==> module@.has((#[trigger] resets@[i]).value) && module@.has(
                resets@[i].reset_value,
            ),
    ensures
        renamed@ == renamed_resets(resets@, replacing(module@, map@, bound as int)),
{
    let mut renamed: Vec<Reset> = Vec::new();
    let mut i: usize = 0;
    while i < resets.len()
        invariant
            i <= resets@.len(),
            map_ok(module@, map@),
            forall|i: int|
                0 <= i < resets@.len() ==> module@.has((#[trigger] resets@[i]).value)
                    && module@.has(resets@[i].reset_value),
            renamed@ =~= renamed_resets(resets@, replacing(module@, map@, bound as int)).take(
                i as int,
            ),
        decreases resets.len() - i,
    {
        let reset = resets[i];
        assert(module@.has(resets@[i as int].value));
        renamed.push(
            Reset {
                kind: reset.kind,
                value: replacement(module, map, bound, reset.value),
                active_high: reset.active_high,
                reset_value: replacement(module, map, bound, reset.reset_value),
            },
        );
        i += 1;
    }
    renamed
}

fn replace_parts(module: &WordModule, map: &Vec<ValueId>, bound: u32, parts: &Vec<ValueId>) -> (renamed:
    Vec<ValueId>)
    requires
        map_ok(module@, map@),
        forall|i: int| 0 <= i < parts@.len() ==> module@.has(#[trigger] parts@[i]),
    ensures
        renamed@ == parts@.map_values(replacing(module@, map@, bound as int)),
{
    let mut renamed: Vec<ValueId> = Vec::new();
    let mut i: usize = 0;
    while i < parts.len()
        invariant
            i <= parts@.len(),
            map_ok(module@, map@),
            forall|i: int| 0 <= i < parts@.len() ==> module@.has(#[trigger] parts@[i]),
            renamed@ =~= parts@.map_values(replacing(module@, map@, bound as int)).take(i as int),
        decreases parts.len() - i,
    {
        let part = parts[i];
        assert(module@.has(parts@[i as int]));
        renamed.push(replacement(module, map, bound, part));
        i += 1;
    }
    renamed
}

/// An operation on the operands that a map gives it.
#[verifier::rlimit(40)]
pub fn rewrite_operation_inputs(module: &WordModule, map: &Vec<ValueId>, bound: u32, kind: &OpKind)
    -> (renamed: OpKind)
    requires
        map_ok(module@, map@),
        module@.inputs_below(kind@, module@.values.len() as int),
    ensures
        renamed@ == with_inputs(kind@, replacing(module@, map@, bound as int)),
{
    let ghost inputs = op_inputs(kind@);
    assert(forall|i: int| 0 <= i < inputs.len() ==> module@.has(#[trigger] inputs[i]));
    match kind {
        OpKind::Unary { op, arg } => {
            assert(inputs[0] == *arg);
            OpKind::Unary { op: *op, arg: replacement(module, map, bound, *arg) }
        },
        OpKind::Binary { op, left, right } => {
            assert(inputs[0] == *left && inputs[1] == *right);
            OpKind::Binary {
                op: *op,
                left: replacement(module, map, bound, *left),
                right: replacement(module, map, bound, *right),
            }
        },
        OpKind::Mux { cond, then_value, else_value } => {
            assert(inputs[0] == *cond && inputs[1] == *then_value && inputs[2] == *else_value);
            OpKind::Mux {
                cond: replacement(module, map, bound, *cond),
                then_value: replacement(module, map, bound, *then_value),
                else_value: replacement(module, map, bound, *else_value),
            }
        },
        OpKind::Concat { parts } => {
            assert forall|i: int| 0 <= i < parts@.len() implies module@.has(
                #[trigger] parts@[i],
            ) by {
                assert(inputs[i] == parts@[i]);
            }
            OpKind::Concat { parts: replace_parts(module, map, bound, parts) }
        },
        OpKind::Extract { value, lsb, width } => {
            assert(inputs[0] == *value);
            OpKind::Extract {
                value: replacement(module, map, bound, *value),
                lsb: *lsb,
                width: *width,
            }
        },
        OpKind::DynamicExtract { value, offset, width } => {
            assert(inputs[0] == *value && inputs[1] == *offset);
            OpKind::DynamicExtract {
                value: replacement(module, map, bound, *value),
                offset: replacement(module, map, bound, *offset),
                width: *width,
            }
        },
        OpKind::DynamicInsert { value, offset, replacement: inserted } => {
            assert(inputs[0] == *value && inputs[1] == *offset && inputs[2] == *inserted);
            OpKind::DynamicInsert {
                value: replacement(module, map, bound, *value),
                offset: replacement(module, map, bound, *offset),
                replacement: replacement(module, map, bound, *inserted),
            }
        },
        OpKind::TriState { data, enable } => {
            assert(inputs[0] == *data && inputs[1] == enable.value);
            OpKind::TriState {
                data: replacement(module, map, bound, *data),
                enable: Enable {
                    value: replacement(module, map, bound, enable.value),
                    active_high: enable.active_high,
                },
            }
        },
        OpKind::Cast { kind: cast, value, target } => {
            assert(inputs[0] == *value);
            OpKind::Cast {
                kind: *cast,
                value: replacement(module, map, bound, *value),
                target: *target,
            }
        },
        OpKind::Register(register) => {
            let ghost head = seq![register.d, register.clock] + enable_inputs(register.enable);
            assert(inputs[0] == register.d && inputs[1] == register.clock);
            proof {
                if register.enable is Some {
                    assert(inputs[2] == register.enable->0.value);
                }
                lemma_reset_inputs(register.resets@);
            }
            assert forall|i: int| 0 <= i < register.resets@.len() implies module@.has(
                (#[trigger] register.resets@[i]).value,
            ) && module@.has(register.resets@[i].reset_value) by {
                assert(inputs[head.len() + 2 * i] == register.resets@[i].value);
                assert(inputs[head.len() + 2 * i + 1] == register.resets@[i].reset_value);
            }
            let enable = match register.enable {
                Some(enable) => Some(
                    Enable {
                        value: replacement(module, map, bound, enable.value),
                        active_high: enable.active_high,
                    },
                ),
                None => None,
            };
            OpKind::Register(
                RegisterOp {
                    name: register.name,
                    d: replacement(module, map, bound, register.d),
                    clock: replacement(module, map, bound, register.clock),
                    edge: register.edge,
                    enable,
                    resets: replace_resets(module, map, bound, &register.resets),
                },
            )
        },
        OpKind::Latch(latch) => {
            assert(inputs[0] == latch.d && inputs[1] == latch.enable.value);
            proof {
                lemma_reset_inputs(latch.resets@);
            }
            assert forall|i: int| 0 <= i < latch.resets@.len() implies module@.has(
                (#[trigger] latch.resets@[i]).value,
            ) && module@.has(latch.resets@[i].reset_value) by {
                assert(inputs[2 + 2 * i] == latch.resets@[i].value);
                assert(inputs[2 + 2 * i + 1] == latch.resets@[i].reset_value);
            }
            OpKind::Latch(
                LatchOp {
                    name: latch.name,
                    d: replacement(module, map, bound, latch.d),
                    enable: Enable {
                        value: replacement(module, map, bound, latch.enable.value),
                        active_high: latch.enable.active_high,
                    },
                    resets: replace_resets(module, map, bound, &latch.resets),
                },
            )
        },
    }
}

/// Puts every operation of a module on the operands that a map gives it.
pub fn rewrite_operations(module: &mut WordModule, map: &Vec<ValueId>)
    requires
        old(module)@.wf(),
        map_ok(old(module)@, map@),
    ensures
        final(module)@ == (ModuleView {
            operations: renamed_operations(old(module)@, map@),
            ..old(module)@
        }),
        final(module)@.wf(),
{
    let ghost start = module@;
    let ghost renamed = renamed_operations(start, map@);
    let total: usize = module.operations.len();
    let mut i: usize = 0;
    while i < total
        invariant
            start == old(module)@,
            start.wf(),
            map_ok(start, map@),
            renamed == renamed_operations(start, map@),
            i <= total,
            total == start.operations.len(),
            module@ == (ModuleView { operations: module@.operations, ..start }),
            module@.operations.len() == total,
            forall|j: int| 0 <= j < i ==> #[trigger] module@.operations[j] == renamed[j],
            forall|j: int|
                i <= j < total ==> #[trigger] module@.operations[j] == start.operations[j],
        decreases total - i,
    {
        let ghost before = module@;
        assert(before.operations[i as int] == start.operations[i as int]);
        assert(start.operation_ok(i as int));
        let result = module.operations[i].result;
        let source = module.operations[i].source;
        assert(module.operations@[i as int]@ == start.operations[i as int]);
        assert(before.inputs_below(
            start.operations[i as int].kind,
            before.values.len() as int,
        )) by {
            let inputs = op_inputs(start.operations[i as int].kind);
            assert forall|k: int| 0 <= k < inputs.len() implies (#[trigger] inputs[k]).raw
                < before.values.len() by {
                assert(inputs[k].raw < result.raw);
            }
        }
        assert(map_ok(before, map@));
        let kind = rewrite_operation_inputs(module, map, result.raw, &module.operations[i].kind);
        assert(replacing(before, map@, result.raw as int) =~= replacing(
            start,
            map@,
            result.raw as int,
        ));
        let ghost made = kind@;
        module.operations.set(i, Operation { kind, result, source });
        assert(module@.operations =~= before.operations.update(
            i as int,
            OperationView { kind: made, result, source },
        ));
        assert(module@ =~= (ModuleView { operations: module@.operations, ..start }));
        i += 1;
    }
    proof {
        assert(module@.operations =~= renamed);
        lemma_renamed_wf(start, map@);
    }
}

/// A connection of what a map puts in the place of its values.
pub open spec fn renamed_connect(connect: Connect, map: Seq<ValueId>) -> Connect {
    Connect {
        target: LValue {
            dynamic: match connect.target.dynamic {
                Some(dynamic) => Some(
                    DynamicTarget { offset: map[dynamic.offset.raw as int], ..dynamic },
                ),
                None => None,
            },
            ..connect.target
        },
        value: map[connect.value.raw as int],
        ..connect
    }
}

/// The connections that stay, renamed.
pub open spec fn renamed_connects(connects: Seq<Connect>, removed: Seq<bool>, map: Seq<ValueId>) -> Seq<
    Connect,
>
    decreases connects.len(),
{
    if connects.len() == 0 {
        seq![]
    } else {
        let below = renamed_connects(connects.drop_last(), removed, map);
        if removed[connects.len() - 1] {
            below
        } else {
            below.push(renamed_connect(connects.last(), map))
        }
    }
}

/// Renames the connections of a module and drops those that are marked.
pub fn rewrite_connects(module: &mut WordModule, removed: &Vec<bool>, map: &Vec<ValueId>)
    requires
        old(module)@.wf(),
        map_ok(old(module)@, map@),
        removed@.len() == old(module)@.connects.len(),
    ensures
        final(module)@ == old(module)@.with_connects(
            renamed_connects(old(module)@.connects, removed@, map@),
        ),
        final(module)@.wf(),
{
    let ghost start = module@;
    let mut kept: Vec<Connect> = Vec::new();
    let mut i: usize = 0;
    while i < module.connects.len()
        invariant
            module@ == start,
            start.wf(),
            map_ok(start, map@),
            i <= start.connects.len(),
            removed@.len() == start.connects.len(),
            kept@ == renamed_connects(start.connects.take(i as int), removed@, map@),
            forall|k: int| 0 <= k < kept@.len() ==> start.connect_ok(#[trigger] kept@[k]),
        decreases module.connects.len() - i,
    {
        let connect = module.connects[i];
        assert(start.connect_ok(start.connects[i as int]));
        assert(start.connects.take(i + 1).drop_last() =~= start.connects.take(i as int));
        assert(start.connects.take(i + 1).last() == connect);
        if !removed[i] {
            assert(start.has(map@[connect.value.raw as int]));
            let dynamic = match connect.target.dynamic {
                Some(dynamic) => {
                    assert(start.has(map@[dynamic.offset.raw as int]));
                    Some(
                        DynamicTarget {
                            offset: map[dynamic.offset.raw as usize],
                            width: dynamic.width,
                        },
                    )
                },
                None => None,
            };
            kept.push(
                Connect {
                    target: LValue {
                        signal: connect.target.signal,
                        range: connect.target.range,
                        dynamic,
                    },
                    value: map[connect.value.raw as usize],
                    source: connect.source,
                },
            );
        }
        i += 1;
    }
    assert(start.connects.take(i as int) =~= start.connects);
    let ghost connects = kept@;
    module.connects = kept;
    proof {
        crate::word::builders::lemma_with_connects(start, connects);
        assert(module@ =~= start.with_connects(connects));
    }
}

pub open spec fn renamed_instance(instance: InstanceView, map: Seq<ValueId>) -> InstanceView {
    InstanceView {
        connections: instance.connections.map_values(
            |connection: InstanceConnection|
                InstanceConnection { value: map[connection.value.raw as int], ..connection },
        ),
        ..instance
    }
}

pub open spec fn renamed_instances(module: ModuleView, map: Seq<ValueId>) -> Seq<InstanceView> {
    module.instances.map_values(|instance: InstanceView| renamed_instance(instance, map))
}

/// Renames the values on the pins of instances.
pub fn rewrite_instances(module: &mut WordModule, map: &Vec<ValueId>)
    requires
        old(module)@.wf(),
        map_ok(old(module)@, map@),
    ensures
        final(module)@ == (ModuleView {
            instances: renamed_instances(old(module)@, map@),
            ..old(module)@
        }),
        final(module)@.wf(),
{
    let ghost start = module@;
    let ghost renamed = renamed_instances(start, map@);
    let total: usize = module.instances.len();
    let mut i: usize = 0;
    while i < total
        invariant
            start == old(module)@,
            start.wf(),
            map_ok(start, map@),
            renamed == renamed_instances(start, map@),
            i <= total,
            total == start.instances.len(),
            module@ == (ModuleView { instances: module@.instances, ..start }),
            module@.instances.len() == total,
            forall|j: int| 0 <= j < i ==> #[trigger] module@.instances[j] == renamed[j],
            forall|j: int|
                i <= j < total ==> #[trigger] module@.instances[j] == start.instances[j],
        decreases total - i,
    {
        let ghost before = module@;
        assert(before.instances[i as int] == start.instances[i as int]);
        let instance = &module.instances[i];
        assert(instance@ == start.instances[i as int]);
        let name = instance.name;
        let cell = instance.cell;
        let source = instance.source;
        let mut connections: Vec<InstanceConnection> = Vec::new();
        let mut k: usize = 0;
        while k < instance.connections.len()
            invariant
                start.wf(),
                map_ok(start, map@),
                i < start.instances.len(),
                instance@ == start.instances[i as int],
                k <= instance.connections@.len(),
                connections@ =~= renamed_instance(instance@, map@).connections.take(k as int),
            decreases instance.connections.len() - k,
        {
            let connection = instance.connections[k];
            assert(start.instances[i as int].connections[k as int].value.raw < start.values.len());
            connections.push(
                InstanceConnection {
                    pin: connection.pin,
                    value: map[connection.value.raw as usize],
                    source: connection.source,
                },
            );
            k += 1;
        }
        let ghost pins = connections@;
        assert(pins =~= renamed[i as int].connections);
        module.instances.set(i, Instance { name, cell, connections, source });
        assert(module@.instances =~= before.instances.update(i as int, renamed[i as int]));
        assert(module@ =~= (ModuleView { instances: module@.instances, ..start }));
        i += 1;
    }
    proof {
        assert(module@.instances =~= renamed);
        lemma_resources_wf(start, module@);
    }
}

/// A module that differs in its instances and memory ports is well formed if
/// those are.
proof fn lemma_resources_wf(before: ModuleView, after: ModuleView)
    requires
        before.wf(),
        after == (ModuleView {
            instances: after.instances,
            memory_reads: after.memory_reads,
            memory_writes: after.memory_writes,
            ..before
        }),
        forall|i: int, j: int|
            0 <= i < after.instances.len() && 0 <= j < after.instances[i].connections.len()
                ==> (#[trigger] after.instances[i].connections[j]).value.raw < after.values.len(),
        forall|i: int|
            0 <= i < after.memory_reads.len() ==> after.read_port_ok(
                #[trigger] after.memory_reads[i],
            ),
        forall|i: int|
            0 <= i < after.memory_writes.len() ==> after.write_port_ok(
                #[trigger] after.memory_writes[i],
            ),
    ensures
        after.wf(),
{
    assert forall|i: int| 0 <= i < after.values.len() implies #[trigger] after.value_ok(i) by {
        assert(before.value_ok(i));
    }
    assert forall|i: int| 0 <= i < after.operations.len() implies #[trigger] after.operation_ok(
        i,
    ) by {
        assert(before.operation_ok(i));
        let operation = before.operations[i];
        let inputs = op_inputs(operation.kind);
        assert forall|k: int| 0 <= k < inputs.len() implies after.ty(#[trigger] inputs[k])
            == before.ty(inputs[k]) by {}
        lemma_op_typed_agree(before, after, operation.kind, before.ty(operation.result));
    }
    assert forall|i: int| 0 <= i < after.connects.len() implies after.connect_ok(
        #[trigger] after.connects[i],
    ) by {
        assert(before.connect_ok(before.connects[i]));
    }
}

pub open spec fn at(map: Seq<ValueId>, value: ValueId) -> ValueId {
    map[value.raw as int]
}

pub open spec fn renamed_clock(clock: MemoryClock, map: Seq<ValueId>) -> MemoryClock {
    MemoryClock { value: at(map, clock.value), ..clock }
}

pub open spec fn mapped_enable(enable: Option<Enable>, map: Seq<ValueId>) -> Option<Enable> {
    match enable {
        Some(enable) => Some(Enable { value: at(map, enable.value), ..enable }),
        None => None,
    }
}

pub open spec fn renamed_read_port(port: MemoryReadPort, map: Seq<ValueId>) -> MemoryReadPort {
    MemoryReadPort {
        address: at(map, port.address),
        timing: match port.timing {
            MemoryReadTiming::Asynchronous => MemoryReadTiming::Asynchronous,
            MemoryReadTiming::Synchronous { clock, enable, disabled } =>
                MemoryReadTiming::Synchronous {
                clock: renamed_clock(clock, map),
                enable: mapped_enable(enable, map),
                disabled,
            },
        },
        ..port
    }
}

pub open spec fn renamed_write_port(port: MemoryWritePort, map: Seq<ValueId>) -> MemoryWritePort {
    MemoryWritePort {
        address: at(map, port.address),
        data: at(map, port.data),
        clock: renamed_clock(port.clock, map),
        enable: mapped_enable(port.enable, map),
        mask: match port.mask {
            Some(mask) => Some(MemoryWriteMask { value: at(map, mask.value), ..mask }),
            None => None,
        },
        ..port
    }
}

pub open spec fn renamed_reads(module: ModuleView, map: Seq<ValueId>) -> Seq<MemoryReadPort> {
    module.memory_reads.map_values(|port: MemoryReadPort| renamed_read_port(port, map))
}

pub open spec fn renamed_writes(module: ModuleView, map: Seq<ValueId>) -> Seq<MemoryWritePort> {
    module.memory_writes.map_values(|port: MemoryWritePort| renamed_write_port(port, map))
}

fn rename_enable(enable: Option<Enable>, map: &Vec<ValueId>) -> (renamed: Option<Enable>)
    requires
        enable matches Some(e) ==> e.value.raw < map@.len(),
    ensures
        renamed == mapped_enable(enable, map@),
{
    match enable {
        Some(enable) => Some(
            Enable { value: map[enable.value.raw as usize], active_high: enable.active_high },
        ),
        None => None,
    }
}

/// Renames the values at the ports of memories.
pub fn rewrite_memory_ports(module: &mut WordModule, map: &Vec<ValueId>)
    requires
        old(module)@.wf(),
        map_ok(old(module)@, map@),
    ensures
        final(module)@ == (ModuleView {
            memory_reads: renamed_reads(old(module)@, map@),
            memory_writes: renamed_writes(old(module)@, map@),
            ..old(module)@
        }),
        final(module)@.wf(),
{
    let ghost start = module@;
    let mut reads: Vec<MemoryReadPort> = Vec::new();
    let mut i: usize = 0;
    while i < module.memory_reads.len()
        invariant
            module@ == start,
            start.wf(),
            map_ok(start, map@),
            i <= start.memory_reads.len(),
            reads@ =~= renamed_reads(start, map@).take(i as int),
        decreases module.memory_reads.len() - i,
    {
        let port = module.memory_reads[i];
        assert(start.read_port_ok(start.memory_reads[i as int]));
        let timing = match port.timing {
            MemoryReadTiming::Asynchronous => MemoryReadTiming::Asynchronous,
            MemoryReadTiming::Synchronous { clock, enable, disabled } =>
                MemoryReadTiming::Synchronous {
                clock: MemoryClock { value: map[clock.value.raw as usize], edge: clock.edge },
                enable: rename_enable(enable, map),
                disabled,
            },
        };
        reads.push(
            MemoryReadPort {
                memory: port.memory,
                address: map[port.address.raw as usize],
                data: port.data,
                timing,
                read_during_write: port.read_during_write,
                source: port.source,
            },
        );
        i += 1;
    }
    let mut writes: Vec<MemoryWritePort> = Vec::new();
    let mut i: usize = 0;
    while i < module.memory_writes.len()
        invariant
            module@ == start,
            start.wf(),
            map_ok(start, map@),
            i <= start.memory_writes.len(),
            writes@ =~= renamed_writes(start, map@).take(i as int),
        decreases module.memory_writes.len() - i,
    {
        let port = module.memory_writes[i];
        assert(start.write_port_ok(start.memory_writes[i as int]));
        let mask = match port.mask {
            Some(mask) => Some(
                MemoryWriteMask {
                    value: map[mask.value.raw as usize],
                    granularity: mask.granularity,
                    active_high: mask.active_high,
                },
            ),
            None => None,
        };
        writes.push(
            MemoryWritePort {
                memory: port.memory,
                address: map[port.address.raw as usize],
                data: map[port.data.raw as usize],
                clock: MemoryClock {
                    value: map[port.clock.value.raw as usize],
                    edge: port.clock.edge,
                },
                enable: rename_enable(port.enable, map),
                mask,
                priority: port.priority,
                source: port.source,
            },
        );
        i += 1;
    }
    let ghost read_ports = reads@;
    let ghost write_ports = writes@;
    module.memory_reads = reads;
    module.memory_writes = writes;
    proof {
        assert(read_ports =~= renamed_reads(start, map@));
        assert(write_ports =~= renamed_writes(start, map@));
        assert(module@ =~= (ModuleView {
            memory_reads: read_ports,
            memory_writes: write_ports,
            ..start
        }));
        assert forall|i: int| 0 <= i < read_ports.len() implies module@.read_port_ok(
            #[trigger] read_ports[i],
        ) by {
            assert(start.read_port_ok(start.memory_reads[i]));
        }
        assert forall|i: int| 0 <= i < write_ports.len() implies module@.write_port_ok(
            #[trigger] write_ports[i],
        ) by {
            assert(start.write_port_ok(start.memory_writes[i]));
        }
        lemma_resources_wf(start, module@);
    }
}

} // verus!
