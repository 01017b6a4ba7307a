//! The bits of operations are worked out from the bits that they depend on, and no others.

use super::cycle::{last_bit, operation_depends, part_place};
use super::module::{parts_width, ModuleView};
use super::semantics::{concat_bits, op_bits, resize_bits, Env};
use super::types::{is_state, op_inputs, OpId, OpView, ValueId};
use vstd::prelude::*;

verus! {

/// The last part of a concatenation is lowest.
pub proof fn lemma_concat_last(parts: Seq<Seq<bool>>)
    requires
        parts.len() > 0,
    ensures
        concat_bits(parts) == parts.last() + concat_bits(parts.drop_last()),
    decreases parts.len(),
{
    if parts.len() == 1 {
        assert(parts.skip(1).len() == 0);
        assert(concat_bits(parts.skip(1)) =~= seq![]);
        assert(concat_bits(parts.drop_last()) =~= seq![]);
        assert(concat_bits(parts) =~= parts[0]);
        assert(parts.last() + concat_bits(parts.drop_last()) =~= parts[0]);
    } else {
        lemma_concat_last(parts.skip(1));
        assert(parts.skip(1).drop_last() =~= parts.drop_last().skip(1));
        assert(parts.skip(1).last() == parts.last());
        assert(parts.drop_last()[0] == parts[0]);
        assert(concat_bits(parts) =~= parts.last() + concat_bits(parts.drop_last()));
    }
}

/// A bit of a concatenation is that of the part that holds it.
proof fn lemma_concat_bit(
    module: ModuleView,
    parts: Seq<ValueId>,
    f: spec_fn(ValueId) -> Seq<bool>,
    g: spec_fn(ValueId) -> Seq<bool>,
    bit: int,
)
    requires
        forall|k: int|
            0 <= k < parts.len() ==> f(#[trigger] parts[k]).len() == module.ty(parts[k]).width
                && g(parts[k]).len() == module.ty(parts[k]).width,
        forall|k: int|
            0 <= k < parts.len() && 0 <= part_place(module, parts, k, bit) < module.ty(
                #[trigger] parts[k],
            ).width ==> f(parts[k])[part_place(module, parts, k, bit)] == g(
                parts[k],
            )[part_place(module, parts, k, bit)],
        0 <= bit < parts_width(module, parts),
    ensures
        concat_bits(Seq::new(parts.len(), |i: int| f(parts[i])))[bit] == concat_bits(
            Seq::new(parts.len(), |i: int| g(parts[i])),
        )[bit],
        concat_bits(Seq::new(parts.len(), |i: int| f(parts[i]))).len() == parts_width(module, parts),
        concat_bits(Seq::new(parts.len(), |i: int| g(parts[i]))).len() == parts_width(module, parts),
    decreases parts.len(),
{
    let fs = Seq::new(parts.len(), |i: int| f(parts[i]));
    let gs = Seq::new(parts.len(), |i: int| g(parts[i]));
    if parts.len() > 0 {
        let n = parts.len() - 1;
        let short = parts.drop_last();
        let last = parts.last();
        let width = module.ty(last).width;
        assert(parts[n] == last);
        lemma_concat_last(fs);
        lemma_concat_last(gs);
        assert(fs.drop_last() =~= Seq::new(short.len(), |i: int| f(short[i])));
        assert(gs.drop_last() =~= Seq::new(short.len(), |i: int| g(short[i])));
        assert(parts.take(n + 1) =~= parts);
        assert(part_place(module, parts, n, bit) == bit);
        assert forall|k: int| 0 <= k < short.len() implies f(#[trigger] short[k]).len()
            == module.ty(short[k]).width && g(short[k]).len() == module.ty(short[k]).width by {
            assert(short[k] == parts[k]);
        }
        if bit < width {
            lemma_concat_sized(module, short, f);
            lemma_concat_sized(module, short, g);
        } else {
            assert forall|k: int|
                0 <= k < short.len() && 0 <= part_place(module, short, k, bit - width) < module.ty(
                    #[trigger] short[k],
                ).width implies f(short[k])[part_place(module, short, k, bit - width)] == g(
                short[k],
            )[part_place(module, short, k, bit - width)] by {
                assert(short[k] == parts[k]);
                assert(short.take(k + 1) =~= parts.take(k + 1));
                assert(part_place(module, short, k, bit - width) == part_place(
                    module,
                    parts,
                    k,
                    bit,
                ));
            }
            lemma_concat_bit(module, short, f, g, bit - width);
        }
    }
}

proof fn lemma_concat_sized(
    module: ModuleView,
    parts: Seq<ValueId>,
    f: spec_fn(ValueId) -> Seq<bool>,
)
    requires
        forall|k: int|
            0 <= k < parts.len() ==> f(#[trigger] parts[k]).len() == module.ty(parts[k]).width,
    ensures
        concat_bits(Seq::new(parts.len(), |i: int| f(parts[i]))).len() == parts_width(module, parts),
    decreases parts.len(),
{
    let fs = Seq::new(parts.len(), |i: int| f(parts[i]));
    if parts.len() > 0 {
        let short = parts.drop_last();
        lemma_concat_last(fs);
        assert(fs.drop_last() =~= Seq::new(short.len(), |i: int| f(short[i])));
        assert forall|k: int| 0 <= k < short.len() implies f(#[trigger] short[k]).len()
            == module.ty(short[k]).width by {
            assert(short[k] == parts[k]);
        }
        assert(parts[parts.len() - 1] == parts.last());
        lemma_concat_sized(module, short, f);
    }
}

/// Operands are the same in all bits that a bit of an operation depends on.
pub open spec fn alike_below(
    module: ModuleView,
    operation: OpId,
    bit: int,
    f: spec_fn(ValueId) -> Seq<bool>,
    g: spec_fn(ValueId) -> Seq<bool>,
) -> bool {
    forall|part: ValueId, place: int|
        0 <= place < module.ty(part).width && #[trigger] operation_depends(
            module,
            operation,
            bit,
            part,
            place,
        ) ==> f(part)[place] == g(part)[place]
}

/// A bit of an operation depends on no other bits than it is said to: operands that are the
/// same in those give the same bit, whatever the others are.
#[verifier::rlimit(60)]
pub proof fn bits_depend_on_no_others(
    module: ModuleView,
    env: Env,
    operation: OpId,
    bit: int,
    f: spec_fn(ValueId) -> Seq<bool>,
    g: spec_fn(ValueId) -> Seq<bool>,
)
    requires
        module.wf(),
        operation.raw < module.operations.len(),
        !is_state(module.operations[operation.raw as int].kind),
        forall|i: int|
            0 <= i < op_inputs(module.operations[operation.raw as int].kind).len() ==> f(
                #[trigger] op_inputs(module.operations[operation.raw as int].kind)[i],
            ).len() == module.ty(
                op_inputs(module.operations[operation.raw as int].kind)[i],
            ).width && g(op_inputs(module.operations[operation.raw as int].kind)[i]).len()
                == module.ty(op_inputs(module.operations[operation.raw as int].kind)[i]).width,
        0 <= bit < module.ty(module.operations[operation.raw as int].result).width,
        alike_below(module, operation, bit, f, g),
    ensures
        ({
            let stored = module.operations[operation.raw as int];
            let result = stored.result.raw as int;
            let ty = module.ty(stored.result);
            op_bits(module, env, result, stored.kind, ty, f)[bit] == op_bits(
                module,
                env,
                result,
                stored.kind,
                ty,
                g,
            )[bit]
        }),
{
    let o = operation.raw as int;
    let kind = module.operations[o].kind;
    let inputs = op_inputs(kind);
    assert(module.operation_ok(o));
    let ty = module.ty(module.operations[o].result);
    match kind {
        OpView::Unary { op, arg } => {
            assert(inputs[0] == arg);
            if op is BitNot {
                assert(operation_depends(module, operation, bit, arg, bit));
            } else {
                lemma_whole(module, operation, bit, f, g, arg);
            }
        },
        OpView::Binary { op, left, right } => {
            assert(inputs[0] == left && inputs[1] == right);
            assert(module.value_ok(left.raw as int) && module.value_ok(right.raw as int));
            if op is BitAnd || op is BitOr || op is BitXor {
                let l = last_bit(module, left, bit);
                let r = last_bit(module, right, bit);
                assert(operation_depends(module, operation, bit, left, l));
                assert(operation_depends(module, operation, bit, right, r));
                assert(f(left)[l] == g(left)[l] && f(right)[r] == g(right)[r]);
                let fl = resize_bits(f(left), module.ty(left), ty);
                let gl = resize_bits(g(left), module.ty(left), ty);
                let fr = resize_bits(f(right), module.ty(right), ty);
                let gr = resize_bits(g(right), module.ty(right), ty);
                assert(fl[bit] == gl[bit]);
                assert(fr[bit] == gr[bit]);
            } else {
                lemma_whole(module, operation, bit, f, g, left);
                lemma_whole(module, operation, bit, f, g, right);
            }
        },
        OpView::Mux { cond, then_value, else_value } => {
            assert(inputs[0] == cond && inputs[1] == then_value && inputs[2] == else_value);
            assert(module.value_ok(cond.raw as int));
            assert(operation_depends(module, operation, bit, cond, 0));
            assert(operation_depends(module, operation, bit, then_value, bit));
            assert(operation_depends(module, operation, bit, else_value, bit));
        },
        OpView::Concat { parts } => {
            assert forall|k: int| 0 <= k < parts.len() implies f(#[trigger] parts[k]).len()
                == module.ty(parts[k]).width && g(parts[k]).len() == module.ty(parts[k]).width by {
                assert(inputs[k] == parts[k]);
            }
            assert forall|k: int|
                0 <= k < parts.len() && 0 <= part_place(module, parts, k, bit) < module.ty(
                    #[trigger] parts[k],
                ).width implies f(parts[k])[part_place(module, parts, k, bit)] == g(
                parts[k],
            )[part_place(module, parts, k, bit)] by {
                assert(operation_depends(
                    module,
                    operation,
                    bit,
                    parts[k],
                    part_place(module, parts, k, bit),
                ));
            }
            lemma_concat_bit(module, parts, f, g, bit);
        },
        OpView::Extract { value, lsb, width } => {
            assert(inputs[0] == value);
            assert(operation_depends(module, operation, bit, value, lsb + bit));
        },
        OpView::DynamicExtract { value, offset, width } => {
            assert(inputs[0] == value && inputs[1] == offset);
            lemma_whole(module, operation, bit, f, g, value);
            lemma_whole(module, operation, bit, f, g, offset);
        },
        OpView::DynamicInsert { value, offset, replacement } => {
            assert(inputs[0] == value && inputs[1] == offset && inputs[2] == replacement);
            lemma_whole(module, operation, bit, f, g, value);
            lemma_whole(module, operation, bit, f, g, offset);
            lemma_whole(module, operation, bit, f, g, replacement);
        },
        OpView::TriState { data, enable } => {
            assert(inputs[0] == data && inputs[1] == enable.value);
            lemma_whole(module, operation, bit, f, g, data);
            lemma_whole(module, operation, bit, f, g, enable.value);
        },
        OpView::Cast { kind: cast, value, target } => {
            assert(inputs[0] == value);
            assert(module.value_ok(value.raw as int));
            let place = last_bit(module, value, bit);
            assert(operation_depends(module, operation, bit, value, place));
            assert(f(value)[place] == g(value)[place]);
        },
        OpView::Register(_) | OpView::Latch(_) => {},
    }
}

/// An operand that a bit depends on as a whole is the same.
proof fn lemma_whole(
    module: ModuleView,
    operation: OpId,
    bit: int,
    f: spec_fn(ValueId) -> Seq<bool>,
    g: spec_fn(ValueId) -> Seq<bool>,
    part: ValueId,
)
    requires
        f(part).len() == module.ty(part).width,
        g(part).len() == module.ty(part).width,
        alike_below(module, operation, bit, f, g),
        forall|place: int|
            0 <= place < module.ty(part).width ==> #[trigger] operation_depends(
                module,
                operation,
                bit,
                part,
                place,
            ),
    ensures
        f(part) == g(part),
{
    assert forall|place: int| 0 <= place < module.ty(part).width implies #[trigger] f(part)[place]
        == g(part)[place] by {
        assert(operation_depends(module, operation, bit, part, place));
    }
    assert(f(part) =~= g(part));
}

} // verus!
