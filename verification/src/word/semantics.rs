//! What the words of a module stand for.

use super::bits::{all_bits, any_bit, bits_of, int_of, nat_of, parity};
use super::module::{KindView, ModuleView};
use super::types::{
    bit_lsb, op_inputs, BinaryOp, BitVal, CastKind, OpView, SourceSpan, UnaryOp, ValueId, WordType,
};
use vstd::prelude::*;

verus! {

/// What a module's words are read against: a bit for every signal bit, for
/// every stored state bit and for every unknown constant bit.
pub struct Env {
    pub signal: spec_fn(int, int) -> bool,
    pub state: spec_fn(int, int) -> bool,
    pub unknown: spec_fn(int, int) -> bool,
}

/// A word brought to the width of another type. It is sign-extended only
/// between signed types.
pub open spec fn resize_bits(bits: Seq<bool>, source: WordType, target: WordType) -> Seq<bool> {
    Seq::new(
        target.width as nat,
        |i: int|
            if i < bits.len() {
                bits[i]
            } else {
                target.signed && source.signed && bits.len() > 0 && bits.last()
            },
    )
}

pub open spec fn unary_bits(op: UnaryOp, arg: Seq<bool>) -> Seq<bool> {
    match op {
        UnaryOp::BitNot => Seq::new(arg.len(), |i: int| !arg[i]),
        UnaryOp::LogicalNot => seq![!any_bit(arg)],
        UnaryOp::ReductionAnd => seq![all_bits(arg)],
        UnaryOp::ReductionOr => seq![any_bit(arg)],
        UnaryOp::ReductionXor => seq![parity(arg)],
    }
}

/// Division that rounds towards zero.
pub open spec fn trunc_div(left: int, right: int) -> int {
    if left >= 0 {
        if right >= 0 {
            left / right
        } else {
            -(left / (-right))
        }
    } else {
        if right >= 0 {
            -((-left) / right)
        } else {
            (-left) / (-right)
        }
    }
}

/// The remainder of `trunc_div`, which has the sign of the dividend.
pub open spec fn trunc_rem(left: int, right: int) -> int {
    let divisor = if right >= 0 {
        right
    } else {
        -right
    };
    if left >= 0 {
        left % divisor
    } else {
        -((-left) % divisor)
    }
}

/// Quotient or remainder of two words of one type; division by zero gives zero.
pub open spec fn divide_bits(
    left: Seq<bool>,
    right: Seq<bool>,
    signed: bool,
    remainder: bool,
) -> Seq<bool> {
    if nat_of(right) == 0 {
        bits_of(0, left.len())
    } else if signed {
        bits_of(
            if remainder {
                trunc_rem(int_of(left), int_of(right))
            } else {
                trunc_div(int_of(left), int_of(right))
            },
            left.len(),
        )
    } else {
        bits_of(
            if remainder {
                nat_of(left) as int % nat_of(right) as int
            } else {
                nat_of(left) as int / nat_of(right) as int
            },
            left.len(),
        )
    }
}

/// The type in which two operands are compared.
pub open spec fn compare_type(left: WordType, right: WordType, result: WordType) -> WordType {
    WordType {
        width: if left.width >= right.width {
            left.width
        } else {
            right.width
        },
        signed: left.signed && right.signed,
        state: result.state,
    }
}

/// The order of two words of one type.
pub open spec fn less_than(left: Seq<bool>, right: Seq<bool>, signed: bool) -> bool {
    if signed {
        int_of(left) < int_of(right)
    } else {
        nat_of(left) < nat_of(right)
    }
}

/// A word moved towards its high end, filled with clear bits.
pub open spec fn shift_left(bits: Seq<bool>, amount: nat) -> Seq<bool> {
    Seq::new(
        bits.len(),
        |i: int|
            if i >= amount {
                bits[i - amount]
            } else {
                false
            },
    )
}

/// A word moved towards its low end, filled with `fill`.
pub open spec fn shift_right(bits: Seq<bool>, amount: nat, fill: bool) -> Seq<bool> {
    Seq::new(
        bits.len(),
        |i: int|
            if i + amount < bits.len() {
                bits[i + amount]
            } else {
                fill
            },
    )
}

pub open spec fn zip_bits(
    left: Seq<bool>,
    right: Seq<bool>,
    f: spec_fn(bool, bool) -> bool,
) -> Seq<bool> {
    Seq::new(left.len(), |i: int| f(left[i], right[i]))
}

pub open spec fn shift_bits(op: BinaryOp, value: Seq<bool>, amount: nat, signed: bool) -> Seq<bool> {
    match op {
        BinaryOp::Shl => shift_left(value, amount),
        BinaryOp::Ashr => shift_right(value, amount, signed && value.len() > 0 && value.last()),
        _ => shift_right(value, amount, false),
    }
}

pub open spec fn compare_bits(op: BinaryOp, left: Seq<bool>, right: Seq<bool>, signed: bool) -> bool {
    match op {
        BinaryOp::Lt => less_than(left, right, signed),
        BinaryOp::Le => !less_than(right, left, signed),
        BinaryOp::Gt => less_than(right, left, signed),
        _ => !less_than(left, right, signed),
    }
}

/// The meaning of a binary operator on two words and a result type.
pub open spec fn binary_bits(
    op: BinaryOp,
    left: Seq<bool>,
    left_ty: WordType,
    right: Seq<bool>,
    right_ty: WordType,
    ty: WordType,
) -> Seq<bool> {
    let l = resize_bits(left, left_ty, ty);
    let r = resize_bits(right, right_ty, ty);
    let compared = compare_type(left_ty, right_ty, ty);
    let cl = resize_bits(left, left_ty, compared);
    let cr = resize_bits(right, right_ty, compared);
    match op {
        BinaryOp::Add => bits_of((nat_of(l) + nat_of(r)) as int, ty.width as nat),
        BinaryOp::Sub => bits_of(nat_of(l) - nat_of(r), ty.width as nat),
        BinaryOp::Mul => bits_of((nat_of(l) * nat_of(r)) as int, ty.width as nat),
        BinaryOp::Div => divide_bits(l, r, ty.signed, false),
        BinaryOp::Mod => divide_bits(l, r, ty.signed, true),
        BinaryOp::BitAnd => zip_bits(l, r, |a: bool, b: bool| a && b),
        BinaryOp::BitOr => zip_bits(l, r, |a: bool, b: bool| a || b),
        BinaryOp::BitXor => zip_bits(l, r, |a: bool, b: bool| a != b),
        BinaryOp::LogicalAnd => seq![any_bit(left) && any_bit(right)],
        BinaryOp::LogicalOr => seq![any_bit(left) || any_bit(right)],
        BinaryOp::Eq => seq![cl == cr],
        BinaryOp::Ne => seq![cl != cr],
        BinaryOp::Lt | BinaryOp::Le | BinaryOp::Gt | BinaryOp::Ge => seq![
            compare_bits(op, cl, cr, compared.signed),
        ],
        BinaryOp::Shl | BinaryOp::Shr | BinaryOp::Ashr => shift_bits(
            op,
            l,
            nat_of(right),
            ty.signed,
        ),
    }
}

/// Parts of a concatenation, most significant first.
pub open spec fn concat_bits(parts: Seq<Seq<bool>>) -> Seq<bool>
    decreases parts.len(),
{
    if parts.len() == 0 {
        seq![]
    } else {
        concat_bits(parts.skip(1)) + parts[0]
    }
}

pub open spec fn extract_bits(bits: Seq<bool>, lsb: int, width: nat) -> Seq<bool> {
    Seq::new(width, |i: int| bits[lsb + i])
}

/// A run at a computed offset; a run that leaves the word is clear.
pub open spec fn dynamic_extract_bits(bits: Seq<bool>, offset: nat, width: nat) -> Seq<bool> {
    if offset + width <= bits.len() {
        extract_bits(bits, offset as int, width)
    } else {
        bits_of(0, width)
    }
}

/// A word with `replacement` written at `offset`; what falls outside is lost.
pub open spec fn dynamic_insert_bits(
    bits: Seq<bool>,
    offset: nat,
    replacement: Seq<bool>,
) -> Seq<bool> {
    Seq::new(
        bits.len(),
        |i: int|
            if offset <= i < offset + replacement.len() {
                replacement[i - offset]
            } else {
                bits[i]
            },
    )
}

pub open spec fn cast_bits(kind: CastKind, bits: Seq<bool>, target: WordType) -> Seq<bool> {
    Seq::new(
        target.width as nat,
        |i: int|
            if i < bits.len() {
                bits[i]
            } else {
                kind is SignExtend && bits.len() > 0 && bits.last()
            },
    )
}

/// The meaning of an operation, given the meaning of its operands.
pub open spec fn op_bits(
    module: ModuleView,
    env: Env,
    result: int,
    kind: OpView,
    ty: WordType,
    operand: spec_fn(ValueId) -> Seq<bool>,
) -> Seq<bool> {
    match kind {
        OpView::Unary { op, arg } => unary_bits(op, operand(arg)),
        OpView::Binary { op, left, right } => binary_bits(
            op,
            operand(left),
            module.ty(left),
            operand(right),
            module.ty(right),
            ty,
        ),
        OpView::Mux { cond, then_value, else_value } => if operand(cond)[0] {
            operand(then_value)
        } else {
            operand(else_value)
        },
        OpView::Concat { parts } => concat_bits(
            Seq::new(parts.len(), |i: int| operand(parts[i])),
        ),
        OpView::Extract { value, lsb, width } => extract_bits(
            operand(value),
            lsb as int,
            width as nat,
        ),
        OpView::DynamicExtract { value, offset, width } => dynamic_extract_bits(
            operand(value),
            nat_of(operand(offset)),
            width as nat,
        ),
        OpView::DynamicInsert { value, offset, replacement } => dynamic_insert_bits(
            operand(value),
            nat_of(operand(offset)),
            operand(replacement),
        ),
        OpView::TriState { data, enable } => tri_state_bits(
            operand(data),
            operand(enable.value)[0] == enable.active_high,
        ),
        OpView::Cast { kind: cast, value, target } => cast_bits(cast, operand(value), target),
        OpView::Register(_) | OpView::Latch(_) => Seq::new(
            ty.width as nat,
            |i: int| (env.state)(result, i),
        ),
    }
}

/// What a driver puts on its net: its data where it is enabled, and nothing, told as
/// zeros, where it is not.
pub open spec fn tri_state_bits(data: Seq<bool>, enabled: bool) -> Seq<bool> {
    if enabled {
        data
    } else {
        Seq::new(data.len(), |i: int| false)
    }
}

pub open spec fn constant_value(bits: Seq<BitVal>, env: Env, value: int) -> Seq<bool> {
    Seq::new(
        bits.len(),
        |i: int|
            match bit_lsb(bits, i) {
                BitVal::Zero => false,
                BitVal::One => true,
                _ => (env.unknown)(value, i),
            },
    )
}

/// The word that a value stands for, least significant bit first.
pub open spec fn eval(module: ModuleView, env: Env, value: int) -> Seq<bool>
    decreases value, 1int,
{
    if 0 <= value < module.values.len() {
        match module.values[value].kind {
            KindView::Signal(reference) => Seq::new(
                reference.width as nat,
                |i: int| (env.signal)(reference.signal.raw as int, reference.lsb + i),
            ),
            KindView::Constant(bits) => constant_value(bits, env, value),
            KindView::Operation(operation) => op_bits(
                module,
                env,
                value,
                module.operations[operation.raw as int].kind,
                module.values[value].ty,
                words_below(module, env, value),
            ),
        }
    } else {
        seq![]
    }
}

/// The words of the values that precede `bound`.
pub open spec fn words_below(module: ModuleView, env: Env, bound: int) -> spec_fn(
    ValueId,
) -> Seq<bool>
    decreases bound, 0int,
{
    |operand: ValueId|
        if operand.raw < bound {
            eval(module, env, operand.raw as int)
        } else {
            seq![]
        }
}

/// The word of a value identifier.
pub open spec fn word_of(module: ModuleView, env: Env, value: ValueId) -> Seq<bool> {
    eval(module, env, value.raw as int)
}

/// Two operations mean the same if they agree on their operands.
pub proof fn lemma_op_bits_agree(
    before: ModuleView,
    after: ModuleView,
    env: Env,
    result: int,
    kind: OpView,
    ty: WordType,
    f: spec_fn(ValueId) -> Seq<bool>,
    g: spec_fn(ValueId) -> Seq<bool>,
)
    requires
        forall|i: int|
            0 <= i < op_inputs(kind).len() ==> f(#[trigger] op_inputs(kind)[i]) == g(
                op_inputs(kind)[i],
            ) && before.ty(op_inputs(kind)[i]) == after.ty(op_inputs(kind)[i]),
    ensures
        op_bits(before, env, result, kind, ty, f) == op_bits(after, env, result, kind, ty, g),
{
    let inputs = op_inputs(kind);
    match kind {
        OpView::Unary { op, arg } => {
            assert(inputs[0] == arg);
        },
        OpView::Binary { op, left, right } => {
            assert(inputs[0] == left && inputs[1] == right);
        },
        OpView::Mux { cond, then_value, else_value } => {
            assert(inputs[0] == cond && inputs[1] == then_value && inputs[2] == else_value);
        },
        OpView::Concat { parts } => {
            assert(inputs == parts);
            assert(Seq::new(parts.len(), |i: int| f(parts[i])) =~= Seq::new(
                parts.len(),
                |i: int| g(parts[i]),
            ));
        },
        OpView::Extract { value, lsb, width } => {
            assert(inputs[0] == value);
        },
        OpView::DynamicExtract { value, offset, width } => {
            assert(inputs[0] == value && inputs[1] == offset);
        },
        OpView::DynamicInsert { value, offset, replacement } => {
            assert(inputs[0] == value && inputs[1] == offset && inputs[2] == replacement);
        },
        OpView::TriState { data, enable } => {
            assert(inputs[0] == data && inputs[1] == enable.value);
        },
        OpView::Cast { kind: cast, value, target } => {
            assert(inputs[0] == value);
        },
        OpView::Register(_) | OpView::Latch(_) => {},
    }
}

/// Appending to a module leaves the meaning of its values alone.
pub proof fn lemma_eval_grows(before: ModuleView, after: ModuleView, env: Env, value: int)
    requires
        before.wf(),
        before.values.len() <= after.values.len(),
        before.operations.len() <= after.operations.len(),
        forall|i: int|
            0 <= i < before.values.len() ==> #[trigger] after.values[i] == before.values[i],
        forall|i: int|
            0 <= i < before.operations.len() ==> #[trigger] after.operations[i]
                == before.operations[i],
        0 <= value < before.values.len(),
    ensures
        eval(after, env, value) == eval(before, env, value),
    decreases value,
{
    assert(before.value_ok(value));
    assert(after.values[value] == before.values[value]);
    if let KindView::Operation(operation) = before.values[value].kind {
        assert(before.operation_ok(operation.raw as int));
        assert(after.operations[operation.raw as int] == before.operations[operation.raw as int]);
        let kind = before.operations[operation.raw as int].kind;
        let inputs = op_inputs(kind);
        let f = words_below(before, env, value);
        let g = words_below(after, env, value);
        assert forall|i: int| 0 <= i < inputs.len() implies f(#[trigger] inputs[i]) == g(inputs[i])
            && before.ty(inputs[i]) == after.ty(inputs[i]) by {
            assert(inputs[i].raw < value);
            lemma_eval_grows(before, after, env, inputs[i].raw as int);
        }
        lemma_op_bits_agree(
            before,
            after,
            env,
            value,
            kind,
            before.values[value].ty,
            f,
            g,
        );
    }
}

/// Every value of a well-formed module stands for a word of its type's width.
pub proof fn lemma_eval_width(module: ModuleView, env: Env, value: int)
    requires
        module.wf(),
        0 <= value < module.values.len(),
    ensures
        eval(module, env, value).len() == module.values[value].ty.width,
    decreases value,
{
    assert(module.value_ok(value));
    if let KindView::Operation(operation) = module.values[value].kind {
        assert(module.operation_ok(operation.raw as int));
        let kind = module.operations[operation.raw as int].kind;
        let ty = module.values[value].ty;
        let inputs = op_inputs(kind);
        let f = words_below(module, env, value);
        assert forall|i: int| 0 <= i < inputs.len() implies f(#[trigger] inputs[i]).len()
            == module.ty(inputs[i]).width by {
            assert(inputs[i].raw < value);
            lemma_eval_width(module, env, inputs[i].raw as int);
        }
        match kind {
            OpView::Unary { op, arg } => {
                assert(inputs[0] == arg);
            },
            OpView::Mux { cond, then_value, else_value } => {
                assert(inputs[1] == then_value && inputs[2] == else_value);
            },
            OpView::Concat { parts } => {
                assert(inputs == parts);
                let words = Seq::new(parts.len(), |i: int| f(parts[i]));
                assert forall|i: int| 0 <= i < parts.len() implies (#[trigger] words[i]).len()
                    == module.ty(parts[i]).width by {
                    assert(words[i] == f(inputs[i]));
                }
                lemma_concat_width(module, parts, words);
            },
            OpView::DynamicInsert { value: word, offset, replacement } => {
                assert(inputs[0] == word);
            },
            OpView::TriState { data, enable } => {
                assert(inputs[0] == data);
            },
            _ => {},
        }
    }
}

pub proof fn lemma_concat_width(module: ModuleView, parts: Seq<ValueId>, words: Seq<Seq<bool>>)
    requires
        words.len() == parts.len(),
        forall|i: int|
            0 <= i < parts.len() ==> (#[trigger] words[i]).len() == module.ty(parts[i]).width,
    ensures
        concat_bits(words).len() == super::module::parts_width(module, parts),
    decreases parts.len(),
{
    if parts.len() > 0 {
        assert forall|i: int| 0 <= i < parts.skip(1).len() implies (
        #[trigger] words.skip(1)[i]).len() == module.ty(parts.skip(1)[i]).width by {
            assert(words[i + 1].len() == module.ty(parts[i + 1]).width);
        }
        lemma_concat_width(module, parts.skip(1), words.skip(1));
        lemma_parts_width_first(module, parts);
        assert(words[0].len() == module.ty(parts[0]).width);
    }
}

pub proof fn lemma_parts_width_first(module: ModuleView, parts: Seq<ValueId>)
    requires
        parts.len() > 0,
    ensures
        super::module::parts_width(module, parts) == module.ty(parts[0]).width
            + super::module::parts_width(module, parts.skip(1)),
    decreases parts.len(),
{
    if parts.len() == 1 {
        assert(parts.skip(1).len() == 0);
        assert(parts.drop_last().len() == 0);
        assert(super::module::parts_width(module, parts.drop_last()) == 0);
    } else {
        lemma_parts_width_first(module, parts.drop_last());
        assert(parts.drop_last().skip(1) =~= parts.skip(1).drop_last());
        assert(parts.drop_last()[0] == parts[0]);
        assert(parts.skip(1).last() == parts.last());
    }
}

/// The word of an operation's result in terms of its operands' words.
pub open spec fn result_bits(module: ModuleView, env: Env, result: int, kind: OpView, ty: WordType)
    -> Seq<bool> {
    op_bits(module, env, result, kind, ty, |operand: ValueId| word_of(module, env, operand))
}

/// A defined value stands for its operation applied to the operands' words.
pub proof fn lemma_eval_operation(module: ModuleView, env: Env, value: int)
    requires
        module.wf(),
        0 <= value < module.values.len(),
        module.values[value].kind is Operation,
    ensures
        eval(module, env, value) == result_bits(
            module,
            env,
            value,
            module.operations[module.values[value].kind->Operation_0.raw as int].kind,
            module.values[value].ty,
        ),
{
    assert(module.value_ok(value));
    let operation = module.values[value].kind->Operation_0;
    assert(module.operation_ok(operation.raw as int));
    let kind = module.operations[operation.raw as int].kind;
    let inputs = op_inputs(kind);
    let f = words_below(module, env, value);
    let g = |operand: ValueId| word_of(module, env, operand);
    assert forall|i: int| 0 <= i < inputs.len() implies f(#[trigger] inputs[i]) == g(inputs[i])
        && module.ty(inputs[i]) == module.ty(inputs[i]) by {
        assert(inputs[i].raw < value);
    }
    lemma_op_bits_agree(module, module, env, value, kind, module.values[value].ty, f, g);
}

/// The word of an operation that was just appended.
pub proof fn lemma_eval_pushed(
    before: ModuleView,
    env: Env,
    kind: OpView,
    ty: WordType,
    source: SourceSpan,
)
    requires
        before.wf(),
        !before.full(),
        ty.width >= 1,
        before.inputs_below(kind, before.values.len() as int),
        before.op_typed(kind, ty),
    ensures
        word_of(before.push_operation(kind, ty, source), env, before.next_value()) == result_bits(
            before,
            env,
            before.values.len() as int,
            kind,
            ty,
        ),
{
    let after = before.push_operation(kind, ty, source);
    super::module::lemma_push_operation(before, kind, ty, source);
    let value = before.values.len() as int;
    lemma_eval_operation(after, env, value);
    let f = |operand: ValueId| word_of(after, env, operand);
    let g = |operand: ValueId| word_of(before, env, operand);
    let inputs = op_inputs(kind);
    assert forall|i: int| 0 <= i < inputs.len() implies f(#[trigger] inputs[i]) == g(inputs[i])
        && after.ty(inputs[i]) == before.ty(inputs[i]) by {
        lemma_eval_grows(before, after, env, inputs[i].raw as int);
    }
    lemma_op_bits_agree(after, before, env, value, kind, ty, f, g);
}

} // verus!
