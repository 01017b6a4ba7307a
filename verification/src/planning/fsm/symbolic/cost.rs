//! How many nodes the encodings of words take at most.

use super::arithmetic::{division_cost, product_cost, shift_cost};
use super::selection::{extract_cost, insert_cost};
use crate::logic::Lit;
use crate::word::module::{KindView, ModuleView};
use crate::word::semantics::compare_type;
use crate::word::types::{BinaryOp, OpView, RegisterView, SignalId, ValueId, WordType};
use vstd::prelude::*;

verus! {

/// The width of a value.
pub open spec fn width_of(module: ModuleView, value: ValueId) -> nat {
    module.ty(value).width as nat
}

/// The most nodes that an operation takes on top of its operands.
pub open spec fn operation_cost(module: ModuleView, kind: OpView, ty: WordType) -> nat {
    let width = ty.width as nat;
    match kind {
        OpView::Unary { op, arg } => 3 * width_of(module, arg),
        OpView::Binary { op, left, right } => match op {
            BinaryOp::Add | BinaryOp::Sub => 9 * width,
            BinaryOp::Mul => product_cost(width),
            BinaryOp::Div | BinaryOp::Mod => division_cost(width),
            BinaryOp::Lt | BinaryOp::Le | BinaryOp::Gt | BinaryOp::Ge => 7 * compare_type(
                module.ty(left),
                module.ty(right),
                ty,
            ).width as nat + 7,
            BinaryOp::Eq | BinaryOp::Ne => 4 * compare_type(
                module.ty(left),
                module.ty(right),
                ty,
            ).width as nat,
            BinaryOp::Shl | BinaryOp::Shr | BinaryOp::Ashr => shift_cost(
                width,
                width_of(module, right),
            ),
            BinaryOp::BitAnd | BinaryOp::BitOr | BinaryOp::BitXor => 3 * width,
            BinaryOp::LogicalAnd | BinaryOp::LogicalOr => width_of(module, left) + width_of(
                module,
                right,
            ) + 1,
        },
        OpView::Mux { cond, then_value, else_value } => 3 * width,
        OpView::DynamicExtract { value, offset, width: taken } => extract_cost(
            width_of(module, value),
            width_of(module, offset),
            taken as nat,
        ),
        OpView::DynamicInsert { value, offset, replacement } => insert_cost(
            width_of(module, value),
            width_of(module, offset),
        ),
        _ => 0,
    }
}

/// The most nodes that a value takes on top of what it depends on.
pub open spec fn value_cost(module: ModuleView, value: int) -> nat {
    match module.values[value].kind {
        KindView::Signal(reference) => reference.width as nat,
        KindView::Constant(_) => 0,
        KindView::Operation(operation) => operation_cost(
            module,
            module.operations[operation.raw as int].kind,
            module.values[value].ty,
        ),
    }
}

/// The most nodes that the values take that are not encoded yet, among the first.
pub open spec fn outstanding(module: ModuleView, rows: Seq<Option<Vec<Lit>>>, count: nat) -> nat
    decreases count,
{
    if count == 0 {
        0
    } else {
        outstanding(module, rows, (count - 1) as nat) + (if rows[count - 1] is None {
            value_cost(module, count - 1)
        } else {
            0
        })
    }
}

/// The most nodes that all values of a module take.
pub open spec fn module_cost(module: ModuleView, count: nat) -> nat
    decreases count,
{
    if count == 0 {
        0
    } else {
        module_cost(module, (count - 1) as nat) + value_cost(module, count - 1)
    }
}

/// The most nodes that a register's next word takes on top of what it reads.
pub open spec fn register_cost(module: ModuleView, register: RegisterView, signal: SignalId) -> nat {
    let width = module.signals[signal.raw as int].ty.width as nat;
    width + 3 * width + register.resets.len() * (3 * width)
}

/// The most nodes that the behaviour of a register in a number of states takes.
pub open spec fn behavior_cost(
    module: ModuleView,
    register: RegisterView,
    signal: SignalId,
    states: nat,
) -> nat {
    let width = module.signals[signal.raw as int].ty.width as nat;
    states * (module_cost(module, module.values.len()) + register_cost(module, register, signal))
        + states * (states * width)
}

/// The most nodes that putting a number of states into classes takes: as many rounds
/// as there are states, and in each a row per state.
pub open spec fn refinement_cost(module: ModuleView, signal: SignalId, states: nat) -> nat {
    let width = module.signals[signal.raw as int].ty.width as nat;
    states * (states * (states * (width + 192)))
}

/// Nothing is encoded yet.
pub proof fn lemma_outstanding_all(module: ModuleView, rows: Seq<Option<Vec<Lit>>>, count: nat)
    requires
        count <= rows.len(),
        forall|v: int| 0 <= v < rows.len() ==> (#[trigger] rows[v]) is None,
    ensures
        outstanding(module, rows, count) == module_cost(module, count),
    decreases count,
{
    if count > 0 {
        lemma_outstanding_all(module, rows, (count - 1) as nat);
        assert(rows[count - 1] is None);
    }
}

/// What is not encoded yet is still to be paid for.
pub proof fn lemma_outstanding_holds(
    module: ModuleView,
    rows: Seq<Option<Vec<Lit>>>,
    value: int,
    count: nat,
)
    requires
        0 <= value < count <= rows.len(),
        rows[value] is None,
    ensures
        outstanding(module, rows, count) >= value_cost(module, value),
    decreases count,
{
    if value < count - 1 {
        lemma_outstanding_holds(module, rows, value, (count - 1) as nat);
    }
}

/// One more value is encoded.
pub proof fn lemma_outstanding_less(
    module: ModuleView,
    before: Seq<Option<Vec<Lit>>>,
    after: Seq<Option<Vec<Lit>>>,
    value: int,
    count: nat,
)
    requires
        before.len() == after.len(),
        count <= before.len(),
        0 <= value < before.len(),
        before[value] is None,
        after[value] is Some,
        forall|x: int| 0 <= x < before.len() && x != value ==> #[trigger] after[x] == before[x],
    ensures
        outstanding(module, before, count) == outstanding(module, after, count) + (if value
            < count {
            value_cost(module, value)
        } else {
            0
        }),
    decreases count,
{
    if count > 0 {
        lemma_outstanding_less(module, before, after, value, (count - 1) as nat);
        if count - 1 != value {
            assert(after[count - 1] == before[count - 1]);
        }
    }
}

} // verus!
