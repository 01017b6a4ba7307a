//! Finding values that compute the same.

use super::folding::{constant_bit, constant_of, known_bit};
use super::keys::{
    key_row, key_rows_are_faithful, finish_row, number_of_binary, number_of_cast, number_of_unary,
    push_bits, push_type, push_values, start_row, ValueKey,
};
use crate::collections::KeyMap;
use crate::word::bits::any_bit;
use crate::word::drivers::driven;
use crate::word::module::{binary_type, unary_type, KindView, ModuleView, ValueKind, WordModule};
use crate::word::semantics::{
    binary_bits, cast_bits, concat_bits, constant_value, extract_bits, lemma_eval_operation,
    lemma_eval_width, resize_bits, result_bits, unary_bits, word_of, zip_bits, Env,
};
use crate::word::types::{
    bit_lsb, op_inputs, BinaryOp, BitVal, LogicStateKind, OpKind, OpView, UnaryOp, ValueId,
    WordType,
};
use vstd::prelude::*;

verus! {

/// The value that stands for a value.
pub open spec fn mapped(canonical: Seq<ValueId>, value: ValueId) -> ValueId {
    canonical[value.raw as int]
}

/// The operand of a unary operation of a kind.
pub open spec fn unary_arg(module: ModuleView, value: ValueId, expected: UnaryOp) -> Option<ValueId> {
    match module.op_of(value) {
        Some(OpView::Unary { op, arg }) => if op == expected {
            Some(arg)
        } else {
            None
        },
        _ => None,
    }
}

pub open spec fn is_commutative(op: BinaryOp) -> bool {
    op is Add || op is Mul || op is BitAnd || op is BitOr || op is BitXor || op is LogicalAnd
        || op is LogicalOr || op is Eq || op is Ne
}

/// The operands of a binary operation, the smaller first where that is free.
pub open spec fn operand_pair(
    canonical: Seq<ValueId>,
    op: BinaryOp,
    left: ValueId,
    right: ValueId,
) -> (ValueId, ValueId) {
    let l = mapped(canonical, left);
    let r = mapped(canonical, right);
    if is_commutative(op) && r.raw < l.raw {
        (r, l)
    } else {
        (l, r)
    }
}

pub open spec fn is_zero_constant(module: ModuleView, value: ValueId) -> bool {
    match constant_of(module, value) {
        Some(bits) => forall|i: int| 0 <= i < bits.len() ==> (#[trigger] bits[i]) is Zero,
        None => false,
    }
}

/// One value is the logical inverse of the other.
pub open spec fn complements(
    module: ModuleView,
    canonical: Seq<ValueId>,
    left: ValueId,
    right: ValueId,
) -> bool {
    ||| unary_arg(module, left, UnaryOp::LogicalNot) matches Some(inner) && mapped(canonical, inner)
        == right
    ||| unary_arg(module, right, UnaryOp::LogicalNot) matches Some(inner) && mapped(
        canonical,
        inner,
    ) == left
}

/// The value that already stands for a constant of one bit.
pub open spec fn interned_bit(interned: Map<Seq<u64>, u64>, value: bool, ty: WordType) -> Option<
    ValueId,
> {
    let row = key_row(
        0,
        ValueKey::Constant(
            seq![
                if value {
                    BitVal::One
                } else {
                    BitVal::Zero
                },
            ],
            ty,
        ),
    );
    if interned.dom().contains(row) {
        Some(ValueId { raw: interned[row] as u32 })
    } else {
        None
    }
}

pub open spec fn if_typed(module: ModuleView, value: ValueId, ty: WordType) -> Option<ValueId> {
    if module.ty(value) == ty {
        Some(value)
    } else {
        None
    }
}

/// What a conjunction or disjunction of single bits comes down to.
pub open spec fn boolean_alias(
    module: ModuleView,
    op: BinaryOp,
    left: ValueId,
    right: ValueId,
    ty: WordType,
    canonical: Seq<ValueId>,
    interned: Map<Seq<u64>, u64>,
) -> Option<ValueId> {
    let deciding = if op is BitAnd || op is LogicalAnd {
        Some(false)
    } else if op is BitOr || op is LogicalOr {
        Some(true)
    } else {
        None
    };
    match deciding {
        Some(bit) => if known_bit(module, left) == Some(bit) {
            if_typed(module, left, ty)
        } else if known_bit(module, right) == Some(bit) {
            if_typed(module, right, ty)
        } else if known_bit(module, left) == Some(!bit) {
            if_typed(module, right, ty)
        } else if known_bit(module, right) == Some(!bit) {
            if_typed(module, left, ty)
        } else if complements(module, canonical, left, right) {
            interned_bit(interned, bit, ty)
        } else {
            None
        },
        None => None,
    }
}

/// The value that an operation comes down to, if it comes down to one.
pub open spec fn operation_alias(
    module: ModuleView,
    kind: OpView,
    ty: WordType,
    canonical: Seq<ValueId>,
    interned: Map<Seq<u64>, u64>,
) -> Option<ValueId> {
    match kind {
        OpView::Unary { op, arg } => match unary_arg(
            module,
            mapped(canonical, arg),
            UnaryOp::BitNot,
        ) {
            Some(inner) => if op is BitNot && ty.state is TwoState {
                Some(mapped(canonical, inner))
            } else {
                None
            },
            None => None,
        },
        OpView::Binary { op, left, right } => {
            let (l, r) = operand_pair(canonical, op, left, right);
            match boolean_alias(module, op, l, r, ty, canonical, interned) {
                Some(alias) => Some(alias),
                None => if (l == r && (op is BitAnd || op is BitOr)) || ((op is Shl || op is Shr
                    || op is Ashr) && is_zero_constant(module, r) && module.ty(l) == ty) {
                    Some(l)
                } else {
                    None
                },
            }
        },
        OpView::Mux { cond, then_value, else_value } => {
            let c = mapped(canonical, cond);
            let t = mapped(canonical, then_value);
            let e = mapped(canonical, else_value);
            let inner = unary_arg(module, c, UnaryOp::LogicalNot);
            if t == e {
                Some(t)
            } else if known_bit(module, t) == Some(true) && known_bit(module, e) == Some(false)
                && module.ty(c) == ty {
                Some(c)
            } else if known_bit(module, t) == Some(false) && known_bit(module, e) == Some(true)
                && inner is Some {
                if_typed(module, mapped(canonical, inner->0), ty)
            } else {
                match known_bit(module, c) {
                    Some(false) => Some(e),
                    Some(true) => Some(t),
                    None => None,
                }
            }
        },
        OpView::Concat { parts } => if parts.len() == 1 {
            if_typed(module, mapped(canonical, parts[0]), ty)
        } else {
            None
        },
        OpView::Extract { value, lsb, width } => if lsb == 0 {
            if_typed(module, mapped(canonical, value), ty)
        } else {
            None
        },
        OpView::Cast { kind: cast, value, target } => if_typed(
            module,
            mapped(canonical, value),
            target,
        ),
        _ => None,
    }
}

/// The structure of an operation; sums, differences, products and stored
/// states have none, so that they stay apart.
pub open spec fn operation_key(kind: OpView, ty: WordType, canonical: Seq<ValueId>) -> Option<
    ValueKey,
> {
    match kind {
        OpView::Unary { op, arg } => Some(ValueKey::Unary(op, mapped(canonical, arg), ty)),
        OpView::Binary { op, left, right } => if op is Add || op is Sub || op is Mul {
            None
        } else {
            let (l, r) = operand_pair(canonical, op, left, right);
            Some(ValueKey::Binary(op, l, r, ty))
        },
        OpView::Mux { cond, then_value, else_value } => Some(
            ValueKey::Mux(
                mapped(canonical, cond),
                mapped(canonical, then_value),
                mapped(canonical, else_value),
                ty,
            ),
        ),
        OpView::Concat { parts } => Some(
            ValueKey::Concat(parts.map_values(|part: ValueId| mapped(canonical, part)), ty),
        ),
        OpView::Extract { value, lsb, width } => Some(
            ValueKey::Extract(mapped(canonical, value), lsb, width, ty),
        ),
        OpView::DynamicExtract { value, offset, width } => Some(
            ValueKey::DynamicExtract(mapped(canonical, value), mapped(canonical, offset), width, ty),
        ),
        OpView::DynamicInsert { value, offset, replacement } => Some(
            ValueKey::DynamicInsert(
                mapped(canonical, value),
                mapped(canonical, offset),
                mapped(canonical, replacement),
                ty,
            ),
        ),
        OpView::Cast { kind: cast, value, target } => Some(
            ValueKey::Cast(cast, mapped(canonical, value), target, ty),
        ),
        OpView::TriState { .. } | OpView::Register(_) | OpView::Latch(_) => None,
    }
}

/// What is found out about an operation.
pub enum AliasOrKey {
    Alias(ValueId),
    Key(Vec<u64>),
    Unique,
}

pub open spec fn finds(
    module: ModuleView,
    kind: OpView,
    ty: WordType,
    canonical: Seq<ValueId>,
    scope: u64,
    interned: Map<Seq<u64>, u64>,
    found: AliasOrKey,
) -> bool {
    match operation_alias(module, kind, ty, canonical, interned) {
        Some(alias) => found == AliasOrKey::Alias(alias),
        None => match operation_key(kind, ty, canonical) {
            Some(key) => found matches AliasOrKey::Key(row) && row@ == key_row(scope, key),
            None => found is Unique,
        },
    }
}

/// A map into a module.
pub open spec fn map_ok(module: ModuleView, canonical: Seq<ValueId>) -> bool {
    &&& canonical.len() == module.values.len()
    &&& forall|v: int| 0 <= v < canonical.len() ==> module.has(#[trigger] canonical[v])
}

/// Interned values exist.
pub open spec fn table_ok(module: ModuleView, interned: Map<Seq<u64>, u64>) -> bool {
    forall|row: Seq<u64>| #[trigger]
        interned.dom().contains(row) ==> interned[row] < module.values.len()
}

fn unary_input(module: &WordModule, value: ValueId, expected: UnaryOp) -> (arg: Option<ValueId>)
    requires
        module@.wf(),
        module@.has(value),
    ensures
        arg == unary_arg(module@, value, expected),
        arg matches Some(inner) ==> module@.has(inner),
{
    let stored = &module.values[value.raw as usize];
    assert(stored@ == module@.values[value.raw as int]);
    assert(module@.value_ok(value.raw as int));
    match &stored.kind {
        ValueKind::Operation(operation) => {
            let kind = &module.operations[operation.raw as usize].kind;
            assert(kind@ == module@.operations[operation.raw as int].kind);
            assert(module@.operation_ok(operation.raw as int));
            match kind {
                OpKind::Unary { op, arg } => {
                    assert(op_inputs(kind@)[0] == *arg);
                    if *op == expected {
                        Some(*arg)
                    } else {
                        None
                    }
                },
                _ => None,
            }
        },
        _ => None,
    }
}

fn binary_is_commutative(op: BinaryOp) -> (commutes: bool)
    ensures
        commutes == is_commutative(op),
{
    match op {
        BinaryOp::Add
        | BinaryOp::Mul
        | BinaryOp::BitAnd
        | BinaryOp::BitOr
        | BinaryOp::BitXor
        | BinaryOp::LogicalAnd
        | BinaryOp::LogicalOr
        | BinaryOp::Eq
        | BinaryOp::Ne => true,
        _ => false,
    }
}

fn constant_is_zero(module: &WordModule, value: ValueId) -> (zero: bool)
    requires
        module@.has(value),
    ensures
        zero == is_zero_constant(module@, value),
{
    let stored = &module.values[value.raw as usize];
    assert(stored@ == module@.values[value.raw as int]);
    match &stored.kind {
        ValueKind::Constant(bits) => {
            let mut i: usize = 0;
            while i < bits.bits.len()
                invariant
                    i <= bits@.len(),
                    constant_of(module@, value) == Some(bits@),
                    forall|j: int| 0 <= j < i ==> (#[trigger] bits@[j]) is Zero,
                decreases bits.bits.len() - i,
            {
                match bits.bits[i] {
                    BitVal::Zero => {},
                    _ => {
                        assert(!(bits@[i as int] is Zero));
                        return false;
                    },
                }
                i += 1;
            }
            true
        },
        _ => false,
    }
}

fn logical_complements(
    module: &WordModule,
    left: ValueId,
    right: ValueId,
    canonical: &Vec<ValueId>,
) -> (inverse: bool)
    requires
        module@.wf(),
        module@.has(left),
        module@.has(right),
        canonical@.len() == module@.values.len(),
    ensures
        inverse == complements(module@, canonical@, left, right),
{
    if let Some(inner) = unary_input(module, left, UnaryOp::LogicalNot) {
        if canonical[inner.raw as usize] == right {
            return true;
        }
    }
    if let Some(inner) = unary_input(module, right, UnaryOp::LogicalNot) {
        if canonical[inner.raw as usize] == left {
            return true;
        }
    }
    false
}

fn interned_boolean(interned: &KeyMap, value: bool, ty: WordType) -> (found: Option<ValueId>)
    requires
        forall|row: Seq<u64>| #[trigger]
            interned@.dom().contains(row) ==> interned@[row] <= u32::MAX,
    ensures
        found == interned_bit(interned@, value, ty),
{
    let bit: BitVal = if value {
        BitVal::One
    } else {
        BitVal::Zero
    };
    let mut bits: Vec<BitVal> = Vec::new();
    bits.push(bit);
    let mut row = start_row(0, 1, ty);
    push_bits(&mut row, &bits);
    assert(bits@ =~= seq![bit]);
    assert(row@ =~= key_row(0, ValueKey::Constant(seq![bit], ty)));
    match interned.get(&row) {
        Some(item) => {
            assert(interned@.dom().contains(row@));
            Some(ValueId { raw: item as u32 })
        },
        None => None,
    }
}

fn alias_if_typed(module: &WordModule, value: ValueId, ty: WordType) -> (alias: Option<ValueId>)
    requires
        module@.has(value),
    ensures
        alias == if_typed(module@, value, ty),
{
    assert(module.values@[value.raw as int].ty == module@.ty(value));
    if module.values[value.raw as usize].ty == ty {
        Some(value)
    } else {
        None
    }
}

fn boolean_binary_alias(
    module: &WordModule,
    op: BinaryOp,
    left: ValueId,
    right: ValueId,
    result_ty: WordType,
    canonical: &Vec<ValueId>,
    interned: &KeyMap,
) -> (alias: Option<ValueId>)
    requires
        module@.wf(),
        module@.has(left),
        module@.has(right),
        canonical@.len() == module@.values.len(),
        table_ok(module@, interned@),
    ensures
        alias == boolean_alias(
            module@,
            op,
            left,
            right,
            result_ty,
            canonical@,
            interned@,
        ),
{
    let deciding: bool = match op {
        BinaryOp::BitAnd | BinaryOp::LogicalAnd => false,
        BinaryOp::BitOr | BinaryOp::LogicalOr => true,
        _ => return None,
    };
    let left_bit = constant_bit(module, left);
    let right_bit = constant_bit(module, right);
    if let Some(bit) = left_bit {
        if bit == deciding {
            return alias_if_typed(module, left, result_ty);
        }
    }
    if let Some(bit) = right_bit {
        if bit == deciding {
            return alias_if_typed(module, right, result_ty);
        }
    }
    if left_bit.is_some() {
        return alias_if_typed(module, right, result_ty);
    }
    if right_bit.is_some() {
        return alias_if_typed(module, left, result_ty);
    }
    if logical_complements(module, left, right, canonical) {
        return interned_boolean(interned, deciding, result_ty);
    }
    None
}

/// What an operation over canonical operands comes down to.
#[verifier::rlimit(60)]
pub fn canonical_operation(
    module: &WordModule,
    kind: &OpKind,
    result_ty: WordType,
    canonical: &Vec<ValueId>,
    scope: u64,
    interned: &KeyMap,
) -> (found: AliasOrKey)
    requires
        module@.wf(),
        module@.inputs_below(kind@, module@.values.len() as int),
        map_ok(module@, canonical@),
        table_ok(module@, interned@),
    ensures
        finds(module@, kind@, result_ty, canonical@, scope, interned@, found),
{
    let ghost view = module@;
    let ghost inputs = op_inputs(kind@);
    match kind {
        OpKind::Unary { op, arg } => {
            assert(inputs[0] == *arg);
            let arg = canonical[arg.raw as usize];
            assert(view.has(canonical@[inputs[0].raw as int]));
            let double: bool = match op {
                UnaryOp::BitNot => match result_ty.state {
                    LogicStateKind::TwoState => true,
                    LogicStateKind::FourState => false,
                },
                _ => false,
            };
            if double {
                if let Some(inner) = unary_input(module, arg, UnaryOp::BitNot) {
                    return AliasOrKey::Alias(canonical[inner.raw as usize]);
                }
            }
            let mut row = start_row(scope, 2, result_ty);
            row.push(number_of_unary(*op));
            row.push(arg.raw as u64);
            assert(row@ =~= key_row(scope, ValueKey::Unary(*op, arg, result_ty)));
            AliasOrKey::Key(row)
        },
        OpKind::Binary { op, left, right } => {
            assert(inputs[0] == *left && inputs[1] == *right);
            assert(view.has(canonical@[inputs[0].raw as int]));
            assert(view.has(canonical@[inputs[1].raw as int]));
            let first = canonical[left.raw as usize];
            let second = canonical[right.raw as usize];
            let (left, right) = if binary_is_commutative(*op) && second.raw < first.raw {
                (second, first)
            } else {
                (first, second)
            };
            if let Some(alias) = boolean_binary_alias(
                module,
                *op,
                left,
                right,
                result_ty,
                canonical,
                interned,
            ) {
                return AliasOrKey::Alias(alias);
            }
            let idempotent: bool = left == right && match op {
                BinaryOp::BitAnd | BinaryOp::BitOr => true,
                _ => false,
            };
            let shifts: bool = match op {
                BinaryOp::Shl | BinaryOp::Shr | BinaryOp::Ashr => true,
                _ => false,
            };
            assert(module.values@[left.raw as int].ty == view.ty(left));
            if idempotent || (shifts && constant_is_zero(module, right)
                && module.values[left.raw as usize].ty == result_ty) {
                return AliasOrKey::Alias(left);
            }
            match op {
                BinaryOp::Add | BinaryOp::Sub | BinaryOp::Mul => AliasOrKey::Unique,
                _ => {
                    let row = finish_row(
                        start_row(scope, 3, result_ty),
                        number_of_binary(*op),
                        left.raw as u64,
                        right.raw as u64,
                    );
                    assert(row@ =~= key_row(scope, ValueKey::Binary(*op, left, right, result_ty)));
                    AliasOrKey::Key(row)
                },
            }
        },
        OpKind::Mux { cond, then_value, else_value } => {
            assert(inputs[0] == *cond && inputs[1] == *then_value && inputs[2] == *else_value);
            assert(view.has(canonical@[inputs[0].raw as int]));
            assert(view.has(canonical@[inputs[1].raw as int]));
            assert(view.has(canonical@[inputs[2].raw as int]));
            let cond = canonical[cond.raw as usize];
            let then_value = canonical[then_value.raw as usize];
            let else_value = canonical[else_value.raw as usize];
            if then_value == else_value {
                return AliasOrKey::Alias(then_value);
            }
            let then_bit = constant_bit(module, then_value);
            let else_bit = constant_bit(module, else_value);
            let row = finish_row(
                start_row(scope, 4, result_ty),
                cond.raw as u64,
                then_value.raw as u64,
                else_value.raw as u64,
            );
            let ghost key = ValueKey::Mux(cond, then_value, else_value, result_ty);
            assert(row@ =~= key_row(scope, key));
            match (then_bit, else_bit) {
                (Some(true), Some(false)) => {
                    assert(module.values@[cond.raw as int].ty == view.ty(cond));
                    if module.values[cond.raw as usize].ty == result_ty {
                        return AliasOrKey::Alias(cond);
                    }
                },
                (Some(false), Some(true)) => {
                    if let Some(inner) = unary_input(module, cond, UnaryOp::LogicalNot) {
                        let inner = canonical[inner.raw as usize];
                        return match alias_if_typed(module, inner, result_ty) {
                            Some(alias) => AliasOrKey::Alias(alias),
                            None => AliasOrKey::Key(row),
                        };
                    }
                },
                _ => {},
            }
            match constant_bit(module, cond) {
                Some(false) => AliasOrKey::Alias(else_value),
                Some(true) => AliasOrKey::Alias(then_value),
                None => AliasOrKey::Key(row),
            }
        },
        OpKind::Concat { parts } => {
            let mut row = start_row(scope, 5, result_ty);
            let mut mapped_parts: Vec<ValueId> = Vec::new();
            let mut i: usize = 0;
            while i < parts.len()
                invariant
                    view == module@,
                    map_ok(view, canonical@),
                    inputs == parts@,
                    forall|k: int|
                        0 <= k < inputs.len() ==> (#[trigger] inputs[k]).raw < view.values.len(),
                    i <= parts@.len(),
                    mapped_parts@.len() == i,
                    forall|k: int|
                        0 <= k < i ==> #[trigger] mapped_parts@[k] == mapped(canonical@, parts@[k]),
                decreases parts.len() - i,
            {
                assert(inputs[i as int].raw < view.values.len());
                mapped_parts.push(canonical[parts[i].raw as usize]);
                i += 1;
            }
            if mapped_parts.len() == 1 {
                assert(inputs[0].raw < view.values.len());
                assert(view.has(canonical@[parts@[0].raw as int]));
                assert(mapped_parts@[0] == mapped(canonical@, parts@[0]));
                if let Some(alias) = alias_if_typed(module, mapped_parts[0], result_ty) {
                    return AliasOrKey::Alias(alias);
                }
            }
            push_values(&mut row, &mapped_parts);
            proof {
                assert(mapped_parts@ =~= parts@.map_values(
                    |part: ValueId| mapped(canonical@, part),
                ));
                assert(row@ =~= key_row(scope, ValueKey::Concat(mapped_parts@, result_ty)));
            }
            AliasOrKey::Key(row)
        },
        OpKind::Extract { value, lsb, width } => {
            assert(inputs[0] == *value);
            assert(view.has(canonical@[inputs[0].raw as int]));
            let input = canonical[value.raw as usize];
            if *lsb == 0 {
                if let Some(alias) = alias_if_typed(module, input, result_ty) {
                    return AliasOrKey::Alias(alias);
                }
            }
            let row = finish_row(
                start_row(scope, 6, result_ty),
                input.raw as u64,
                *lsb as u64,
                *width as u64,
            );
            assert(row@ =~= key_row(scope, ValueKey::Extract(input, *lsb, *width, result_ty)));
            AliasOrKey::Key(row)
        },
        OpKind::DynamicExtract { value, offset, width } => {
            assert(inputs[0] == *value && inputs[1] == *offset);
            let input = canonical[value.raw as usize];
            let offset = canonical[offset.raw as usize];
            let row = finish_row(
                start_row(scope, 7, result_ty),
                input.raw as u64,
                offset.raw as u64,
                *width as u64,
            );
            assert(row@ =~= key_row(
                scope,
                ValueKey::DynamicExtract(input, offset, *width, result_ty),
            ));
            AliasOrKey::Key(row)
        },
        OpKind::DynamicInsert { value, offset, replacement } => {
            assert(inputs[0] == *value && inputs[1] == *offset && inputs[2] == *replacement);
            let input = canonical[value.raw as usize];
            let offset = canonical[offset.raw as usize];
            let replacement = canonical[replacement.raw as usize];
            let row = finish_row(
                start_row(scope, 8, result_ty),
                input.raw as u64,
                offset.raw as u64,
                replacement.raw as u64,
            );
            assert(row@ =~= key_row(
                scope,
                ValueKey::DynamicInsert(input, offset, replacement, result_ty),
            ));
            AliasOrKey::Key(row)
        },
        OpKind::Cast { kind: cast, value, target } => {
            assert(inputs[0] == *value);
            assert(view.has(canonical@[inputs[0].raw as int]));
            let input = canonical[value.raw as usize];
            if let Some(alias) = alias_if_typed(module, input, *target) {
                return AliasOrKey::Alias(alias);
            }
            let mut row = start_row(scope, 9, result_ty);
            row.push(number_of_cast(*cast));
            row.push(input.raw as u64);
            push_type(&mut row, *target);
            assert(row@ =~= key_row(scope, ValueKey::Cast(*cast, input, *target, result_ty)));
            AliasOrKey::Key(row)
        },
        OpKind::TriState { .. } | OpKind::Register(_) | OpKind::Latch(_) => AliasOrKey::Unique,
    }
}


/// An environment in which driven signals carry their drivers and unknown bits
/// are read alike everywhere.
pub open spec fn even_env(module: ModuleView, env: Env) -> bool {
    &&& driven(module, env)
    &&& forall|v: int, w: int, i: int|
        (#[trigger] (env.unknown)(v, i)) == (#[trigger] (env.unknown)(w, i))
}

/// A value of the same type and the same word.
pub open spec fn same_value(module: ModuleView, value: ValueId, other: ValueId) -> bool {
    &&& module.has(other)
    &&& module.ty(other) == module.ty(value)
    &&& forall|env: Env| #[trigger]
        even_env(module, env) ==> word_of(module, env, value) == word_of(module, env, other)
}

/// Every value stands for one that is the same.
pub open spec fn sound_map(module: ModuleView, canonical: Seq<ValueId>) -> bool {
    &&& canonical.len() == module.values.len()
    &&& forall|v: ValueId|
        module.has(v) ==> same_value(module, v, #[trigger] canonical[v.raw as int])
}

/// Operations have the types that their operands give them.
pub open spec fn evenly_typed(module: ModuleView) -> bool {
    forall|v: ValueId| #[trigger]
        module.has(v) ==> match module.op_of(v) {
            Some(OpView::Unary { op, arg }) => module.ty(v) == unary_type(op, module.ty(arg)),
            Some(OpView::Binary { op, left, right }) => module.ty(v) == binary_type(
                op,
                module.ty(left),
                module.ty(right),
            ) && (op is BitAnd || op is BitOr || op is BitXor ==> module.ty(left).width
                == module.ty(right).width),
            Some(OpView::Mux { cond, then_value, else_value }) => module.ty(v) == module.ty(
                then_value,
            ) && module.ty(v) == module.ty(else_value),
            _ => true,
        }
}

pub proof fn lemma_operands(module: ModuleView, value: ValueId)
    requires
        module.wf(),
        module.has(value),
        module.op_of(value) is Some,
    ensures
        module.inputs_below(module.op_of(value)->0, value.raw as int),
        module.op_typed(module.op_of(value)->0, module.ty(value)),
        forall|env: Env| #[trigger]
            word_of(module, env, value) == result_bits(
                module,
                env,
                value.raw as int,
                module.op_of(value)->0,
                module.ty(value),
            ),
{
    assert(module.value_ok(value.raw as int));
    let operation = module.kind(value)->Operation_0;
    assert(module.operation_ok(operation.raw as int));
    assert forall|env: Env| #[trigger] word_of(module, env, value) == result_bits(
        module,
        env,
        value.raw as int,
        module.op_of(value)->0,
        module.ty(value),
    ) by {
        lemma_eval_operation(module, env, value.raw as int);
    }
}

proof fn lemma_known_bit(module: ModuleView, env: Env, value: ValueId)
    requires
        module.wf(),
        module.has(value),
        known_bit(module, value) is Some,
    ensures
        word_of(module, env, value) == seq![known_bit(module, value)->0],
        module.ty(value).width == 1,
{
    assert(module.value_ok(value.raw as int));
    let bits = module.kind(value)->Constant_0;
    assert(bit_lsb(bits, 0) == bits[0]);
    assert(constant_value(bits, env, value.raw as int) =~= seq![known_bit(module, value)->0]);
}

/// A word of one bit.
proof fn lemma_one_bit(module: ModuleView, env: Env, value: ValueId)
    requires
        module.wf(),
        module.has(value),
        module.ty(value).width == 1,
    ensures
        word_of(module, env, value) == seq![word_of(module, env, value)[0]],
        any_bit(word_of(module, env, value)) == word_of(module, env, value)[0],
{
    lemma_eval_width(module, env, value.raw as int);
    let word = word_of(module, env, value);
    assert(word =~= seq![word[0]]);
}

proof fn lemma_resize_id(word: Seq<bool>, source: WordType, target: WordType)
    requires
        word.len() == target.width,
    ensures
        resize_bits(word, source, target) == word,
{
    assert(resize_bits(word, source, target) =~= word);
}

/// Commutative operators do not mind the order of their operands.
proof fn lemma_commutes(
    op: BinaryOp,
    left: Seq<bool>,
    left_ty: WordType,
    right: Seq<bool>,
    right_ty: WordType,
    ty: WordType,
)
    requires
        is_commutative(op),
        !(op is Add),
        !(op is Mul),
    ensures
        binary_bits(op, left, left_ty, right, right_ty, ty) == binary_bits(
            op,
            right,
            right_ty,
            left,
            left_ty,
            ty,
        ),
{
    let l = resize_bits(left, left_ty, ty);
    let r = resize_bits(right, right_ty, ty);
    assert(crate::word::semantics::compare_type(left_ty, right_ty, ty)
        == crate::word::semantics::compare_type(right_ty, left_ty, ty));
    assert(zip_bits(l, r, |a: bool, b: bool| a && b) =~= zip_bits(r, l, |a: bool, b: bool| a && b));
    assert(zip_bits(l, r, |a: bool, b: bool| a || b) =~= zip_bits(r, l, |a: bool, b: bool| a || b));
    assert(zip_bits(l, r, |a: bool, b: bool| a != b) =~= zip_bits(r, l, |a: bool, b: bool| a != b));
}

/// A binary operation over the canonical operands.
proof fn lemma_pair_word(
    module: ModuleView,
    canonical: Seq<ValueId>,
    env: Env,
    value: ValueId,
    op: BinaryOp,
    left: ValueId,
    right: ValueId,
)
    requires
        module.wf(),
        module.has(value),
        module.op_of(value) == Some(OpView::Binary { op, left, right }),
        canonical.len() == module.values.len(),
        forall|v: ValueId| #[trigger]
            module.has(v) && v.raw < value.raw ==> same_value(
                module,
                v,
                canonical[v.raw as int],
            ),
        even_env(module, env),
        !(op is Add),
        !(op is Mul),
    ensures
        ({
            let (l, r) = operand_pair(canonical, op, left, right);
            &&& module.has(l)
            &&& module.has(r)
            &&& word_of(module, env, value) == binary_bits(
                op,
                word_of(module, env, l),
                module.ty(l),
                word_of(module, env, r),
                module.ty(r),
                module.ty(value),
            )
        }),
{
    lemma_operands(module, value);
    let kind = OpView::Binary { op, left, right };
    assert(op_inputs(kind)[0] == left && op_inputs(kind)[1] == right);
    assert(module.has(left) && module.has(right));
    assert(same_value(module, left, canonical[left.raw as int]));
    assert(same_value(module, right, canonical[right.raw as int]));
    let l = mapped(canonical, left);
    let r = mapped(canonical, right);
    if is_commutative(op) && r.raw < l.raw {
        lemma_commutes(
            op,
            word_of(module, env, l),
            module.ty(l),
            word_of(module, env, r),
            module.ty(r),
            module.ty(value),
        );
    }
}

/// The type of a binary operation over the canonical operands.
proof fn lemma_pair_type(
    module: ModuleView,
    canonical: Seq<ValueId>,
    value: ValueId,
    op: BinaryOp,
    left: ValueId,
    right: ValueId,
)
    requires
        module.wf(),
        evenly_typed(module),
        module.has(value),
        module.op_of(value) == Some(OpView::Binary { op, left, right }),
        canonical.len() == module.values.len(),
        forall|v: ValueId| #[trigger]
            module.has(v) && v.raw < value.raw ==> same_value(
                module,
                v,
                canonical[v.raw as int],
            ),
    ensures
        ({
            let (l, r) = operand_pair(canonical, op, left, right);
            &&& module.has(l)
            &&& module.has(r)
            &&& !crate::word::module::is_predicate(op) && !crate::word::module::is_shift(op)
                ==> module.ty(value).width == (if module.ty(l).width >= module.ty(r).width {
                module.ty(l).width
            } else {
                module.ty(r).width
            })
            &&& l == r && (op is BitAnd || op is BitOr) ==> module.ty(value) == module.ty(l)
            &&& op is BitAnd || op is BitOr ==> module.ty(l).width == module.ty(value).width
                && module.ty(r).width == module.ty(value).width
        }),
{
    lemma_operands(module, value);
    let kind = OpView::Binary { op, left, right };
    assert(op_inputs(kind)[0] == left && op_inputs(kind)[1] == right);
    assert(module.has(left) && module.has(right));
    assert(same_value(module, left, canonical[left.raw as int]));
    assert(same_value(module, right, canonical[right.raw as int]));
}

/// The value that stands for a constant bit in a table.
pub open spec fn table_means(
    module: ModuleView,
    canonical: Seq<ValueId>,
    scopes: Seq<Option<u64>>,
    table: Map<Seq<u64>, u64>,
    bound: int,
) -> bool {
    forall|row: Seq<u64>| #[trigger]
        table.dom().contains(row) ==> {
            &&& table[row] < bound
            &&& row_of(module, canonical, scopes, table[row] as int) == Some(row)
        }
}

/// The key of a value.
pub open spec fn value_key(module: ModuleView, canonical: Seq<ValueId>, value: int) -> Option<
    ValueKey,
> {
    match module.values[value].kind {
        KindView::Signal(reference) => Some(
            ValueKey::Signal(reference, module.values[value].ty),
        ),
        KindView::Constant(bits) => Some(ValueKey::Constant(bits, module.values[value].ty)),
        KindView::Operation(operation) => operation_key(
            module.operations[operation.raw as int].kind,
            module.values[value].ty,
            canonical,
        ),
    }
}

/// The scope within which a value is compared.
pub open spec fn value_scope(module: ModuleView, scopes: Seq<Option<u64>>, value: int) -> Option<
    u64,
> {
    match module.values[value].kind {
        KindView::Operation(operation) => scopes[operation.raw as int],
        _ => Some(0),
    }
}

pub open spec fn row_of(
    module: ModuleView,
    canonical: Seq<ValueId>,
    scopes: Seq<Option<u64>>,
    value: int,
) -> Option<Seq<u64>> {
    match (value_scope(module, scopes, value), value_key(module, canonical, value)) {
        (Some(scope), Some(key)) => Some(key_row(scope, key)),
        _ => None,
    }
}

/// Values with the same key are the same.
pub proof fn lemma_same_key(
    module: ModuleView,
    canonical: Seq<ValueId>,
    first: ValueId,
    second: ValueId,
)
    requires
        module.wf(),
        evenly_typed(module),
        module.has(first),
        module.has(second),
        canonical.len() == module.values.len(),
        forall|v: ValueId| #[trigger]
            module.has(v) && (v.raw < first.raw || v.raw < second.raw) ==> same_value(
                module,
                v,
                canonical[v.raw as int],
            ),
        value_key(module, canonical, first.raw as int) is Some,
        value_key(module, canonical, first.raw as int) == value_key(
            module,
            canonical,
            second.raw as int,
        ),
    ensures
        same_value(module, first, second),
{
    let key = value_key(module, canonical, first.raw as int)->0;
    let a = first.raw as int;
    let b = second.raw as int;
    assert(module.value_ok(a) && module.value_ok(b));
    assert forall|env: Env| #[trigger] even_env(module, env) implies word_of(module, env, first)
        == word_of(module, env, second) by {
        match module.values[a].kind {
            KindView::Signal(reference) => {},
            KindView::Constant(bits) => {
                assert(constant_value(bits, env, a) =~= constant_value(bits, env, b)) by {
                    assert forall|i: int| 0 <= i < bits.len() implies constant_value(
                        bits,
                        env,
                        a,
                    )[i] == constant_value(bits, env, b)[i] by {
                        assert((env.unknown)(a, i) == (env.unknown)(b, i));
                    }
                }
            },
            KindView::Operation(_) => {
                lemma_operands(module, first);
                lemma_operands(module, second);
                let f = module.op_of(first)->0;
                let g = module.op_of(second)->0;
                assert forall|i: int| 0 <= i < op_inputs(f).len() implies same_value(
                    module,
                    #[trigger] op_inputs(f)[i],
                    mapped(canonical, op_inputs(f)[i]),
                ) by {
                    assert(op_inputs(f)[i].raw < first.raw);
                    assert(module.has(op_inputs(f)[i]));
                }
                assert forall|i: int| 0 <= i < op_inputs(g).len() implies same_value(
                    module,
                    #[trigger] op_inputs(g)[i],
                    mapped(canonical, op_inputs(g)[i]),
                ) by {
                    assert(op_inputs(g)[i].raw < second.raw);
                    assert(module.has(op_inputs(g)[i]));
                }
                match f {
                    OpView::Unary { op, arg } => {
                        assert(op_inputs(f)[0] == arg);
                        assert(op_inputs(g)[0] == g->Unary_arg);
                    },
                    OpView::Binary { op, left, right } => {
                        lemma_pair_word(module, canonical, env, first, op, left, right);
                        lemma_pair_word(
                            module,
                            canonical,
                            env,
                            second,
                            op,
                            g->Binary_left,
                            g->Binary_right,
                        );
                    },
                    OpView::Mux { cond, then_value, else_value } => {
                        assert(op_inputs(f)[0] == cond && op_inputs(f)[1] == then_value
                            && op_inputs(f)[2] == else_value);
                        assert(op_inputs(g)[0] == g->Mux_cond && op_inputs(g)[1]
                            == g->Mux_then_value && op_inputs(g)[2] == g->Mux_else_value);
                    },
                    OpView::Concat { parts } => {
                        let others = g->Concat_parts;
                        let m = |part: ValueId| mapped(canonical, part);
                        assert(parts.map_values(m) == others.map_values(m));
                        assert(parts.len() == parts.map_values(m).len());
                        assert(others.len() == others.map_values(m).len());
                        let operand = |operand: ValueId| word_of(module, env, operand);
                        assert(Seq::new(parts.len(), |i: int| operand(parts[i])) =~= Seq::new(
                            others.len(),
                            |i: int| operand(others[i]),
                        )) by {
                            assert forall|i: int| 0 <= i < parts.len() implies operand(parts[i])
                                == operand(others[i]) by {
                                assert(parts.map_values(m)[i] == others.map_values(m)[i]);
                                assert(op_inputs(f)[i] == parts[i]);
                                assert(op_inputs(g)[i] == others[i]);
                            }
                        }
                    },
                    OpView::Extract { value, lsb, width } => {
                        assert(op_inputs(f)[0] == value);
                        assert(op_inputs(g)[0] == g->Extract_value);
                    },
                    OpView::DynamicExtract { value, offset, width } => {
                        assert(op_inputs(f)[0] == value && op_inputs(f)[1] == offset);
                        assert(op_inputs(g)[0] == g->DynamicExtract_value && op_inputs(g)[1]
                            == g->DynamicExtract_offset);
                    },
                    OpView::DynamicInsert { value, offset, replacement } => {
                        assert(op_inputs(f)[0] == value && op_inputs(f)[1] == offset
                            && op_inputs(f)[2] == replacement);
                        assert(op_inputs(g)[0] == g->DynamicInsert_value && op_inputs(g)[1]
                            == g->DynamicInsert_offset && op_inputs(g)[2]
                            == g->DynamicInsert_replacement);
                    },
                    OpView::Cast { kind, value, target } => {
                        assert(op_inputs(f)[0] == value);
                        assert(op_inputs(g)[0] == g->Cast_value);
                    },
                    _ => {},
                }
            },
        }
    }
}


/// What a conjunction or disjunction comes down to is the same.
#[verifier::spinoff_prover]
#[verifier::rlimit(60)]
proof fn lemma_boolean_alias(
    module: ModuleView,
    canonical: Seq<ValueId>,
    scopes: Seq<Option<u64>>,
    table: Map<Seq<u64>, u64>,
    value: ValueId,
    op: BinaryOp,
    left: ValueId,
    right: ValueId,
    alias: ValueId,
)
    requires
        module.wf(),
        evenly_typed(module),
        module.has(value),
        module.op_of(value) == Some(OpView::Binary { op, left, right }),
        sound_map(module, canonical),
        table_means(module, canonical, scopes, table, value.raw as int),
        ({
            let (l, r) = operand_pair(canonical, op, left, right);
            boolean_alias(module, op, l, r, module.ty(value), canonical, table) == Some(alias)
        }),
    ensures
        same_value(module, value, alias),
{
    let (l, r) = operand_pair(canonical, op, left, right);
    let ty = module.ty(value);
    lemma_pair_type(module, canonical, value, op, left, right);
    assert(module.value_ok(l.raw as int) && module.value_ok(r.raw as int));
    let bit = op is BitOr || op is LogicalOr;
    let decided = known_bit(module, l) == Some(bit) || known_bit(module, r) == Some(bit);
    let passes = !decided && (known_bit(module, l) == Some(!bit) || known_bit(module, r) == Some(
        !bit,
    ));
    let row = key_row(
        0,
        ValueKey::Constant(
            seq![
                if bit {
                    BitVal::One
                } else {
                    BitVal::Zero
                },
            ],
            ty,
        ),
    );
    if !decided && !passes {
        assert(complements(module, canonical, l, r));
        assert(table.dom().contains(row));
        assert(row_of(module, canonical, scopes, table[row] as int) == Some(row));
        let key = value_key(module, canonical, table[row] as int)->0;
        let scope = value_scope(module, scopes, table[row] as int)->0;
        key_rows_are_faithful(
            scope,
            key,
            0,
            ValueKey::Constant(
                seq![
                    if bit {
                        BitVal::One
                    } else {
                        BitVal::Zero
                    },
                ],
                ty,
            ),
        );
        assert(alias.raw == table[row]);
        assert(module.value_ok(alias.raw as int));
        assert(known_bit(module, alias) == Some(bit));
        assert(module.ty(alias) == ty);
    }
    assert(module.has(alias));
    assert(module.ty(alias) == ty);
    assert(ty.width == 1) by {
        if decided || passes {
            if known_bit(module, l) is Some {
                lemma_known_bit(module, arbitrary(), l);
            }
            if known_bit(module, r) is Some {
                lemma_known_bit(module, arbitrary(), r);
            }
            if op is LogicalAnd || op is LogicalOr {
                lemma_operands(module, value);
            }
        } else {
            lemma_known_bit(module, arbitrary(), alias);
        }
    }
    assert forall|env: Env| #[trigger] even_env(module, env) implies word_of(module, env, value)
        == word_of(module, env, alias) by {
        lemma_pair_word(module, canonical, env, value, op, left, right);
        let a = word_of(module, env, l);
        let b = word_of(module, env, r);
        lemma_eval_width(module, env, l.raw as int);
        lemma_eval_width(module, env, r.raw as int);
        if known_bit(module, l) is Some {
            lemma_known_bit(module, env, l);
            lemma_one_bit(module, env, l);
        }
        if known_bit(module, r) is Some {
            lemma_known_bit(module, env, r);
            lemma_one_bit(module, env, r);
        }
        if op is BitAnd || op is BitOr {
            lemma_one_bit(module, env, l);
            lemma_one_bit(module, env, r);
            lemma_resize_id(a, module.ty(l), ty);
            lemma_resize_id(b, module.ty(r), ty);
        }
        if decided {
            assert(word_of(module, env, value) =~= seq![bit]);
        } else if passes {
            lemma_one_bit(module, env, alias);
            assert(word_of(module, env, value) =~= word_of(module, env, alias));
        } else {
            lemma_known_bit(module, env, alias);
            lemma_complement_words(module, canonical, env, l, r);
            assert(word_of(module, env, value) =~= seq![bit]);
        }
    }
}

/// Complementary values have opposite truth.
proof fn lemma_complement_words(
    module: ModuleView,
    canonical: Seq<ValueId>,
    env: Env,
    left: ValueId,
    right: ValueId,
)
    requires
        module.wf(),
        sound_map(module, canonical),
        module.has(left),
        module.has(right),
        even_env(module, env),
        complements(module, canonical, left, right),
    ensures
        any_bit(word_of(module, env, left)) != any_bit(word_of(module, env, right)),
{
    let direct = unary_arg(module, left, UnaryOp::LogicalNot) matches Some(inner) && mapped(
        canonical,
        inner,
    ) == right;
    let inverse = if direct {
        left
    } else {
        right
    };
    let inner = unary_arg(module, inverse, UnaryOp::LogicalNot)->0;
    lemma_operands(module, inverse);
    assert(op_inputs(module.op_of(inverse)->0)[0] == inner);
    assert(inner.raw < inverse.raw);
    assert(module.has(inner));
    assert(same_value(module, inner, canonical[inner.raw as int]));
    let word = word_of(module, env, inverse);
    assert(word == seq![!any_bit(word_of(module, env, inner))]);
    assert(word.len() == 1 && word[0] == !any_bit(word_of(module, env, inner)));
    assert(any_bit(word) == word[0]);
}

/// What an operation comes down to is the same.
#[verifier::spinoff_prover]
#[verifier::rlimit(60)]
pub proof fn lemma_operation_alias(
    module: ModuleView,
    canonical: Seq<ValueId>,
    scopes: Seq<Option<u64>>,
    table: Map<Seq<u64>, u64>,
    value: ValueId,
    alias: ValueId,
)
    requires
        module.wf(),
        evenly_typed(module),
        module.has(value),
        module.op_of(value) is Some,
        sound_map(module, canonical),
        table_means(module, canonical, scopes, table, value.raw as int),
        operation_alias(
            module,
            module.op_of(value)->0,
            module.ty(value),
            canonical,
            table,
        ) == Some(alias),
    ensures
        same_value(module, value, alias),
{
    let kind = module.op_of(value)->0;
    let ty = module.ty(value);
    let inputs = op_inputs(kind);
    lemma_operands(module, value);
    assert forall|i: int| 0 <= i < inputs.len() implies same_value(
        module,
        #[trigger] inputs[i],
        mapped(canonical, inputs[i]),
    ) by {
        assert(inputs[i].raw < value.raw);
        assert(module.has(inputs[i]));
    }
    match kind {
        OpView::Unary { op, arg } => {
            assert(inputs[0] == arg);
            let m = mapped(canonical, arg);
            lemma_operands(module, m);
            let inner = unary_arg(module, m, UnaryOp::BitNot)->0;
            assert(op_inputs(module.op_of(m)->0)[0] == inner);
            assert(module.has(inner));
            assert(same_value(module, inner, canonical[inner.raw as int]));
            assert forall|env: Env| #[trigger] even_env(module, env) implies word_of(
                module,
                env,
                value,
            ) == word_of(module, env, alias) by {
                let x = word_of(module, env, inner);
                assert(word_of(module, env, m) == unary_bits(UnaryOp::BitNot, x));
                assert(unary_bits(UnaryOp::BitNot, unary_bits(UnaryOp::BitNot, x)) =~= x);
            }
        },
        OpView::Binary { op, left, right } => {
            assert(inputs[0] == left && inputs[1] == right);
            let (l, r) = operand_pair(canonical, op, left, right);
            if boolean_alias(module, op, l, r, ty, canonical, table) is Some {
                lemma_boolean_alias(
                    module,
                    canonical,
                    scopes,
                    table,
                    value,
                    op,
                    left,
                    right,
                    alias,
                );
            } else {
                lemma_pair_type(module, canonical, value, op, left, right);
                assert forall|env: Env| #[trigger] even_env(module, env) implies word_of(
                    module,
                    env,
                    value,
                ) == word_of(module, env, alias) by {
                    lemma_pair_word(module, canonical, env, value, op, left, right);
                    lemma_eval_width(module, env, l.raw as int);
                    lemma_eval_width(module, env, r.raw as int);
                    let a = word_of(module, env, l);
                    let b = word_of(module, env, r);
                    lemma_resize_id(a, module.ty(l), ty);
                    if op is BitAnd {
                        assert(zip_bits(a, a, |x: bool, y: bool| x && y) =~= a);
                    } else if op is BitOr {
                        assert(zip_bits(a, a, |x: bool, y: bool| x || y) =~= a);
                    } else {
                        lemma_zero_amount(module, env, r);
                        assert(crate::word::semantics::shift_bits(op, a, 0, ty.signed) =~= a);
                    }
                }
            }
        },
        OpView::Mux { cond, then_value, else_value } => {
            assert(inputs[0] == cond && inputs[1] == then_value && inputs[2] == else_value);
            let c = mapped(canonical, cond);
            let t = mapped(canonical, then_value);
            let e = mapped(canonical, else_value);
            let inner = unary_arg(module, c, UnaryOp::LogicalNot);
            if inner is Some {
                lemma_operands(module, c);
                assert(op_inputs(module.op_of(c)->0)[0] == inner->0);
                assert(module.has(inner->0));
                assert(same_value(module, inner->0, canonical[inner->0.raw as int]));
            }
            assert forall|env: Env| #[trigger] even_env(module, env) implies word_of(
                module,
                env,
                value,
            ) == word_of(module, env, alias) by {
                assert(word_of(module, env, value) == (if word_of(module, env, c)[0] {
                    word_of(module, env, t)
                } else {
                    word_of(module, env, e)
                }));
                lemma_one_bit(module, env, c);
                if known_bit(module, t) is Some {
                    lemma_known_bit(module, env, t);
                }
                if known_bit(module, e) is Some {
                    lemma_known_bit(module, env, e);
                }
                if known_bit(module, c) is Some {
                    lemma_known_bit(module, env, c);
                }
                if t != e && known_bit(module, t) == Some(false) && known_bit(module, e) == Some(
                    true,
                ) && inner is Some {
                    let plain = mapped(canonical, inner->0);
                    assert(alias == plain);
                    lemma_known_bit(module, env, t);
                    lemma_one_bit(module, env, plain);
                    assert(word_of(module, env, c) == seq![
                        !any_bit(word_of(module, env, inner->0)),
                    ]);
                    assert(word_of(module, env, c)[0] == !any_bit(word_of(module, env, plain)));
                }
            }
        },
        OpView::Concat { parts } => {
            assert(inputs[0] == parts[0]);
            assert forall|env: Env| #[trigger] even_env(module, env) implies word_of(
                module,
                env,
                value,
            ) == word_of(module, env, alias) by {
                let operand = |operand: ValueId| word_of(module, env, operand);
                let words = Seq::new(parts.len(), |i: int| operand(parts[i]));
                assert(words.skip(1) =~= seq![]);
                assert(concat_bits(words.skip(1)) =~= seq![]);
                assert(concat_bits(words) =~= words[0]);
            }
        },
        OpView::Extract { value: word, lsb, width } => {
            assert(inputs[0] == word);
            assert forall|env: Env| #[trigger] even_env(module, env) implies word_of(
                module,
                env,
                value,
            ) == word_of(module, env, alias) by {
                lemma_eval_width(module, env, alias.raw as int);
                assert(extract_bits(word_of(module, env, word), 0, width as nat) =~= word_of(
                    module,
                    env,
                    word,
                ));
            }
        },
        OpView::Cast { kind: cast, value: word, target } => {
            assert(inputs[0] == word);
            assert forall|env: Env| #[trigger] even_env(module, env) implies word_of(
                module,
                env,
                value,
            ) == word_of(module, env, alias) by {
                lemma_eval_width(module, env, alias.raw as int);
                assert(cast_bits(cast, word_of(module, env, word), target) =~= word_of(
                    module,
                    env,
                    word,
                ));
            }
        },
        _ => {},
    }
}

proof fn lemma_zero_amount(module: ModuleView, env: Env, value: ValueId)
    requires
        module.wf(),
        module.has(value),
        is_zero_constant(module, value),
    ensures
        crate::word::bits::nat_of(word_of(module, env, value)) == 0,
{
    let bits = module.kind(value)->Constant_0;
    let word = word_of(module, env, value);
    assert forall|i: int| 0 <= i < word.len() implies !word[i] by {
        assert(bit_lsb(bits, i) == bits[bits.len() - 1 - i]);
        assert(bits[bits.len() - 1 - i] is Zero);
    }
    crate::word::bits::lemma_any_bit(word);
}

} // verus!
