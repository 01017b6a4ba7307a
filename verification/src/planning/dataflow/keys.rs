//! Structural keys of values, as rows of numbers.

use crate::word::module::SignalRef;
use crate::word::types::{BinaryOp, BitVal, CastKind, LogicStateKind, UnaryOp, ValueId, WordType};
use vstd::prelude::*;

verus! {

/// The structure of a value over canonical operands.
pub enum ValueKey {
    Signal(SignalRef, WordType),
    Constant(Seq<BitVal>, WordType),
    Unary(UnaryOp, ValueId, WordType),
    Binary(BinaryOp, ValueId, ValueId, WordType),
    Mux(ValueId, ValueId, ValueId, WordType),
    Concat(Seq<ValueId>, WordType),
    Extract(ValueId, u32, u32, WordType),
    DynamicExtract(ValueId, ValueId, u32, WordType),
    DynamicInsert(ValueId, ValueId, ValueId, WordType),
    Cast(CastKind, ValueId, WordType, WordType),
}

pub open spec fn bit_number(bit: BitVal) -> u64 {
    match bit {
        BitVal::Zero => 0,
        BitVal::One => 1,
        BitVal::X => 2,
        BitVal::Z => 3,
    }
}

pub open spec fn unary_number(op: UnaryOp) -> u64 {
    match op {
        UnaryOp::BitNot => 0,
        UnaryOp::LogicalNot => 1,
        UnaryOp::ReductionAnd => 2,
        UnaryOp::ReductionOr => 3,
        UnaryOp::ReductionXor => 4,
    }
}

pub open spec fn binary_number(op: BinaryOp) -> u64 {
    match op {
        BinaryOp::Add => 0,
        BinaryOp::Sub => 1,
        BinaryOp::Mul => 2,
        BinaryOp::Div => 3,
        BinaryOp::Mod => 4,
        BinaryOp::BitAnd => 5,
        BinaryOp::BitOr => 6,
        BinaryOp::BitXor => 7,
        BinaryOp::LogicalAnd => 8,
        BinaryOp::LogicalOr => 9,
        BinaryOp::Eq => 10,
        BinaryOp::Ne => 11,
        BinaryOp::Lt => 12,
        BinaryOp::Le => 13,
        BinaryOp::Gt => 14,
        BinaryOp::Ge => 15,
        BinaryOp::Shl => 16,
        BinaryOp::Shr => 17,
        BinaryOp::Ashr => 18,
    }
}

pub open spec fn cast_number(kind: CastKind) -> u64 {
    match kind {
        CastKind::Truncate => 0,
        CastKind::ZeroExtend => 1,
        CastKind::SignExtend => 2,
    }
}

pub open spec fn truth_number(value: bool) -> u64 {
    if value {
        1
    } else {
        0
    }
}

pub open spec fn type_row(ty: WordType) -> Seq<u64> {
    seq![ty.width as u64, truth_number(ty.signed), truth_number(ty.state is FourState)]
}

pub open spec fn value_row(values: Seq<ValueId>) -> Seq<u64> {
    values.map_values(|value: ValueId| value.raw as u64)
}

pub open spec fn bit_row(bits: Seq<BitVal>) -> Seq<u64> {
    bits.map_values(|bit: BitVal| bit_number(bit))
}

pub open spec fn key_type(key: ValueKey) -> WordType {
    match key {
        ValueKey::Signal(_, ty) => ty,
        ValueKey::Constant(_, ty) => ty,
        ValueKey::Unary(_, _, ty) => ty,
        ValueKey::Binary(_, _, _, ty) => ty,
        ValueKey::Mux(_, _, _, ty) => ty,
        ValueKey::Concat(_, ty) => ty,
        ValueKey::Extract(_, _, _, ty) => ty,
        ValueKey::DynamicExtract(_, _, _, ty) => ty,
        ValueKey::DynamicInsert(_, _, _, ty) => ty,
        ValueKey::Cast(_, _, _, ty) => ty,
    }
}

pub open spec fn key_number(key: ValueKey) -> u64 {
    match key {
        ValueKey::Signal(..) => 0,
        ValueKey::Constant(..) => 1,
        ValueKey::Unary(..) => 2,
        ValueKey::Binary(..) => 3,
        ValueKey::Mux(..) => 4,
        ValueKey::Concat(..) => 5,
        ValueKey::Extract(..) => 6,
        ValueKey::DynamicExtract(..) => 7,
        ValueKey::DynamicInsert(..) => 8,
        ValueKey::Cast(..) => 9,
    }
}

pub open spec fn key_fields(key: ValueKey) -> Seq<u64> {
    match key {
        ValueKey::Signal(reference, _) => seq![
            reference.signal.raw as u64,
            reference.lsb as u64,
            reference.width as u64,
        ],
        ValueKey::Constant(bits, _) => bit_row(bits),
        ValueKey::Unary(op, arg, _) => seq![unary_number(op), arg.raw as u64],
        ValueKey::Binary(op, left, right, _) => seq![
            binary_number(op),
            left.raw as u64,
            right.raw as u64,
        ],
        ValueKey::Mux(cond, then_value, else_value, _) => seq![
            cond.raw as u64,
            then_value.raw as u64,
            else_value.raw as u64,
        ],
        ValueKey::Concat(parts, _) => value_row(parts),
        ValueKey::Extract(value, lsb, width, _) => seq![value.raw as u64, lsb as u64, width as u64],
        ValueKey::DynamicExtract(value, offset, width, _) => seq![
            value.raw as u64,
            offset.raw as u64,
            width as u64,
        ],
        ValueKey::DynamicInsert(value, offset, replacement, _) => seq![
            value.raw as u64,
            offset.raw as u64,
            replacement.raw as u64,
        ],
        ValueKey::Cast(kind, value, target, _) => seq![cast_number(kind), value.raw as u64]
            + type_row(target),
    }
}

/// The row of a key within a scope.
pub open spec fn key_row(scope: u64, key: ValueKey) -> Seq<u64> {
    seq![scope, key_number(key)] + type_row(key_type(key)) + key_fields(key)
}

proof fn lemma_type_row(left: WordType, right: WordType)
    requires
        type_row(left) == type_row(right),
    ensures
        left == right,
{
    assert(type_row(left)[0] == type_row(right)[0]);
    assert(type_row(left)[1] == type_row(right)[1]);
    assert(type_row(left)[2] == type_row(right)[2]);
}

proof fn lemma_value_row(left: Seq<ValueId>, right: Seq<ValueId>)
    requires
        value_row(left) == value_row(right),
    ensures
        left == right,
{
    assert(left.len() == value_row(left).len());
    assert(right.len() == value_row(right).len());
    assert forall|i: int| 0 <= i < left.len() implies left[i] == right[i] by {
        assert(value_row(left)[i] == left[i].raw as u64);
        assert(value_row(right)[i] == right[i].raw as u64);
    }
    assert(left =~= right);
}

proof fn lemma_bit_row(left: Seq<BitVal>, right: Seq<BitVal>)
    requires
        bit_row(left) == bit_row(right),
    ensures
        left == right,
{
    assert(left.len() == bit_row(left).len());
    assert(right.len() == bit_row(right).len());
    assert forall|i: int| 0 <= i < left.len() implies left[i] == right[i] by {
        assert(bit_row(left)[i] == bit_number(left[i]));
        assert(bit_row(right)[i] == bit_number(right[i]));
    }
    assert(left =~= right);
}

/// Different keys have different rows.
pub proof fn key_rows_are_faithful(
    left_scope: u64,
    left: ValueKey,
    right_scope: u64,
    right: ValueKey,
)
    requires
        key_row(left_scope, left) == key_row(right_scope, right),
    ensures
        left_scope == right_scope,
        left == right,
{
    let a = key_row(left_scope, left);
    let b = key_row(right_scope, right);
    assert(a[0] == left_scope && b[0] == right_scope);
    assert(a[1] == key_number(left) && b[1] == key_number(right));
    assert(a.subrange(2, 5) =~= type_row(key_type(left)));
    assert(b.subrange(2, 5) =~= type_row(key_type(right)));
    lemma_type_row(key_type(left), key_type(right));
    assert(a.skip(5) =~= key_fields(left));
    assert(b.skip(5) =~= key_fields(right));
    let f = key_fields(left);
    let g = key_fields(right);
    assert(f == g);
    match left {
        ValueKey::Signal(reference, _) => {
            assert(f[0] == g[0] && f[1] == g[1] && f[2] == g[2]);
        },
        ValueKey::Constant(bits, _) => {
            lemma_bit_row(bits, right->Constant_0);
        },
        ValueKey::Unary(op, arg, _) => {
            assert(f[0] == g[0] && f[1] == g[1]);
        },
        ValueKey::Binary(op, l, r, _) => {
            assert(f[0] == g[0] && f[1] == g[1] && f[2] == g[2]);
        },
        ValueKey::Mux(cond, t, e, _) => {
            assert(f[0] == g[0] && f[1] == g[1] && f[2] == g[2]);
        },
        ValueKey::Concat(parts, _) => {
            lemma_value_row(parts, right->Concat_0);
        },
        ValueKey::Extract(value, lsb, width, _) => {
            assert(f[0] == g[0] && f[1] == g[1] && f[2] == g[2]);
        },
        ValueKey::DynamicExtract(value, offset, width, _) => {
            assert(f[0] == g[0] && f[1] == g[1] && f[2] == g[2]);
        },
        ValueKey::DynamicInsert(value, offset, replacement, _) => {
            assert(f[0] == g[0] && f[1] == g[1] && f[2] == g[2]);
        },
        ValueKey::Cast(kind, value, target, _) => {
            assert(f[0] == g[0] && f[1] == g[1]);
            assert(f.skip(2) =~= type_row(target));
            assert(g.skip(2) =~= type_row(right->Cast_2));
            lemma_type_row(target, right->Cast_2);
        },
    }
}

pub fn number_of_bit(bit: BitVal) -> (number: u64)
    ensures
        number == bit_number(bit),
{
    match bit {
        BitVal::Zero => 0,
        BitVal::One => 1,
        BitVal::X => 2,
        BitVal::Z => 3,
    }
}

pub fn number_of_unary(op: UnaryOp) -> (number: u64)
    ensures
        number == unary_number(op),
{
    match op {
        UnaryOp::BitNot => 0,
        UnaryOp::LogicalNot => 1,
        UnaryOp::ReductionAnd => 2,
        UnaryOp::ReductionOr => 3,
        UnaryOp::ReductionXor => 4,
    }
}

pub fn number_of_binary(op: BinaryOp) -> (number: u64)
    ensures
        number == binary_number(op),
{
    match op {
        BinaryOp::Add => 0,
        BinaryOp::Sub => 1,
        BinaryOp::Mul => 2,
        BinaryOp::Div => 3,
        BinaryOp::Mod => 4,
        BinaryOp::BitAnd => 5,
        BinaryOp::BitOr => 6,
        BinaryOp::BitXor => 7,
        BinaryOp::LogicalAnd => 8,
        BinaryOp::LogicalOr => 9,
        BinaryOp::Eq => 10,
        BinaryOp::Ne => 11,
        BinaryOp::Lt => 12,
        BinaryOp::Le => 13,
        BinaryOp::Gt => 14,
        BinaryOp::Ge => 15,
        BinaryOp::Shl => 16,
        BinaryOp::Shr => 17,
        BinaryOp::Ashr => 18,
    }
}

pub fn number_of_cast(kind: CastKind) -> (number: u64)
    ensures
        number == cast_number(kind),
{
    match kind {
        CastKind::Truncate => 0,
        CastKind::ZeroExtend => 1,
        CastKind::SignExtend => 2,
    }
}

pub fn push_type(row: &mut Vec<u64>, ty: WordType)
    ensures
        final(row)@ == old(row)@ + type_row(ty),
{
    row.push(ty.width as u64);
    row.push(
        if ty.signed {
            1
        } else {
            0
        },
    );
    row.push(
        match ty.state {
            LogicStateKind::FourState => 1,
            LogicStateKind::TwoState => 0,
        },
    );
    assert(row@ =~= old(row)@ + type_row(ty));
}

/// The beginning of a row.
pub fn start_row(scope: u64, number: u64, ty: WordType) -> (row: Vec<u64>)
    ensures
        row@ == seq![scope, number] + type_row(ty),
{
    let mut row: Vec<u64> = Vec::new();
    row.push(scope);
    row.push(number);
    assert(row@ =~= seq![scope, number]);
    push_type(&mut row, ty);
    row
}

/// A row with three more numbers.
pub fn finish_row(row: Vec<u64>, first: u64, second: u64, third: u64) -> (full: Vec<u64>)
    ensures
        full@ == row@ + seq![first, second, third],
{
    let ghost start = row@;
    let mut full = row;
    full.push(first);
    full.push(second);
    full.push(third);
    assert(full@ =~= start + seq![first, second, third]);
    full
}

pub fn push_bits(row: &mut Vec<u64>, bits: &Vec<BitVal>)
    ensures
        final(row)@ == old(row)@ + bit_row(bits@),
{
    let ghost all = bit_row(bits@);
    let mut i: usize = 0;
    while i < bits.len()
        invariant
            i <= bits@.len(),
            all == bit_row(bits@),
            row@ == old(row)@ + all.take(i as int),
        decreases bits.len() - i,
    {
        row.push(number_of_bit(bits[i]));
        i += 1;
        assert(all.take(i as int) =~= all.take(i - 1).push(all[i - 1]));
    }
    assert(all.take(i as int) =~= all);
}

pub fn push_values(row: &mut Vec<u64>, values: &Vec<ValueId>)
    ensures
        final(row)@ == old(row)@ + value_row(values@),
{
    let ghost all = value_row(values@);
    let mut i: usize = 0;
    while i < values.len()
        invariant
            i <= values@.len(),
            all == value_row(values@),
            row@ == old(row)@ + all.take(i as int),
        decreases values.len() - i,
    {
        row.push(values[i].raw as u64);
        i += 1;
        assert(all.take(i as int) =~= all.take(i - 1).push(all[i - 1]));
    }
    assert(all.take(i as int) =~= all);
}

} // verus!
