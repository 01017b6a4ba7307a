//! Carrying an operation over to another module.

use crate::planning::dataflow::substitution::with_inputs;
use crate::word::module::{parts_width, ModuleView};
use crate::word::semantics::{concat_bits, op_bits, Env};
use crate::word::types::{op_inputs, Enable, OpKind, OpView, ValueId, WordType};
use vstd::prelude::*;

verus! {

/// The operation keeps no state.
pub open spec fn stateless(kind: OpView) -> bool {
    !(kind is Register) && !(kind is Latch)
}

/// Operands have the same types on both sides.
pub open spec fn same_types(
    source: ModuleView,
    local: ModuleView,
    kind: OpView,
    f: spec_fn(ValueId) -> ValueId,
) -> bool {
    forall|i: int|
        0 <= i < op_inputs(kind).len() ==> local.ty(f(#[trigger] op_inputs(kind)[i])) == source.ty(
            op_inputs(kind)[i],
        )
}

proof fn lemma_parts(
    source: ModuleView,
    local: ModuleView,
    parts: Seq<ValueId>,
    f: spec_fn(ValueId) -> ValueId,
)
    requires
        forall|i: int| 0 <= i < parts.len() ==> local.ty(f(#[trigger] parts[i])) == source.ty(parts[i]),
    ensures
        parts_width(local, parts.map_values(f)) == parts_width(source, parts),
    decreases parts.len(),
{
    if parts.len() > 0 {
        assert forall|i: int| 0 <= i < parts.drop_last().len() implies local.ty(
            f(#[trigger] parts.drop_last()[i]),
        ) == source.ty(parts.drop_last()[i]) by {
            assert(parts.drop_last()[i] == parts[i]);
        }
        lemma_parts(source, local, parts.drop_last(), f);
        assert(parts.map_values(f).drop_last() =~= parts.drop_last().map_values(f));
        assert(local.ty(f(parts[parts.len() - 1])) == source.ty(parts[parts.len() - 1]));
    }
}

/// An operation that suits its operands suits operands of the same types.
pub proof fn lemma_typed_transfer(
    source: ModuleView,
    local: ModuleView,
    kind: OpView,
    f: spec_fn(ValueId) -> ValueId,
    ty: WordType,
)
    requires
        stateless(kind),
        same_types(source, local, kind, f),
    ensures
        local.op_typed(with_inputs(kind, f), ty) == source.op_typed(kind, ty),
{
    let inputs = op_inputs(kind);
    match kind {
        OpView::Unary { op, arg } => {
            assert(inputs[0] == arg);
        },
        OpView::Binary { op, left, right } => {},
        OpView::Mux { cond, then_value, else_value } => {
            assert(inputs[0] == cond && inputs[1] == then_value && inputs[2] == else_value);
        },
        OpView::Concat { parts } => {
            assert forall|i: int| 0 <= i < parts.len() implies local.ty(f(#[trigger] parts[i]))
                == source.ty(parts[i]) by {
                assert(inputs[i] == parts[i]);
            }
            lemma_parts(source, local, parts, f);
        },
        OpView::Extract { value, lsb, width } => {
            assert(inputs[0] == value);
        },
        OpView::DynamicExtract { value, offset, width } => {
            assert(inputs[0] == value && inputs[1] == offset);
        },
        OpView::DynamicInsert { value, offset, replacement } => {
            assert(inputs[0] == value && inputs[1] == offset && inputs[2] == replacement);
        },
        OpView::TriState { data, enable } => {
            assert(inputs[0] == data && inputs[1] == enable.value);
        },
        OpView::Cast { kind: cast, value, target } => {
            assert(inputs[0] == value);
        },
        _ => {},
    }
}

/// An operation means the same on operands of the same types and words.
pub proof fn lemma_bits_transfer(
    source: ModuleView,
    local: ModuleView,
    source_env: Env,
    local_env: Env,
    source_result: int,
    local_result: int,
    kind: OpView,
    f: spec_fn(ValueId) -> ValueId,
    ty: WordType,
    source_words: spec_fn(ValueId) -> Seq<bool>,
    local_words: spec_fn(ValueId) -> Seq<bool>,
)
    requires
        stateless(kind),
        same_types(source, local, kind, f),
        forall|i: int|
            0 <= i < op_inputs(kind).len() ==> local_words(f(#[trigger] op_inputs(kind)[i]))
                == source_words(op_inputs(kind)[i]),
    ensures
        op_bits(local, local_env, local_result, with_inputs(kind, f), ty, local_words) == op_bits(
            source,
            source_env,
            source_result,
            kind,
            ty,
            source_words,
        ),
{
    let inputs = op_inputs(kind);
    match kind {
        OpView::Unary { op, arg } => {
            assert(inputs[0] == arg);
        },
        OpView::Binary { op, left, right } => {
            assert(inputs[0] == left && inputs[1] == right);
        },
        OpView::Mux { cond, then_value, else_value } => {
            assert(inputs[0] == cond && inputs[1] == then_value && inputs[2] == else_value);
        },
        OpView::Concat { parts } => {
            let other = parts.map_values(f);
            assert(Seq::new(other.len(), |i: int| local_words(other[i])) =~= Seq::new(
                parts.len(),
                |i: int| source_words(parts[i]),
            )) by {
                assert forall|i: int| 0 <= i < parts.len() implies local_words(other[i])
                    == source_words(#[trigger] parts[i]) by {
                    assert(inputs[i] == parts[i]);
                }
            }
        },
        OpView::Extract { value, lsb, width } => {
            assert(inputs[0] == value);
        },
        OpView::DynamicExtract { value, offset, width } => {
            assert(inputs[0] == value && inputs[1] == offset);
        },
        OpView::DynamicInsert { value, offset, replacement } => {
            assert(inputs[0] == value && inputs[1] == offset && inputs[2] == replacement);
        },
        OpView::TriState { data, enable } => {
            assert(inputs[0] == data && inputs[1] == enable.value);
        },
        OpView::Cast { kind: cast, value, target } => {
            assert(inputs[0] == value);
        },
        _ => {},
    }
}

/// What stands for a value: the partner of its first occurrence in a list.
pub open spec fn partner(from: Seq<ValueId>, to: Seq<ValueId>, value: ValueId, at: nat) -> ValueId
    decreases from.len() - at,
{
    if at < from.len() && at < to.len() {
        if from[at as int] == value {
            to[at as int]
        } else {
            partner(from, to, value, at + 1)
        }
    } else {
        value
    }
}

pub open spec fn partners(from: Seq<ValueId>, to: Seq<ValueId>) -> spec_fn(ValueId) -> ValueId {
    |value: ValueId| partner(from, to, value, 0)
}

/// A value that occurs has a partner at the place of an occurrence.
pub proof fn lemma_partner(from: Seq<ValueId>, to: Seq<ValueId>, value: ValueId, at: nat)
    requires
        from.len() == to.len(),
        exists|i: int| at <= i < from.len() && #[trigger] from[i] == value,
    ensures
        exists|i: int|
            at <= i < from.len() && #[trigger] from[i] == value && to[i] == partner(
                from,
                to,
                value,
                at,
            ),
    decreases from.len() - at,
{
    let i = choose|i: int| at <= i < from.len() && #[trigger] from[i] == value;
    if from[at as int] != value {
        assert(at + 1 <= i);
        lemma_partner(from, to, value, at + 1);
    }
}

fn find_partner(from: &Vec<ValueId>, to: &Vec<ValueId>, value: ValueId) -> (found: ValueId)
    ensures
        found == partners(from@, to@)(value),
{
    let mut i: usize = 0;
    while i < from.len() && i < to.len()
        invariant
            partner(from@, to@, value, 0) == partner(from@, to@, value, i as nat),
            i <= from@.len(),
        decreases from.len() - i,
    {
        if from[i].raw == value.raw {
            return to[i];
        }
        i += 1;
    }
    value
}

/// An operation without state on the partners of its operands. One with state is
/// carried over by other means.
pub fn carried(kind: &OpKind, from: &Vec<ValueId>, to: &Vec<ValueId>) -> (result: Option<OpKind>)
    ensures
        match result {
            Some(other) => stateless(kind@) && other@ == with_inputs(
                kind@,
                partners(from@, to@),
            ),
            None => !stateless(kind@),
        },
{
    match kind {
        OpKind::Unary { op, arg } => Some(
            OpKind::Unary { op: *op, arg: find_partner(from, to, *arg) },
        ),
        OpKind::Binary { op, left, right } => Some(
            OpKind::Binary {
                op: *op,
                left: find_partner(from, to, *left),
                right: find_partner(from, to, *right),
            },
        ),
        OpKind::Mux { cond, then_value, else_value } => Some(
            OpKind::Mux {
                cond: find_partner(from, to, *cond),
                then_value: find_partner(from, to, *then_value),
                else_value: find_partner(from, to, *else_value),
            },
        ),
        OpKind::Concat { parts } => {
            let mut others: Vec<ValueId> = Vec::new();
            let mut i: usize = 0;
            while i < parts.len()
                invariant
                    i <= parts@.len(),
                    others@.len() == i,
                    forall|k: int|
                        0 <= k < i ==> #[trigger] others@[k] == partners(from@, to@)(parts@[k]),
                decreases parts.len() - i,
            {
                others.push(find_partner(from, to, parts[i]));
                i += 1;
            }
            assert(others@ =~= parts@.map_values(partners(from@, to@)));
            Some(OpKind::Concat { parts: others })
        },
        OpKind::Extract { value, lsb, width } => Some(
            OpKind::Extract { value: find_partner(from, to, *value), lsb: *lsb, width: *width },
        ),
        OpKind::DynamicExtract { value, offset, width } => Some(
            OpKind::DynamicExtract {
                value: find_partner(from, to, *value),
                offset: find_partner(from, to, *offset),
                width: *width,
            },
        ),
        OpKind::DynamicInsert { value, offset, replacement } => Some(
            OpKind::DynamicInsert {
                value: find_partner(from, to, *value),
                offset: find_partner(from, to, *offset),
                replacement: find_partner(from, to, *replacement),
            },
        ),
        OpKind::Cast { kind: cast, value, target } => Some(
            OpKind::Cast { kind: *cast, value: find_partner(from, to, *value), target: *target },
        ),
        OpKind::TriState { data, enable } => Some(
            OpKind::TriState {
                data: find_partner(from, to, *data),
                enable: Enable {
                    value: find_partner(from, to, enable.value),
                    active_high: enable.active_high,
                },
            },
        ),
        OpKind::Register(_) => None,
        OpKind::Latch(_) => None,
    }
}

/// Single bits put together, the most significant one first.
pub proof fn lemma_concat_single_bits(words: Seq<Seq<bool>>)
    requires
        forall|i: int| 0 <= i < words.len() ==> (#[trigger] words[i]).len() == 1,
    ensures
        concat_bits(words).len() == words.len(),
        forall|i: int|
            0 <= i < words.len() ==> #[trigger] concat_bits(words)[i] == words[words.len() - 1
                - i][0],
    decreases words.len(),
{
    if words.len() > 0 {
        let rest = words.skip(1);
        assert forall|i: int| 0 <= i < rest.len() implies (#[trigger] rest[i]).len() == 1 by {
            assert(rest[i] == words[i + 1]);
        }
        lemma_concat_single_bits(rest);
        let all = concat_bits(words);
        assert(all == concat_bits(rest) + words[0]);
        assert forall|i: int| 0 <= i < words.len() implies #[trigger] all[i]
            == words[words.len() - 1 - i][0] by {
            if i < rest.len() {
                assert(all[i] == concat_bits(rest)[i]);
                assert(rest[rest.len() - 1 - i] == words[words.len() - 1 - i]);
            }
        }
    }
}

} // verus!
