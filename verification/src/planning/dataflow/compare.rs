//! Comparing the values of a module by their structure.

use super::canonical::{
    canonical_operation, evenly_typed, lemma_operands, lemma_operation_alias, lemma_same_key, map_ok,
    mapped, operation_alias, operation_key, row_of, same_value, sound_map, table_means, table_ok,
    unary_arg, value_key, value_scope, AliasOrKey,
};
use super::folding::{
    constants_folded, facts_agree, fold_constants_by, fold_known_values_by, folded_by, folds,
    known_kind, knowns_folded,
};
use super::keys::{finish_row, key_row, key_rows_are_faithful, push_bits, start_row, ValueKey};
use crate::collections::KeyMap;
use crate::error::SynthError;
use crate::planning::fsm::transition::facts_view;
use crate::word::module::{KindView, ModuleView, ValueKind, WordModule};
use crate::word::types::{op_inputs, ConstBits, OpView, UnaryOp, ValueId, WordType};
use vstd::prelude::*;

verus! {

/// How far values have been compared: what they stand for, and the first value
/// of each structure.
pub struct Comparison {
    pub map: Seq<ValueId>,
    pub table: Map<Seq<u64>, u64>,
}

/// A value with a structure: it stands for the first of its kind.
pub open spec fn intern(state: Comparison, value: int, row: Seq<u64>) -> Comparison {
    if state.table.dom().contains(row) {
        Comparison {
            map: state.map.update(value, ValueId { raw: state.table[row] as u32 }),
            ..state
        }
    } else {
        Comparison { table: state.table.insert(row, value as u64), ..state }
    }
}

/// One value more.
#[verifier::opaque]
pub open spec fn compare_next(
    module: ModuleView,
    scopes: Seq<Option<u64>>,
    state: Comparison,
    value: int,
) -> Comparison {
    if state.map[value].raw != value {
        state
    } else {
        match module.values[value].kind {
            KindView::Operation(operation) => match scopes[operation.raw as int] {
                Some(scope) => {
                    let kind = module.operations[operation.raw as int].kind;
                    let ty = module.values[value].ty;
                    match operation_alias(module, kind, ty, state.map, state.table) {
                        Some(alias) => Comparison { map: state.map.update(value, alias), ..state },
                        None => match operation_key(kind, ty, state.map) {
                            Some(key) => intern(state, value, key_row(scope, key)),
                            None => state,
                        },
                    }
                },
                None => state,
            },
            _ => intern(
                state,
                value,
                key_row(0, value_key(module, state.map, value)->0),
            ),
        }
    }
}

/// The comparison of the first values.
pub open spec fn compared(
    module: ModuleView,
    scopes: Seq<Option<u64>>,
    start: Seq<ValueId>,
    count: nat,
) -> Comparison
    decreases count,
{
    if count == 0 {
        Comparison { map: start, table: Map::empty() }
    } else {
        compare_next(
            module,
            scopes,
            compared(module, scopes, start, (count - 1) as nat),
            count - 1,
        )
    }
}

/// Values of a map that were not compared yet are as they were.
proof fn lemma_compared_shape(
    module: ModuleView,
    scopes: Seq<Option<u64>>,
    start: Seq<ValueId>,
    count: nat,
)
    requires
        module.wf(),
        map_ok(module, start),
        count <= module.values.len(),
    ensures
        ({
            let state = compared(module, scopes, start, count);
            &&& map_ok(module, state.map)
            &&& forall|v: int| count <= v < start.len() ==> #[trigger] state.map[v] == start[v]
            &&& forall|row: Seq<u64>| #[trigger]
                state.table.dom().contains(row) ==> state.table[row] < count
        }),
    decreases count,
{
    if count > 0 {
        reveal(compare_next);
        lemma_compared_shape(module, scopes, start, (count - 1) as nat);
        let before = compared(module, scopes, start, (count - 1) as nat);
        let after = compared(module, scopes, start, count);
        let value = ValueId { raw: (count - 1) as u32 };
        assert(module.value_ok(count - 1));
        if let KindView::Operation(operation) = module.values[count - 1].kind {
            assert(module.operation_ok(operation.raw as int));
            let kind = module.operations[operation.raw as int].kind;
            let ty = module.values[count - 1].ty;
            if operation_alias(module, kind, ty, before.map, before.table) is Some {
                lemma_alias_has(module, before, value, kind, ty);
            }
        }
        assert forall|v: int| 0 <= v < after.map.len() implies module.has(
            #[trigger] after.map[v],
        ) by {
            if v != count - 1 {
                assert(after.map[v] == before.map[v]);
            }
        }
    }
}

/// An alias is a value of the module.
proof fn lemma_alias_has(
    module: ModuleView,
    state: Comparison,
    value: ValueId,
    kind: OpView,
    ty: WordType,
)
    requires
        module.wf(),
        map_ok(module, state.map),
        table_ok(module, state.table),
        module.inputs_below(kind, module.values.len() as int),
        operation_alias(module, kind, ty, state.map, state.table) is Some,
    ensures
        module.has(operation_alias(module, kind, ty, state.map, state.table)->0),
{
    let inputs = op_inputs(kind);
    let map = state.map;
    assert forall|i: int| 0 <= i < inputs.len() implies module.has(
        mapped(map, #[trigger] inputs[i]),
    ) by {
        assert(inputs[i].raw < module.values.len());
        assert(module.has(map[inputs[i].raw as int]));
    }
    match kind {
        OpView::Unary { op, arg } => {
            assert(inputs[0] == arg);
            let m = mapped(map, arg);
            lemma_operands(module, m);
            let inner = unary_arg(module, m, UnaryOp::BitNot)->0;
            assert(op_inputs(module.op_of(m)->0)[0] == inner);
            assert(module.has(map[inner.raw as int]));
        },
        OpView::Binary { op, left, right } => {
            assert(inputs[0] == left && inputs[1] == right);
        },
        OpView::Mux { cond, then_value, else_value } => {
            assert(inputs[0] == cond && inputs[1] == then_value && inputs[2] == else_value);
            let c = mapped(map, cond);
            let inner = unary_arg(module, c, UnaryOp::LogicalNot);
            if inner is Some {
                lemma_operands(module, c);
                assert(op_inputs(module.op_of(c)->0)[0] == inner->0);
                assert(module.has(map[inner->0.raw as int]));
            }
        },
        OpView::Concat { parts } => {
            assert(inputs[0] == parts[0]);
        },
        OpView::Extract { value: word, lsb, width } => {
            assert(inputs[0] == word);
        },
        OpView::Cast { kind: cast, value: word, target } => {
            assert(inputs[0] == word);
        },
        _ => {},
    }
}

/// The row of a value depends on what is before it.
proof fn lemma_row_below(
    module: ModuleView,
    before: Seq<ValueId>,
    after: Seq<ValueId>,
    scopes: Seq<Option<u64>>,
    value: int,
    bound: int,
)
    requires
        module.wf(),
        0 <= value <= bound < module.values.len(),
        forall|v: int| 0 <= v < bound ==> #[trigger] after[v] == before[v],
    ensures
        row_of(module, after, scopes, value) == row_of(module, before, scopes, value),
{
    assert(module.value_ok(value));
    if let KindView::Operation(operation) = module.values[value].kind {
        assert(module.operation_ok(operation.raw as int));
        let kind = module.operations[operation.raw as int].kind;
        let inputs = op_inputs(kind);
        assert forall|i: int| 0 <= i < inputs.len() implies mapped(after, #[trigger] inputs[i])
            == mapped(before, inputs[i]) by {
            assert(inputs[i].raw < value);
            assert(after[inputs[i].raw as int] == before[inputs[i].raw as int]);
        }
        match kind {
            OpView::Unary { op, arg } => {
                assert(inputs[0] == arg);
            },
            OpView::Binary { op, left, right } => {
                assert(inputs[0] == left && inputs[1] == right);
            },
            OpView::Mux { cond, then_value, else_value } => {
                assert(inputs[0] == cond && inputs[1] == then_value && inputs[2] == else_value);
            },
            OpView::Concat { parts } => {
                assert(parts.map_values(|part: ValueId| mapped(after, part)) =~= parts.map_values(
                    |part: ValueId| mapped(before, part),
                )) by {
                    assert forall|i: int| 0 <= i < parts.len() implies mapped(after, parts[i])
                        == mapped(before, parts[i]) by {
                        assert(inputs[i] == parts[i]);
                    }
                }
            },
            OpView::Extract { value: word, lsb, width } => {
                assert(inputs[0] == word);
            },
            OpView::DynamicExtract { value: word, offset, width } => {
                assert(inputs[0] == word && inputs[1] == offset);
            },
            OpView::DynamicInsert { value: word, offset, replacement } => {
                assert(inputs[0] == word && inputs[1] == offset && inputs[2] == replacement);
            },
            OpView::Cast { kind: cast, value: word, target } => {
                assert(inputs[0] == word);
            },
            _ => {},
        }
    }
}

/// A value that finds its structure stands for the same value.
proof fn lemma_next_is_the_same(
    module: ModuleView,
    scopes: Seq<Option<u64>>,
    before: Comparison,
    value: ValueId,
)
    requires
        module.wf(),
        evenly_typed(module),
        module.has(value),
        sound_map(module, before.map),
        table_means(module, before.map, scopes, before.table, value.raw as int),
    ensures
        same_value(
            module,
            value,
            compare_next(module, scopes, before, value.raw as int).map[value.raw as int],
        ),
{
    reveal(compare_next);
    let at = value.raw as int;
    let after = compare_next(module, scopes, before, at);
    let row = row_of(module, before.map, scopes, at);
    assert(module.value_ok(at));
    assert(same_value(module, value, before.map[at]));
    if before.map[at].raw == at {
        if let KindView::Operation(operation) = module.values[at].kind {
            if scopes[operation.raw as int] is Some {
                let kind = module.operations[operation.raw as int].kind;
                let ty = module.values[at].ty;
                let alias = operation_alias(module, kind, ty, before.map, before.table);
                if alias is Some {
                    lemma_operation_alias(
                        module,
                        before.map,
                        scopes,
                        before.table,
                        value,
                        alias->0,
                    );
                    assert(after.map[at] == alias->0);
                }
            }
        }
        if after.map[at] != before.map[at] && row is Some && before.table.dom().contains(row->0)
            && after.map[at].raw == before.table[row->0] as u32 {
            let first = after.map[at];
            assert(row_of(module, before.map, scopes, before.table[row->0] as int) == row);
            key_rows_are_faithful(
                value_scope(module, scopes, first.raw as int)->0,
                value_key(module, before.map, first.raw as int)->0,
                value_scope(module, scopes, at)->0,
                value_key(module, before.map, at)->0,
            );
            lemma_same_key(module, before.map, value, first);
        }
    }
}

/// The structures that were found stay those of the values they belong to.
proof fn lemma_next_table(
    module: ModuleView,
    scopes: Seq<Option<u64>>,
    before: Comparison,
    at: int,
)
    requires
        module.wf(),
        0 <= at < module.values.len(),
        before.map.len() == module.values.len(),
        table_means(module, before.map, scopes, before.table, at),
    ensures
        ({
            let after = compare_next(module, scopes, before, at);
            &&& table_means(module, after.map, scopes, after.table, at + 1)
            &&& after.map.len() == before.map.len()
            &&& forall|v: int|
                0 <= v < after.map.len() && v != at ==> #[trigger] after.map[v] == before.map[v]
        }),
{
    reveal(compare_next);
    let after = compare_next(module, scopes, before, at);
    let row = row_of(module, before.map, scopes, at);
    assert forall|other: Seq<u64>| #[trigger] after.table.dom().contains(other) implies {
        &&& after.table[other] < at + 1
        &&& row_of(module, after.map, scopes, after.table[other] as int) == Some(other)
    } by {
        if before.table.dom().contains(other) {
            assert(row_of(module, before.map, scopes, before.table[other] as int) == Some(other));
            lemma_row_below(
                module,
                before.map,
                after.map,
                scopes,
                before.table[other] as int,
                at,
            );
        } else {
            assert(row == Some(other));
            lemma_row_below(module, before.map, after.map, scopes, at, at);
        }
    }
}

/// Values that stand for each other after a comparison are the same, if they
/// were before.
pub proof fn compared_values_are_the_same(
    module: ModuleView,
    scopes: Seq<Option<u64>>,
    start: Seq<ValueId>,
    count: nat,
)
    requires
        module.wf(),
        evenly_typed(module),
        sound_map(module, start),
        count <= module.values.len(),
    ensures
        sound_map(module, compared(module, scopes, start, count).map),
        table_means(
            module,
            compared(module, scopes, start, count).map,
            scopes,
            compared(module, scopes, start, count).table,
            count as int,
        ),
    decreases count,
{
    if count > 0 {
        compared_values_are_the_same(module, scopes, start, (count - 1) as nat);
        let before = compared(module, scopes, start, (count - 1) as nat);
        let after = compared(module, scopes, start, count);
        let at = count - 1;
        let value = ValueId { raw: at as u32 };
        assert(module.has(value));
        lemma_next_is_the_same(module, scopes, before, value);
        lemma_next_table(module, scopes, before, at);
        assert forall|v: ValueId| module.has(v) implies same_value(
            module,
            v,
            #[trigger] after.map[v.raw as int],
        ) by {
            assert(same_value(module, v, before.map[v.raw as int]));
            if v.raw != at {
                assert(after.map[v.raw as int] == before.map[v.raw as int]);
            } else {
                assert(v == value);
            }
        }
    }
}

/// The operations that are in some scope.
pub open spec fn permits(scopes: Seq<Option<u64>>) -> Seq<bool> {
    scopes.map_values(|scope: Option<u64>| scope is Some)
}

/// The scope of every value is one of the operations'.
fn scopes_permit(scopes: &Vec<Option<u64>>) -> (permitted: Vec<bool>)
    ensures
        permitted@.len() == scopes@.len(),
        forall|i: int| 0 <= i < scopes@.len() ==> #[trigger] permitted@[i] == (scopes@[i] is Some),
{
    let mut permitted: Vec<bool> = Vec::new();
    let mut i: usize = 0;
    while i < scopes.len()
        invariant
            i <= scopes@.len(),
            permitted@.len() == i,
            forall|j: int| 0 <= j < i ==> #[trigger] permitted@[j] == (scopes@[j] is Some),
        decreases scopes.len() - i,
    {
        permitted.push(scopes[i].is_some());
        i += 1;
    }
    permitted
}

/// Compares the values of a module, structure by structure.
#[verifier::rlimit(60)]
fn compare_values(module: &WordModule, canonical: &mut Vec<ValueId>, scopes: &Vec<Option<u64>>)
    requires
        module@.wf(),
        map_ok(module@, old(canonical)@),
        scopes@.len() == module@.operations.len(),
    ensures
        final(canonical)@ == compared(
            module@,
            scopes@,
            old(canonical)@,
            module@.values.len(),
        ).map,
{
    let ghost view = module@;
    let ghost start = canonical@;
    let mut interned = KeyMap::new();
    let mut i: usize = 0;
    while i < module.values.len()
        invariant
            view == module@,
            view.wf(),
            start == old(canonical)@,
            map_ok(view, start),
            scopes@.len() == view.operations.len(),
            i <= view.values.len(),
            canonical@ == compared(view, scopes@, start, i as nat).map,
            interned@ == compared(view, scopes@, start, i as nat).table,
        decreases module.values.len() - i,
    {
        let ghost before = compared(view, scopes@, start, i as nat);
        let ghost after = compared(view, scopes@, start, (i + 1) as nat);
        proof {
            lemma_compared_shape(view, scopes@, start, i as nat);
            reveal(compare_next);
            assert(after == compare_next(view, scopes@, before, i as int));
        }
        if canonical[i].raw as usize != i {
            i += 1;
            continue ;
        }
        let stored = &module.values[i];
        assert(stored@ == view.values[i as int]);
        assert(view.value_ok(i as int));
        let found = match &stored.kind {
            ValueKind::Signal(reference) => {
                let row = finish_row(
                    start_row(0, 0, stored.ty),
                    reference.signal.raw as u64,
                    reference.lsb as u64,
                    reference.width as u64,
                );
                assert(row@ =~= key_row(0, ValueKey::Signal(*reference, stored.ty)));
                AliasOrKey::Key(row)
            },
            ValueKind::Constant(bits) => {
                let mut row = start_row(0, 1, stored.ty);
                push_bits(&mut row, &bits.bits);
                assert(row@ =~= key_row(0, ValueKey::Constant(bits@, stored.ty)));
                AliasOrKey::Key(row)
            },
            ValueKind::Operation(operation) => {
                let place: usize = operation.raw as usize;
                let kind = &module.operations[place].kind;
                assert(kind@ == view.operations[place as int].kind);
                assert(view.operation_ok(place as int));
                match scopes[place] {
                    Some(scope) => canonical_operation(
                        module,
                        kind,
                        stored.ty,
                        canonical,
                        scope,
                        &interned,
                    ),
                    None => {
                        i += 1;
                        continue ;
                    },
                }
            },
        };
        match found {
            AliasOrKey::Alias(alias) => {
                canonical.set(i, alias);
            },
            AliasOrKey::Key(row) => {
                match interned.get(&row) {
                    Some(first) => {
                        assert(before.table.dom().contains(row@));
                        canonical.set(i, ValueId { raw: first as u32 });
                    },
                    None => {
                        interned.insert(row, i as u64);
                    },
                }
            },
            AliasOrKey::Unique => {},
        }
        i += 1;
    }
}

/// Folds constants, and makes every value stand for the first one that computes
/// the same.
pub fn canonicalize_values_by(
    module: &mut WordModule,
    canonical: &mut Vec<ValueId>,
    scopes: &Vec<Option<u64>>,
    facts: &Vec<Option<ConstBits>>,
) -> (result: Result<(), SynthError>)
    requires
        old(module)@.wf(),
        map_ok(old(module)@, old(canonical)@),
        scopes@.len() == old(module)@.operations.len(),
        facts_agree(old(module)@, facts_view(facts@)),
    ensures
        result is Ok,
        folds(old(module)@, final(module)@),
        folded_by(old(module)@, final(module)@, permits(scopes@), facts_view(facts@)),
        final(module)@.wf(),
        final(canonical)@ == compared(
            final(module)@,
            scopes@,
            old(canonical)@,
            final(module)@.values.len(),
        ).map,
        map_ok(final(module)@, final(canonical)@),
{
    let ghost start = module@;
    let permitted = scopes_permit(scopes);
    match fold_constants_by(module, &permitted) {
        Ok(()) => {},
        Err(error) => return Err(error),
    }
    let ghost middle = module@;
    fold_known_values_by(module, &permitted, facts, Ghost(start));
    proof {
        assert(permitted@ =~= permits(scopes@));
        assert(constants_folded(start, middle, permitted@));
        assert forall|v: int| 0 <= v < middle.values.len() implies (#[trigger] module@.values[v]).kind
            == known_kind(middle, permitted@, facts_view(facts@), v) by {
            if facts@[v] is Some {
                assert(facts_view(facts@)[v] == Some(facts@[v]->0@));
            }
        }
        assert(knowns_folded(middle, module@, permitted@, facts_view(facts@)));
    }
    assert(map_ok(module@, canonical@));
    compare_values(module, canonical, scopes);
    proof {
        lemma_compared_shape(module@, scopes@, old(canonical)@, module@.values.len());
    }
    Ok(())
}

} // verus!
