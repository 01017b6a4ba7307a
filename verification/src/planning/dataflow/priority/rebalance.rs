//! Replacing chains of selections by trees.

use super::balance::{
    any_holds, any_set, balanced_or, build_tree, has_root, ids_in, is_or_tree, lemma_chosen,
    lemma_joined, lemma_op_keeps, lemma_or_keeps, lemma_tree_keeps, levels_in, PriorityNode,
};
use super::chain::{
    chain_of, chosen, conditions, entries_ok, entry_ok, holds, is_default, lemma_chain_word,
    trace_chain, ChainView, PriorityChain, PriorityDefault, PriorityEntry,
};
use crate::error::{SynthError, Unsupported};
use crate::word::emit::{lemma_stable, ran_out, stable};
use crate::word::module::{Connect, KindView, ModuleView, ValueKind, WordModule};
use crate::word::numbers::{all_known, known_word};
use crate::word::semantics::{constant_value, word_of, Env};
use crate::word::types::{
    bit_lsb, BitVal, ConstBits, OpView, SourceSpan, ValueId, WordType,
};
use vstd::prelude::*;

verus! {

pub open spec fn all_values_equal(entries: Seq<PriorityEntry>) -> bool {
    forall|i: int| 0 <= i < entries.len() ==> (#[trigger] entries[i]).value == entries[0].value
}

/// A disjunction of the conditions selects the one value that there is.
pub open spec fn rebuilt_as_or(
    module: ModuleView,
    entries: Seq<PriorityEntry>,
    default: ValueId,
    value: ValueId,
    levels: Seq<Seq<ValueId>>,
    valid: ValueId,
) -> bool {
    &&& is_or_tree(module, levels, conditions(entries))
    &&& ids_in(module, levels)
    &&& module.has(value)
    &&& levels.last() == seq![valid]
    &&& module.op_of(value) == Some(
        OpView::Mux { cond: valid, then_value: entries[0].value, else_value: default },
    )
}

/// A tree over the entries, with a selection of the default unless the entry of
/// lowest priority has it.
pub open spec fn rebuilt_as_tree(
    module: ModuleView,
    entries: Seq<PriorityEntry>,
    default: ValueId,
    value: ValueId,
    levels: Seq<Seq<PriorityNode>>,
    root: PriorityNode,
) -> bool {
    &&& has_root(module, levels, entries, root)
    &&& levels_in(module, levels)
    &&& module.has(value)
    &&& if entries[0].value == default {
        value == root.value
    } else {
        module.op_of(value) == Some(
            OpView::Mux { cond: root.valid, then_value: root.value, else_value: default },
        )
    }
}

/// A value that stands for a chain, by a tree of logarithmic depth.
pub open spec fn rebuilt(
    module: ModuleView,
    entries: Seq<PriorityEntry>,
    default: ValueId,
    value: ValueId,
) -> bool {
    if all_values_equal(entries) {
        exists|levels: Seq<Seq<ValueId>>, valid: ValueId| #[trigger]
            rebuilt_as_or(module, entries, default, value, levels, valid)
    } else {
        exists|levels: Seq<Seq<PriorityNode>>, root: PriorityNode| #[trigger]
            rebuilt_as_tree(module, entries, default, value, levels, root)
    }
}

/// Whether an entry holds and whether its condition is set are the same.
proof fn lemma_any(module: ModuleView, env: Env, entries: Seq<PriorityEntry>)
    ensures
        any_holds(module, env, entries) == any_set(module, env, conditions(entries)),
    decreases entries.len(),
{
    let all = conditions(entries);
    if entries.len() > 0 {
        lemma_any(module, env, entries.drop_last());
        let rest = conditions(entries.drop_last());
        assert(all[all.len() - 1] == entries.last().condition);
        if any_set(module, env, rest) {
            let i = choose|i: int| 0 <= i < rest.len() && #[trigger] holds(module, env, rest[i]);
            assert(rest[i] == all[i]);
            assert(holds(module, env, all[i]));
        }
        if holds(module, env, entries.last().condition) {
            assert(holds(module, env, all[all.len() - 1]));
        }
        if any_set(module, env, all) && !holds(module, env, entries.last().condition) {
            let i = choose|i: int| 0 <= i < all.len() && #[trigger] holds(module, env, all[i]);
            assert(i < rest.len());
            assert(rest[i] == all[i]);
            assert(holds(module, env, rest[i]));
        }
    }
}

/// Where all values are one, it is chosen wherever a condition holds.
proof fn lemma_equal_values(
    module: ModuleView,
    env: Env,
    entries: Seq<PriorityEntry>,
    value: ValueId,
    default: Seq<bool>,
)
    requires
        forall|i: int| 0 <= i < entries.len() ==> (#[trigger] entries[i]).value == value,
    ensures
        chosen(module, env, entries, default) == (if any_holds(module, env, entries) {
            word_of(module, env, value)
        } else {
            default
        }),
    decreases entries.len(),
{
    if entries.len() > 0 {
        assert forall|i: int| 0 <= i < entries.drop_last().len() implies (
        #[trigger] entries.drop_last()[i]).value == value by {
            assert(entries.drop_last()[i] == entries[i]);
        }
        lemma_equal_values(module, env, entries.drop_last(), value, default);
        assert(entries[entries.len() - 1].value == value);
    }
}

fn values_are_equal(entries: &Vec<PriorityEntry>) -> (equal: bool)
    requires
        entries@.len() > 0,
    ensures
        equal == all_values_equal(entries@),
{
    let mut i: usize = 0;
    while i < entries.len()
        invariant
            entries@.len() > 0,
            i <= entries@.len(),
            forall|k: int| 0 <= k < i ==> (#[trigger] entries@[k]).value == entries@[0].value,
        decreases entries.len() - i,
    {
        if entries[i].value != entries[0].value {
            assert(entries@[i as int].value != entries@[0].value);
            return false;
        }
        i += 1;
    }
    true
}

fn list_conditions(entries: &Vec<PriorityEntry>) -> (list: Vec<ValueId>)
    ensures
        list@ == conditions(entries@),
{
    let mut list: Vec<ValueId> = Vec::new();
    let mut i: usize = 0;
    while i < entries.len()
        invariant
            i <= entries@.len(),
            list@ =~= conditions(entries@).take(i as int),
        decreases entries.len() - i,
    {
        list.push(entries[i].condition);
        i += 1;
    }
    list
}

/// Builds the tree that stands for a chain.
#[verifier::rlimit(60)]
pub fn build_chain(
    module: &mut WordModule,
    entries: &Vec<PriorityEntry>,
    default: ValueId,
    source: SourceSpan,
    Ghost(width): Ghost<u32>,
) -> (result: Result<ValueId, SynthError>)
    requires
        old(module)@.wf(),
        entries@.len() > 0,
        entries_ok(old(module)@, entries@, width),
        old(module)@.has(default),
        old(module)@.ty(default).width == width,
    ensures
        stable(old(module)@, final(module)@),
        result matches Ok(value) ==> {
            &&& final(module)@.has(value)
            &&& final(module)@.ty(value).width == width
            &&& rebuilt(final(module)@, entries@, default, value)
            &&& forall|env: Env| #[trigger]
                word_of(final(module)@, env, value) == chosen(
                    old(module)@,
                    env,
                    entries@,
                    word_of(old(module)@, env, default),
                )
        },
        result matches Err(error) ==> ran_out(final(module)@, error),
{
    let ghost start = module@;
    assert(entry_ok(start, entries@[0], width));
    if values_are_equal(entries) {
        let list = list_conditions(entries);
        assert forall|i: int| 0 <= i < list@.len() implies start.has(#[trigger] list@[i])
            && start.ty(list@[i]).width == 1 by {
            assert(entry_ok(start, entries@[i], width));
        }
        let (valid, levels) = match balanced_or(module, &list, source) {
            Ok(pair) => pair,
            Err(error) => return Err(error),
        };
        let ghost middle = module@;
        let value = match module.emit_mux(valid, entries[0].value, default, source) {
            Ok(value) => value,
            Err(error) => return Err(error),
        };
        proof {
            lemma_or_keeps(middle, module@, levels@, list@);
            assert(rebuilt_as_or(module@, entries@, default, value, levels@, valid));
            assert forall|env: Env| #[trigger]
                word_of(module@, env, value) == chosen(
                    start,
                    env,
                    entries@,
                    word_of(start, env, default),
                ) by {
                lemma_any(start, env, entries@);
                lemma_equal_values(
                    start,
                    env,
                    entries@,
                    entries@[0].value,
                    word_of(start, env, default),
                );
                assert(word_of(middle, env, default) == word_of(start, env, default));
                assert(word_of(middle, env, entries@[0].value) == word_of(
                    start,
                    env,
                    entries@[0].value,
                ));
                assert(holds(middle, env, valid) == any_set(start, env, list@));
            }
        }
        return Ok(value);
    }
    let (root, levels) = match build_tree(module, entries, source, Ghost(width)) {
        Ok(pair) => pair,
        Err(error) => return Err(error),
    };
    let ghost middle = module@;
    if entries[0].value == default {
        proof {
            assert(rebuilt_as_tree(module@, entries@, default, root.value, levels@, root));
        }
        return Ok(root.value);
    }
    let value = match module.emit_mux(root.valid, root.value, default, source) {
        Ok(value) => value,
        Err(error) => return Err(error),
    };
    proof {
        lemma_tree_keeps(middle, module@, levels@, entries@);
        assert(rebuilt_as_tree(module@, entries@, default, value, levels@, root));
        assert forall|env: Env| #[trigger]
            word_of(module@, env, value) == chosen(
                start,
                env,
                entries@,
                word_of(start, env, default),
            ) by {
            assert(word_of(middle, env, default) == word_of(start, env, default));
            assert(word_of(middle, env, root.valid) == seq![any_holds(start, env, entries@)]);
            lemma_chosen(
                start,
                env,
                entries@,
                word_of(start, env, default),
                word_of(start, env, entries@[0].value),
            );
        }
    }
    Ok(value)
}

/// Whether a value is a constant of a type whose lowest bit is clear.
pub open spec fn is_false(module: ModuleView, value: ValueId, ty: WordType) -> bool {
    &&& module.has(value)
    &&& module.ty(value) == ty
    &&& module.kind(value) matches KindView::Constant(bits) && bit_lsb(bits, 0) is Zero
}

proof fn lemma_false_word(module: ModuleView, value: ValueId, ty: WordType)
    requires
        module.wf(),
        ty.width == 1,
        is_false(module, value, ty),
    ensures
        forall|env: Env| #[trigger] word_of(module, env, value) == seq![false],
{
    assert(module.value_ok(value.raw as int));
    let bits = module.kind(value)->Constant_0;
    assert(bits.len() == 1);
    assert forall|env: Env| #[trigger] word_of(module, env, value) == seq![false] by {
        assert(constant_value(bits, env, value.raw as int) =~= seq![false]);
    }
}

/// The first false constant of a type, or a new one.
fn false_constant(module: &mut WordModule, ty: WordType) -> (result: Result<ValueId, SynthError>)
    requires
        old(module)@.wf(),
        ty.width == 1,
    ensures
        stable(old(module)@, final(module)@),
        final(module)@.operations == old(module)@.operations,
        result matches Ok(value) ==> {
            &&& final(module)@.has(value)
            &&& final(module)@.ty(value) == ty
            &&& forall|env: Env| #[trigger] word_of(final(module)@, env, value) == seq![false]
            &&& is_false(old(module)@, value, ty) && (forall|other: ValueId|
                other.raw < value.raw ==> !#[trigger] is_false(old(module)@, other, ty))
                && final(module)@ == old(module)@ || value == old(module)@.next_value() && (forall|
                other: ValueId,
            | !#[trigger] is_false(old(module)@, other, ty))
        },
        result matches Err(error) ==> ran_out(final(module)@, error),
{
    let ghost start = module@;
    proof {
        lemma_stable(start, start);
    }
    let mut v: usize = 0;
    while v < module.values.len()
        invariant
            module@ == start,
            start.wf(),
            stable(start, start),
            ty.width == 1,
            start == old(module)@,
            v <= start.values.len(),
            forall|other: ValueId| other.raw < v ==> !#[trigger] is_false(start, other, ty),
        decreases module.values.len() - v,
    {
        let stored = &module.values[v];
        assert(stored@ == start.values[v as int]);
        assert(start.value_ok(v as int));
        let value = ValueId { raw: v as u32 };
        if stored.ty == ty {
            if let ValueKind::Constant(bits) = &stored.kind {
                if let Some(BitVal::Zero) = bits.bit_lsb(0) {
                    proof {
                        assert(is_false(start, value, ty));
                        lemma_false_word(start, value, ty);
                    }
                    return Ok(value);
                }
            }
        }
        assert(!is_false(start, value, ty));
        v += 1;
    }
    let mut bits: Vec<BitVal> = Vec::new();
    bits.push(BitVal::Zero);
    let constant = ConstBits { bits };
    let ghost held = constant@;
    assert(held =~= seq![BitVal::Zero]);
    let result = module.emit_constant(constant, ty, SourceSpan::default());
    proof {
        assert(all_known(held));
        assert(known_word(held) =~= seq![false]);
        assert forall|other: ValueId| !#[trigger] is_false(start, other, ty) by {}
    }
    result
}


/// A rebuilt chain stays one while a module grows.
proof fn lemma_rebuilt_keeps(
    before: ModuleView,
    after: ModuleView,
    entries: Seq<PriorityEntry>,
    default: ValueId,
    value: ValueId,
)
    requires
        stable(before, after),
        rebuilt(before, entries, default, value),
    ensures
        rebuilt(after, entries, default, value),
{
    if all_values_equal(entries) {
        let (levels, valid) = choose|levels: Seq<Seq<ValueId>>, valid: ValueId| #[trigger]
            rebuilt_as_or(before, entries, default, value, levels, valid);
        lemma_or_keeps(before, after, levels, conditions(entries));
        lemma_op_keeps(before, after, value);
        assert(rebuilt_as_or(after, entries, default, value, levels, valid));
    } else {
        let (levels, root) = choose|levels: Seq<Seq<PriorityNode>>, root: PriorityNode| #[trigger]
            rebuilt_as_tree(before, entries, default, value, levels, root);
        lemma_tree_keeps(before, after, levels, entries);
        lemma_op_keeps(before, after, value);
        assert(rebuilt_as_tree(after, entries, default, value, levels, root));
    }
}

/// The operations that were appended for one chain, and the scope they belong
/// to.
#[derive(Clone, Copy, PartialEq, Eq, Structural, Debug)]
pub struct GeneratedOperations {
    pub start: usize,
    pub end: usize,
    pub scope: u32,
}

pub struct RebalanceResult {
    pub changed: bool,
    pub generated: Vec<GeneratedOperations>,
}

/// The one scope that all selections of a chain belong to.
pub open spec fn common_scope(scopes: Seq<Option<u32>>, nodes: Seq<ValueId>) -> Option<u32> {
    if nodes.len() > 0 && scopes[nodes[0].raw as int] is Some && (forall|i: int|
        0 <= i < nodes.len() ==> scopes[(#[trigger] nodes[i]).raw as int]
            == scopes[nodes[0].raw as int]) {
        scopes[nodes[0].raw as int]
    } else {
        None
    }
}

/// The scope of the chain at a connection, if it is long enough to be rebuilt.
pub open spec fn taken_scope(module: ModuleView, scopes: Seq<Option<u32>>, connect: int) -> Option<u32> {
    match chain_of(module, module.connects[connect].value) {
        Some(chain) => if chain.entries.len() >= 4 {
            common_scope(scopes, chain.nodes)
        } else {
            None
        },
        None => None,
    }
}

/// The connections among the first ones whose chains are rebuilt.
pub open spec fn taken(module: ModuleView, scopes: Seq<Option<u32>>, count: nat) -> Seq<int>
    decreases count,
{
    if count == 0 {
        seq![]
    } else {
        let below = taken(module, scopes, (count - 1) as nat);
        if taken_scope(module, scopes, count - 1) is Some {
            below.push(count - 1)
        } else {
            below
        }
    }
}

/// The chain at a connection.
pub open spec fn chain_at(module: ModuleView, connect: int) -> ChainView {
    chain_of(module, module.connects[connect].value)->0
}

/// The conditions of the chains that are rebuilt.
pub open spec fn condition_rows(module: ModuleView, scopes: Seq<Option<u32>>) -> Seq<Seq<ValueId>> {
    taken(module, scopes, module.connects.len()).map_values(
        |connect: int| conditions(chain_at(module, connect).entries),
    )
}

pub open spec fn ends_with(long: Seq<ValueId>, short: Seq<ValueId>) -> bool {
    short.len() <= long.len() && long.skip(long.len() - short.len()) == short
}

/// The longest of the first rows that ends with a row; of several the last.
pub open spec fn master(rows: Seq<Seq<ValueId>>, row: Seq<ValueId>, count: nat) -> Option<int>
    decreases count,
{
    if count == 0 {
        None
    } else {
        let below = master(rows, row, (count - 1) as nat);
        if ends_with(rows[count - 1], row) && (below is None || rows[count - 1].len()
            >= rows[below->0].len()) {
            Some(count - 1)
        } else {
            below
        }
    }
}

/// Entries preceded by the conditions of a longer row, which choose the default.
pub open spec fn aligned(entries: Seq<PriorityEntry>, row: Seq<ValueId>, default: ValueId) -> Seq<
    PriorityEntry,
> {
    Seq::new(
        (row.len() - entries.len()) as nat,
        |k: int| PriorityEntry { condition: row[k], value: default },
    ) + entries
}

/// The entries of a chain once it is aligned with the longest one that ends
/// like it.
pub open spec fn aligned_chain(
    module: ModuleView,
    scopes: Seq<Option<u32>>,
    connect: int,
    default: ValueId,
) -> Seq<PriorityEntry> {
    let rows = condition_rows(module, scopes);
    let entries = chain_at(module, connect).entries;
    aligned(entries, rows[master(rows, conditions(entries), rows.len())->0], default)
}

/// A value that takes the place of a chain.
pub open spec fn replaces_chain(
    before: ModuleView,
    after: ModuleView,
    scopes: Seq<Option<u32>>,
    connect: int,
    default: ValueId,
    value: ValueId,
) -> bool {
    &&& is_default(after, chain_at(before, connect).default, default)
    &&& rebuilt(after, aligned_chain(before, scopes, connect, default), default, value)
    &&& after.has(value)
    &&& forall|env: Env| #[trigger]
        word_of(after, env, value) == word_of(before, env, before.connects[connect].value)
}

pub open spec fn has_replacement(
    before: ModuleView,
    after: ModuleView,
    scopes: Seq<Option<u32>>,
    connect: int,
    value: ValueId,
) -> bool {
    exists|default: ValueId| #[trigger]
        replaces_chain(before, after, scopes, connect, default, value)
}

proof fn lemma_replaces_keeps(
    start: ModuleView,
    before: ModuleView,
    after: ModuleView,
    scopes: Seq<Option<u32>>,
    connect: int,
    value: ValueId,
)
    requires
        stable(before, after),
        has_replacement(start, before, scopes, connect, value),
    ensures
        has_replacement(start, after, scopes, connect, value),
{
    let default = choose|default: ValueId| #[trigger]
        replaces_chain(start, before, scopes, connect, default, value);
    lemma_rebuilt_keeps(
        before,
        after,
        aligned_chain(start, scopes, connect, default),
        default,
        value,
    );
    assert forall|env: Env| #[trigger]
        word_of(after, env, value) == word_of(start, env, start.connects[connect].value) by {
        assert(word_of(after, env, value) == word_of(before, env, value));
    }
    lemma_default_keeps(before, after, chain_at(start, connect).default, default);
    assert(replaces_chain(start, after, scopes, connect, default, value));
}

proof fn lemma_default_keeps(
    before: ModuleView,
    after: ModuleView,
    default: PriorityDefault,
    value: ValueId,
)
    requires
        stable(before, after),
        is_default(before, default, value),
    ensures
        is_default(after, default, value),
{
    if let PriorityDefault::BooleanFalse(ty) = default {
        assert forall|env: Env| #[trigger] word_of(after, env, value) == seq![false] by {
            assert(word_of(after, env, value) == word_of(before, env, value));
        }
    }
}

/// What is chosen does not change while a module grows.
proof fn lemma_chosen_keeps(
    before: ModuleView,
    after: ModuleView,
    env: Env,
    entries: Seq<PriorityEntry>,
    default: Seq<bool>,
    width: u32,
)
    requires
        stable(before, after),
        entries_ok(before, entries, width),
    ensures
        chosen(after, env, entries, default) == chosen(before, env, entries, default),
    decreases entries.len(),
{
    if entries.len() > 0 {
        assert(entry_ok(before, entries[entries.len() - 1], width));
        assert forall|i: int| 0 <= i < entries.drop_last().len() implies entry_ok(
            before,
            #[trigger] entries.drop_last()[i],
            width,
        ) by {
            assert(entries.drop_last()[i] == entries[i]);
        }
        lemma_chosen_keeps(before, after, env, entries.drop_last(), default, width);
        let last = entries.last();
        assert(word_of(after, env, last.condition) == word_of(before, env, last.condition));
        assert(word_of(after, env, last.value) == word_of(before, env, last.value));
    }
}

proof fn lemma_taken(module: ModuleView, scopes: Seq<Option<u32>>, count: nat)
    requires
        count <= module.connects.len(),
    ensures
        forall|k: int|
            0 <= k < taken(module, scopes, count).len() ==> 0 <= #[trigger] taken(
                module,
                scopes,
                count,
            )[k] < count && taken_scope(module, scopes, taken(module, scopes, count)[k]) is Some,
        forall|j: int, k: int|
            0 <= j < k < taken(module, scopes, count).len() ==> taken(module, scopes, count)[j]
                < taken(module, scopes, count)[k],
        forall|c: int|
            0 <= c < count && #[trigger] taken_scope(module, scopes, c) is Some ==> taken(
                module,
                scopes,
                count,
            ).contains(c),
    decreases count,
{
    if count > 0 {
        lemma_taken(module, scopes, (count - 1) as nat);
        let below = taken(module, scopes, (count - 1) as nat);
        let all = taken(module, scopes, count);
        assert forall|c: int|
            0 <= c < count && #[trigger] taken_scope(module, scopes, c) is Some implies all.contains(
            c,
        ) by {
            if c < count - 1 {
                let k = choose|k: int| 0 <= k < below.len() && below[k] == c;
                assert(all[k] == c);
            } else {
                assert(all[all.len() - 1] == c);
            }
        }
    }
}

fn find_common_scope(scopes: &Vec<Option<u32>>, nodes: &Vec<ValueId>) -> (scope: Option<u32>)
    requires
        forall|i: int| 0 <= i < nodes@.len() ==> (#[trigger] nodes@[i]).raw < scopes@.len(),
    ensures
        scope == common_scope(scopes@, nodes@),
{
    if nodes.len() == 0 {
        return None;
    }
    assert(nodes@[0].raw < scopes@.len());
    let first = scopes[nodes[0].raw as usize];
    if first.is_none() {
        return None;
    }
    let mut i: usize = 0;
    while i < nodes.len()
        invariant
            nodes@.len() > 0,
            first == scopes@[nodes@[0].raw as int],
            first is Some,
            forall|i: int| 0 <= i < nodes@.len() ==> (#[trigger] nodes@[i]).raw < scopes@.len(),
            i <= nodes@.len(),
            forall|k: int|
                0 <= k < i ==> scopes@[(#[trigger] nodes@[k]).raw as int] == first,
        decreases nodes.len() - i,
    {
        assert(nodes@[i as int].raw < scopes@.len());
        let same = match (scopes[nodes[i].raw as usize], first) {
            (Some(left), Some(right)) => left == right,
            _ => false,
        };
        if !same {
            assert(scopes@[nodes@[i as int].raw as int] != first);
            return None;
        }
        i += 1;
    }
    first
}

fn row_ends_with(long: &Vec<ValueId>, short: &Vec<ValueId>) -> (ends: bool)
    ensures
        ends == ends_with(long@, short@),
{
    if short.len() > long.len() {
        return false;
    }
    let total: usize = long.len();
    let offset: usize = total - short.len();
    let mut i: usize = 0;
    while i < short.len()
        invariant
            total == long@.len(),
            offset == long@.len() - short@.len(),
            short@.len() <= long@.len(),
            i <= short@.len(),
            forall|k: int| 0 <= k < i ==> long@[offset + k] == #[trigger] short@[k],
        decreases short.len() - i,
    {
        if long[offset + i] != short[i] {
            assert(long@.skip(offset as int)[i as int] != short@[i as int]);
            return false;
        }
        i += 1;
    }
    assert(long@.skip(offset as int) =~= short@);
    true
}

pub open spec fn row_views(rows: Seq<Vec<ValueId>>) -> Seq<Seq<ValueId>> {
    rows.map_values(|row: Vec<ValueId>| row@)
}

/// The longest row that ends with a row.
fn find_master(rows: &Vec<Vec<ValueId>>, row: &Vec<ValueId>) -> (found: Option<usize>)
    ensures
        match found {
            Some(place) => place < rows@.len() && master(
                row_views(rows@),
                row@,
                rows@.len(),
            ) == Some(place as int),
            None => master(row_views(rows@), row@, rows@.len()) is None,
        },
{
    let ghost views = row_views(rows@);
    let mut found: Option<usize> = None;
    let mut i: usize = 0;
    while i < rows.len()
        invariant
            views == row_views(rows@),
            i <= rows@.len(),
            match found {
                Some(place) => place < i && master(views, row@, i as nat) == Some(place as int),
                None => master(views, row@, i as nat) is None,
            },
        decreases rows.len() - i,
    {
        assert(views[i as int] == rows@[i as int]@);
        if row_ends_with(&rows[i], row) {
            let longer = match found {
                Some(place) => {
                    assert(views[place as int] == rows@[place as int]@);
                    rows[i].len() >= rows[place].len()
                },
                None => true,
            };
            if longer {
                found = Some(i);
            }
        }
        i += 1;
    }
    found
}

/// A row ends with itself, so it has a master, which ends with it.
proof fn lemma_master(rows: Seq<Seq<ValueId>>, row: Seq<ValueId>, count: nat)
    requires
        count <= rows.len(),
    ensures
        master(rows, row, count) matches Some(place) ==> 0 <= place < count && ends_with(
            rows[place],
            row,
        ),
        (exists|i: int| 0 <= i < count && #[trigger] rows[i] == row) ==> master(rows, row, count)
            is Some,
    decreases count,
{
    if count > 0 {
        lemma_master(rows, row, (count - 1) as nat);
        if rows[count - 1] == row {
            assert(row.skip(0) =~= row);
        }
    }
}


/// The chains that are rebuilt, in the order of their connections.
spec fn chains_listed(
    module: ModuleView,
    scopes: Seq<Option<u32>>,
    chains: Seq<PriorityChain>,
    labels: Seq<u32>,
    count: nat,
) -> bool {
    let places = taken(module, scopes, count);
    &&& chains.len() == places.len()
    &&& labels.len() == places.len()
    &&& forall|k: int|
        0 <= k < chains.len() ==> chain_listed(
            module,
            scopes,
            places[k],
            #[trigger] chains[k],
            labels[k],
        )
}

spec fn chain_listed(
    module: ModuleView,
    scopes: Seq<Option<u32>>,
    place: int,
    chain: PriorityChain,
    label: u32,
) -> bool {
    &&& chain.connect == place
    &&& chain.source == module.connects[place].source
    &&& chain_of(module, module.connects[place].value) == Some(
        ChainView { nodes: chain.nodes@, entries: chain.entries@, default: chain.default },
    )
    &&& taken_scope(module, scopes, place) == Some(label)
}

/// Lists the chains that are rebuilt, with their scopes.
fn list_chains(module: &WordModule, scopes: &Vec<Option<u32>>) -> (listed: (
    Vec<PriorityChain>,
    Vec<u32>,
))
    requires
        module@.wf(),
        scopes@.len() == module@.values.len(),
    ensures
        chains_listed(module@, scopes@, listed.0@, listed.1@, module@.connects.len()),
{
    let ghost view = module@;
    let mut chains: Vec<PriorityChain> = Vec::new();
    let mut labels: Vec<u32> = Vec::new();
    let mut c: usize = 0;
    while c < module.connects.len()
        invariant
            view == module@,
            view.wf(),
            scopes@.len() == view.values.len(),
            c <= view.connects.len(),
            chains_listed(view, scopes@, chains@, labels@, c as nat),
        decreases module.connects.len() - c,
    {
        let ghost old_chains = chains@;
        let ghost old_labels = labels@;
        assert(view.connect_ok(view.connects[c as int]));
        if let Some(chain) = trace_chain(module, c) {
            proof {
                lemma_chain_word(view, view.connects[c as int].value);
                let seen = chain_of(view, view.connects[c as int].value)->0;
                assert(seen.nodes == chain.nodes@);
                assert forall|i: int| 0 <= i < chain.nodes@.len() implies (
                #[trigger] chain.nodes@[i]).raw < scopes@.len() by {
                    assert(view.has(seen.nodes[i]));
                }
            }
            if chain.entries.len() >= 4 {
                if let Some(scope) = find_common_scope(scopes, &chain.nodes) {
                    chains.push(chain);
                    labels.push(scope);
                }
            }
        }
        proof {
            let places = taken(view, scopes@, (c + 1) as nat);
            assert forall|k: int| 0 <= k < chains@.len() implies chain_listed(
                view,
                scopes@,
                places[k],
                #[trigger] chains@[k],
                labels@[k],
            ) by {
                if k < old_chains.len() {
                    assert(chain_listed(
                        view,
                        scopes@,
                        taken(view, scopes@, c as nat)[k],
                        old_chains[k],
                        old_labels[k],
                    ));
                }
            }
        }
        c += 1;
    }
    (chains, labels)
}

/// Gives every chain a value for its default.
fn materialize_defaults(module: &mut WordModule, chains: &Vec<PriorityChain>) -> (result: Result<
    Vec<ValueId>,
    SynthError,
>)
    requires
        old(module)@.wf(),
        forall|k: int|
            0 <= k < chains@.len() ==> ((#[trigger] chains@[k]).default matches PriorityDefault::Value(
                held,
            ) ==> old(module)@.has(held)) && (chains@[k].default matches PriorityDefault::BooleanFalse(
                ty,
            ) ==> ty.width == 1),
    ensures
        stable(old(module)@, final(module)@),
        final(module)@.operations == old(module)@.operations,
        result matches Ok(defaults) ==> defaults@.len() == chains@.len() && forall|k: int|
            0 <= k < chains@.len() ==> final(module)@.has(#[trigger] defaults@[k]) && is_default(
                final(module)@,
                chains@[k].default,
                defaults@[k],
            ),
        result matches Err(error) ==> ran_out(final(module)@, error),
{
    let ghost start = module@;
    let mut defaults: Vec<ValueId> = Vec::new();
    let mut k: usize = 0;
    proof {
        lemma_stable(start, start);
    }
    while k < chains.len()
        invariant
            start == old(module)@,
            stable(start, module@),
            module@.operations == start.operations,
            forall|k: int|
                0 <= k < chains@.len() ==> ((
                #[trigger] chains@[k]).default matches PriorityDefault::Value(held) ==> start.has(
                    held,
                )) && (chains@[k].default matches PriorityDefault::BooleanFalse(ty) ==> ty.width
                    == 1),
            k <= chains@.len(),
            defaults@.len() == k,
            forall|j: int|
                0 <= j < k ==> module@.has(#[trigger] defaults@[j]) && is_default(
                    module@,
                    chains@[j].default,
                    defaults@[j],
                ),
        decreases chains.len() - k,
    {
        let ghost before = module@;
        let default = chains[k].default;
        assert(chains@[k as int].default == default);
        let value = match default {
            PriorityDefault::Value(value) => value,
            PriorityDefault::BooleanFalse(ty) => match false_constant(module, ty) {
                Ok(value) => value,
                Err(error) => return Err(error),
            },
        };
        proof {
            assert forall|j: int| 0 <= j < k implies module@.has(#[trigger] defaults@[j])
                && is_default(module@, chains@[j].default, defaults@[j]) by {
                lemma_default_keeps(before, module@, chains@[j].default, defaults@[j]);
            }
        }
        defaults.push(value);
        k += 1;
    }
    Ok(defaults)
}

fn align_entries(entries: &Vec<PriorityEntry>, row: &Vec<ValueId>, default: ValueId) -> (all: Vec<
    PriorityEntry,
>)
    requires
        entries@.len() <= row@.len(),
    ensures
        all@ == aligned(entries@, row@, default),
{
    let missing: usize = row.len() - entries.len();
    let mut all: Vec<PriorityEntry> = Vec::new();
    let mut k: usize = 0;
    while k < missing
        invariant
            k <= missing <= row@.len(),
            all@ =~= Seq::new(k as nat, |k: int| PriorityEntry { condition: row@[k], value: default }),
        decreases missing - k,
    {
        all.push(PriorityEntry { condition: row[k], value: default });
        k += 1;
    }
    let ghost front = all@;
    let mut k: usize = 0;
    while k < entries.len()
        invariant
            k <= entries@.len(),
            all@ =~= front + entries@.take(k as int),
        decreases entries.len() - k,
    {
        all.push(entries[k]);
        k += 1;
    }
    assert(all@ =~= aligned(entries@, row@, default));
    all
}

/// Aligning a chain does not change what it chooses.
proof fn lemma_aligned(
    module: ModuleView,
    env: Env,
    entries: Seq<PriorityEntry>,
    row: Seq<ValueId>,
    default: ValueId,
)
    requires
        entries.len() <= row.len(),
    ensures
        chosen(module, env, aligned(entries, row, default), word_of(module, env, default))
            == chosen(module, env, entries, word_of(module, env, default)),
{
    let front = Seq::new(
        (row.len() - entries.len()) as nat,
        |k: int| PriorityEntry { condition: row[k], value: default },
    );
    let word = word_of(module, env, default);
    lemma_joined(module, env, front, entries, word);
    lemma_equal_values(module, env, front, default, word);
}

/// What the chains among the first ones are replaced by.
spec fn rebuilt_chains(
    start: ModuleView,
    module: ModuleView,
    scopes: Seq<Option<u32>>,
    labels: Seq<u32>,
    values: Seq<ValueId>,
    generated: Seq<GeneratedOperations>,
) -> bool {
    let places = taken(start, scopes, start.connects.len());
    &&& generated.len() == values.len()
    &&& values.len() <= places.len()
    &&& forall|k: int|
        0 <= k < values.len() ==> has_replacement(
            start,
            module,
            scopes,
            places[k],
            #[trigger] values[k],
        )
    &&& ranges_follow(generated, start.operations.len(), module.operations.len())
    &&& forall|k: int|
        0 <= k < generated.len() ==> (#[trigger] generated[k]).scope == labels[k]
}

/// Ranges that cover the operations from one place to another without a gap.
pub open spec fn ranges_follow(generated: Seq<GeneratedOperations>, from: nat, to: nat) -> bool {
    &&& generated.len() == 0 ==> from == to
    &&& generated.len() > 0 ==> generated[0].start == from && generated.last().end == to
    &&& forall|k: int|
        0 <= k < generated.len() ==> (#[trigger] generated[k]).start <= generated[k].end
    &&& forall|k: int|
        0 < k < generated.len() ==> (#[trigger] generated[k]).start == generated[k - 1].end
}

/// The outcome of rebuilding the chains of a module.
pub open spec fn rebalanced(
    before: ModuleView,
    after: ModuleView,
    scopes: Seq<Option<u32>>,
    generated: Seq<GeneratedOperations>,
) -> bool {
    let places = taken(before, scopes, before.connects.len());
    &&& before.with_connects(after.connects).grows_to(after)
    &&& after.connects.len() == before.connects.len()
    &&& generated.len() == places.len()
    &&& ranges_follow(generated, before.operations.len(), after.operations.len())
    &&& forall|k: int|
        0 <= k < places.len() ==> {
            let place = #[trigger] places[k];
            &&& Some(generated[k].scope) == taken_scope(before, scopes, place)
            &&& after.connects[place] == (Connect {
                value: after.connects[place].value,
                ..before.connects[place]
            })
            &&& has_replacement(before, after, scopes, place, after.connects[place].value)
        }
    &&& forall|c: int|
        0 <= c < before.connects.len() && taken_scope(before, scopes, c) is None
            ==> #[trigger] after.connects[c] == before.connects[c]
}

/// Builds the value of one chain.
#[verifier::rlimit(60)]
fn rebuild_one(
    module: &mut WordModule,
    chain: &PriorityChain,
    rows: &Vec<Vec<ValueId>>,
    default: ValueId,
    Ghost(start): Ghost<ModuleView>,
    Ghost(scopes): Ghost<Seq<Option<u32>>>,
    Ghost(label): Ghost<u32>,
    Ghost(k): Ghost<int>,
) -> (result: Result<ValueId, SynthError>)
    requires
        start.wf(),
        stable(start, old(module)@),
        row_views(rows@) == condition_rows(start, scopes),
        0 <= k < taken(start, scopes, start.connects.len()).len(),
        chain_listed(
            start,
            scopes,
            taken(start, scopes, start.connects.len())[k],
            *chain,
            label,
        ),
        old(module)@.has(default),
        is_default(old(module)@, chain.default, default),
    ensures
        stable(old(module)@, final(module)@),
        result matches Ok(value) ==> has_replacement(
            start,
            final(module)@,
            scopes,
            chain.connect as int,
            value,
        ),
        result matches Err(error) ==> ran_out(final(module)@, error),
{
    let ghost before = module@;
    let ghost places = taken(start, scopes, start.connects.len());
    let ghost place = places[k];
    let ghost views = condition_rows(start, scopes);
    proof {
        lemma_taken(start, scopes, start.connects.len());
        assert(start.connect_ok(start.connects[place]));
        lemma_chain_word(start, start.connects[place].value);
    }
    let ghost width = start.ty(start.connects[place].value).width;
    let own = list_conditions(&chain.entries);
    proof {
        assert(views[k] == own@);
        lemma_master(views, own@, views.len());
    }
    let found = find_master(rows, &own);
    let master_row = match found {
        Some(master_row) => master_row,
        None => {
            assert(false);
            return Err(SynthError::Unsupported(Unsupported::Operation));
        },
    };
    assert(views[master_row as int] == rows@[master_row as int]@);
    assert(ends_with(views[master_row as int], own@));
    let all = align_entries(&chain.entries, &rows[master_row], default);
    proof {
        assert(all@ == aligned_chain(start, scopes, place, default));
        let other = places[master_row as int];
        assert(0 <= other < start.connects.len());
        assert(start.connect_ok(start.connects[other]));
        lemma_chain_word(start, start.connects[other].value);
        let other_entries = chain_at(start, other).entries;
        assert(views[master_row as int] == conditions(other_entries));
        assert(before.ty(default).width == width) by {
            if let PriorityDefault::Value(held) = chain.default {
                assert(before.values[held.raw as int] == start.values[held.raw as int]);
            }
        }
        assert forall|i: int| 0 <= i < all@.len() implies entry_ok(
            before,
            #[trigger] all@[i],
            width,
        ) by {
            let missing = all@.len() - chain.entries@.len();
            if i < missing {
                let entry = other_entries[i];
                assert(entry_ok(
                    start,
                    other_entries[i],
                    start.ty(start.connects[other].value).width,
                ));
                assert(all@[i].condition == entry.condition);
                assert(before.values[entry.condition.raw as int]
                    == start.values[entry.condition.raw as int]);
            } else {
                let entry = chain.entries@[i - missing];
                assert(entry_ok(start, chain.entries@[i - missing], width));
                assert(all@[i] == entry);
                assert(before.values[entry.condition.raw as int]
                    == start.values[entry.condition.raw as int]);
                assert(before.values[entry.value.raw as int]
                    == start.values[entry.value.raw as int]);
            }
        }
    }
    let value = match build_chain(module, &all, default, chain.source, Ghost(width)) {
        Ok(value) => value,
        Err(error) => return Err(error),
    };
    proof {
        lemma_default_keeps(before, module@, chain.default, default);
        assert forall|env: Env| #[trigger]
            word_of(module@, env, value) == word_of(start, env, start.connects[place].value) by {
            let word = word_of(before, env, default);
            lemma_aligned(before, env, chain.entries@, rows@[master_row as int]@, default);
            lemma_chosen_keeps(start, before, env, chain.entries@, word, width);
            if let PriorityDefault::Value(held) = chain.default {
                assert(word_of(before, env, held) == word_of(start, env, held));
            }
        }
        assert(replaces_chain(start, module@, scopes, place, default, value));
    }
    Ok(value)
}

/// Replaces every chain of four or more entries, whose selections share a
/// scope, by a tree that chooses the same.
#[verifier::rlimit(80)]
pub fn rebalance_constant_priority_muxes_by(module: &mut WordModule, scopes: &Vec<Option<u32>>)
    -> (result: Result<RebalanceResult, SynthError>)
    requires
        old(module)@.wf(),
        scopes@.len() == old(module)@.values.len(),
    ensures
        final(module)@.wf(),
        result matches Ok(outcome) ==> {
            &&& rebalanced(old(module)@, final(module)@, scopes@, outcome.generated@)
            &&& outcome.changed == (outcome.generated@.len() > 0)
            &&& !outcome.changed ==> final(module)@ == old(module)@
        },
        result matches Err(error) ==> ran_out(final(module)@, error) && stable(
            old(module)@,
            final(module)@,
        ),
{
    let ghost start = module@;
    let ghost places = taken(start, scopes@, start.connects.len());
    let (chains, labels) = list_chains(module, scopes);
    proof {
        lemma_stable(start, start);
        lemma_taken(start, scopes@, start.connects.len());
    }
    if chains.len() == 0 {
        proof {
            assert(start.with_connects(start.connects) =~= start);
        }
        return Ok(RebalanceResult { changed: false, generated: Vec::new() });
    }
    proof {
        assert forall|k: int| 0 <= k < chains@.len() implies ((
        #[trigger] chains@[k]).default matches PriorityDefault::Value(held) ==> start.has(held))
            && (chains@[k].default matches PriorityDefault::BooleanFalse(ty) ==> ty.width
            == 1) by {
            assert(chain_listed(start, scopes@, places[k], chains@[k], labels@[k]));
            assert(0 <= places[k] < start.connects.len());
            assert(start.connect_ok(start.connects[places[k]]));
            lemma_chain_word(start, start.connects[places[k]].value);
        }
    }
    let defaults = match materialize_defaults(module, &chains) {
        Ok(defaults) => defaults,
        Err(error) => return Err(error),
    };
    let ghost middle = module@;
    let mut rows: Vec<Vec<ValueId>> = Vec::new();
    let mut k: usize = 0;
    while k < chains.len()
        invariant
            k <= chains@.len(),
            chains_listed(start, scopes@, chains@, labels@, start.connects.len()),
            places == taken(start, scopes@, start.connects.len()),
            rows@.len() == k,
            forall|j: int|
                0 <= j < k ==> (#[trigger] rows@[j])@ == condition_rows(start, scopes@)[j],
        decreases chains.len() - k,
    {
        assert(chain_listed(start, scopes@, places[k as int], chains@[k as int], labels@[k as int]));
        rows.push(list_conditions(&chains[k].entries));
        k += 1;
    }
    assert(row_views(rows@) =~= condition_rows(start, scopes@));
    let mut values: Vec<ValueId> = Vec::new();
    let mut generated: Vec<GeneratedOperations> = Vec::new();
    let mut k: usize = 0;
    while k < chains.len()
        invariant
            start == old(module)@,
            start.wf(),
            stable(start, middle),
            stable(middle, module@),
            stable(start, module@),
            chains_listed(start, scopes@, chains@, labels@, start.connects.len()),
            places == taken(start, scopes@, start.connects.len()),
            row_views(rows@) == condition_rows(start, scopes@),
            defaults@.len() == chains@.len(),
            forall|j: int|
                0 <= j < chains@.len() ==> middle.has(#[trigger] defaults@[j]) && is_default(
                    middle,
                    chains@[j].default,
                    defaults@[j],
                ),
            k <= chains@.len(),
            values@.len() == k,
            rebuilt_chains(start, module@, scopes@, labels@, values@, generated@),
        decreases chains.len() - k,
    {
        let ghost now = module@;
        let ghost old_values = values@;
        let ghost old_generated = generated@;
        let begin: usize = module.operations.len();
        assert(chain_listed(start, scopes@, places[k as int], chains@[k as int], labels@[k as int]));
        assert(middle.has(defaults@[k as int]));
        proof {
            lemma_default_keeps(middle, now, chains@[k as int].default, defaults@[k as int]);
        }
        let value = match rebuild_one(
            module,
            &chains[k],
            &rows,
            defaults[k],
            Ghost(start),
            Ghost(scopes@),
            Ghost(labels@[k as int]),
            Ghost(k as int),
        ) {
            Ok(value) => value,
            Err(error) => return Err(error),
        };
        let end: usize = module.operations.len();
        generated.push(GeneratedOperations { start: begin, end, scope: labels[k] });
        values.push(value);
        proof {
            assert forall|j: int| 0 <= j < values@.len() implies has_replacement(
                start,
                module@,
                scopes@,
                places[j],
                #[trigger] values@[j],
            ) by {
                if j < k {
                    assert(values@[j] == old_values[j]);
                    lemma_replaces_keeps(start, now, module@, scopes@, places[j], old_values[j]);
                }
            }
            assert(ranges_follow(
                generated@,
                start.operations.len(),
                module@.operations.len(),
            )) by {
                assert forall|j: int| 0 < j < generated@.len() implies (
                #[trigger] generated@[j]).start == generated@[j - 1].end by {
                    if j < k {
                        assert(generated@[j] == old_generated[j]);
                        assert(generated@[j - 1] == old_generated[j - 1]);
                    }
                }
                assert forall|j: int| 0 <= j < generated@.len() implies (
                #[trigger] generated@[j]).start <= generated@[j].end by {
                    if j < k {
                        assert(generated@[j] == old_generated[j]);
                    }
                }
            }
        }
        k += 1;
    }
    let ghost built = module@;
    let mut k: usize = 0;
    while k < chains.len()
        invariant
            start == old(module)@,
            start.wf(),
            stable(start, built),
            chains_listed(start, scopes@, chains@, labels@, start.connects.len()),
            places == taken(start, scopes@, start.connects.len()),
            forall|k: int|
                0 <= k < places.len() ==> 0 <= #[trigger] places[k] < start.connects.len(),
            forall|j: int, k: int| 0 <= j < k < places.len() ==> places[j] < places[k],
            k <= chains@.len(),
            values@.len() == chains@.len(),
            forall|k: int| 0 <= k < values@.len() ==> built.has(#[trigger] values@[k]),
            module@ == built.with_connects(module@.connects),
            module@.connects.len() == start.connects.len(),
            forall|c: int|
                0 <= c < start.connects.len() ==> {
                    &&& (#[trigger] module@.connects[c]) == (Connect {
                        value: module@.connects[c].value,
                        ..start.connects[c]
                    })
                    &&& built.has(module@.connects[c].value)
                },
            forall|j: int| 0 <= j < k ==> module@.connects[places[j]].value == #[trigger] values@[j],
            forall|c: int|
                0 <= c < start.connects.len() && !places.contains(c)
                    ==> #[trigger] module@.connects[c] == start.connects[c],
        decreases chains.len() - k,
    {
        let ghost before = module@;
        assert(chain_listed(start, scopes@, places[k as int], chains@[k as int], labels@[k as int]));
        let place: usize = chains[k].connect;
        assert(place == places[k as int]);
        let connect = module.connects[place];
        assert(built.has(values@[k as int]));
        module.connects.set(
            place,
            Connect { target: connect.target, value: values[k], source: connect.source },
        );
        proof {
            assert(module@ =~= built.with_connects(module@.connects));
            assert forall|j: int| 0 <= j < k + 1 implies module@.connects[places[j]].value
                == #[trigger] values@[j] by {
                if j < k {
                    assert(places[j] < places[k as int]);
                    assert(before.connects[places[j]].value == values@[j]);
                }
            }
            assert forall|c: int|
                0 <= c < start.connects.len() && !places.contains(c) implies #[trigger] module@.connects[c]
                == start.connects[c] by {
                assert(c != place);
                assert(before.connects[c] == start.connects[c]);
            }
        }
        k += 1;
    }
    proof {
        let after = module@;
        assert forall|c: int| 0 <= c < after.connects.len() implies built.connect_ok(
            #[trigger] after.connects[c],
        ) by {
            assert(start.connect_ok(start.connects[c]));
        }
        crate::word::builders::lemma_with_connects(built, after.connects);
        assert(start.with_connects(after.connects).grows_to(after));
        assert forall|k: int| 0 <= k < places.len() implies {
            let place = #[trigger] places[k];
            &&& Some(generated@[k].scope) == taken_scope(start, scopes@, place)
            &&& after.connects[place] == (Connect {
                value: after.connects[place].value,
                ..start.connects[place]
            })
            &&& has_replacement(start, after, scopes@, place, after.connects[place].value)
        } by {
            assert(chain_listed(start, scopes@, places[k], chains@[k], labels@[k]));
            assert(after.connects[places[k]].value == values@[k]);
            lemma_replaces_moves(start, built, after, scopes@, places[k], values@[k]);
        }
        assert forall|c: int|
            0 <= c < start.connects.len() && taken_scope(start, scopes@, c)
                is None implies #[trigger] after.connects[c] == start.connects[c] by {
            if places.contains(c) {
                let k = choose|k: int| 0 <= k < places.len() && places[k] == c;
                assert(taken_scope(start, scopes@, places[k]) is Some);
            }
        }
        assert(rebalanced(start, after, scopes@, generated@));
    }
    Ok(RebalanceResult { changed: true, generated })
}

/// A replacement does not depend on the connections of the module.
proof fn lemma_replaces_moves(
    start: ModuleView,
    before: ModuleView,
    after: ModuleView,
    scopes: Seq<Option<u32>>,
    connect: int,
    value: ValueId,
)
    requires
        before.wf(),
        after == before.with_connects(after.connects),
        has_replacement(start, before, scopes, connect, value),
    ensures
        has_replacement(start, after, scopes, connect, value),
{
    let default = choose|default: ValueId| #[trigger]
        replaces_chain(start, before, scopes, connect, default, value);
    let entries = aligned_chain(start, scopes, connect, default);
    assert forall|env: Env, v: ValueId| before.has(v) implies #[trigger] word_of(after, env, v)
        == word_of(before, env, v) by {
        crate::word::semantics::lemma_eval_grows(before, after, env, v.raw as int);
    }
    if all_values_equal(entries) {
        let (levels, valid) = choose|levels: Seq<Seq<ValueId>>, valid: ValueId| #[trigger]
            rebuilt_as_or(before, entries, default, value, levels, valid);
        assert(is_or_tree(after, levels, conditions(entries))) by {
            assert forall|i: int| 0 <= i < levels.len() - 1 implies super::balance::is_or_level(
                after,
                #[trigger] levels[i],
                levels[i + 1],
            ) by {
                assert(super::balance::is_or_level(before, levels[i], levels[i + 1]));
                assert forall|k: int| 0 <= k < levels[i + 1].len() implies super::balance::ors_pair(
                    after,
                    levels[i],
                    k,
                    #[trigger] levels[i + 1][k],
                ) by {
                    assert(super::balance::ors_pair(before, levels[i], k, levels[i + 1][k]));
                }
            }
        }
        assert(rebuilt_as_or(after, entries, default, value, levels, valid));
    } else {
        let (levels, root) = choose|levels: Seq<Seq<PriorityNode>>, root: PriorityNode| #[trigger]
            rebuilt_as_tree(before, entries, default, value, levels, root);
        assert(super::balance::is_tree(after, levels, entries)) by {
            assert forall|i: int| 0 <= i < levels.len() - 1 implies super::balance::is_level(
                after,
                #[trigger] levels[i],
                levels[i + 1],
            ) by {
                assert(super::balance::is_level(before, levels[i], levels[i + 1]));
                assert forall|k: int|
                    0 <= k < levels[i + 1].len() implies super::balance::joins_pair(
                    after,
                    levels[i],
                    k,
                    #[trigger] levels[i + 1][k],
                ) by {
                    assert(super::balance::joins_pair(before, levels[i], k, levels[i + 1][k]));
                }
            }
        }
        assert(rebuilt_as_tree(after, entries, default, value, levels, root));
    }
    assert forall|env: Env| #[trigger]
        word_of(after, env, value) == word_of(start, env, start.connects[connect].value) by {
        assert(word_of(before, env, value) == word_of(
            start,
            env,
            start.connects[connect].value,
        ));
    }
    if let PriorityDefault::BooleanFalse(ty) = chain_at(start, connect).default {
        assert forall|env: Env| #[trigger] word_of(after, env, default) == seq![false] by {
            assert(word_of(before, env, default) == seq![false]);
        }
    }
    assert(replaces_chain(start, after, scopes, connect, default, value));
}

} // verus!
