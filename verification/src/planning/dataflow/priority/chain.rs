//! Tracing a chain of selections between constants.

use crate::collections::IdSet;
use crate::planning::dataflow::folding::{constant_bit, known_bit};
use crate::word::module::{ModuleView, ValueKind, WordModule};
use crate::word::semantics::{lemma_eval_operation, lemma_eval_width, word_of, Env};
use crate::word::types::{
    bit_lsb, op_inputs, OpKind, OpView, SourceSpan, UnaryOp, ValueId, WordType,
};
use vstd::prelude::*;

verus! {

/// A value that holds where a condition does.
#[derive(Clone, Copy, PartialEq, Eq, Structural, Debug)]
pub struct PriorityEntry {
    pub condition: ValueId,
    pub value: ValueId,
}

/// What holds where no condition does.
#[derive(Clone, Copy, PartialEq, Eq, Structural, Debug)]
pub enum PriorityDefault {
    Value(ValueId),
    BooleanFalse(WordType),
}

/// A chain of selections: its conditions and their values, later ones first in
/// priority.
pub struct PriorityChain {
    pub connect: usize,
    pub nodes: Vec<ValueId>,
    pub default: PriorityDefault,
    pub entries: Vec<PriorityEntry>,
    pub source: SourceSpan,
}

/// The single bit that a value inverts.
pub open spec fn inverted(module: ModuleView, value: ValueId) -> Option<ValueId> {
    match module.op_of(value) {
        Some(OpView::Unary { op, arg }) => if (op is LogicalNot || op is BitNot) && module.ty(
            arg,
        ).width == 1 {
            Some(arg)
        } else {
            None
        },
        _ => None,
    }
}

/// One selection: the condition, what holds if it does, and what holds if not.
#[derive(Clone, Copy, PartialEq, Eq, Structural, Debug)]
pub struct Link {
    pub condition: ValueId,
    pub update: ValueId,
    pub previous: ValueId,
}

pub open spec fn link_of(
    module: ModuleView,
    cond: ValueId,
    then_value: ValueId,
    else_value: ValueId,
) -> Link {
    match inverted(module, cond) {
        Some(condition) => Link { condition, update: else_value, previous: then_value },
        None => Link { condition: cond, update: then_value, previous: else_value },
    }
}

/// A chain of selections as far as it goes.
pub struct Links {
    pub nodes: Seq<ValueId>,
    pub entries: Seq<PriorityEntry>,
    pub end: ValueId,
}

/// The selections that a value starts, each of a constant; the last selection
/// of the chain comes first.
pub open spec fn links(module: ModuleView, value: ValueId) -> Option<Links>
    decreases value.raw,
{
    match module.op_of(value) {
        Some(OpView::Mux { cond, then_value, else_value }) => {
            let link = link_of(module, cond, then_value, else_value);
            if module.kind(link.update) is Constant && link.previous.raw < value.raw {
                match links(module, link.previous) {
                    Some(rest) => Some(
                        Links {
                            nodes: seq![value] + rest.nodes,
                            entries: rest.entries.push(
                                PriorityEntry { condition: link.condition, value: link.update },
                            ),
                            end: rest.end,
                        },
                    ),
                    None => None,
                }
            } else {
                None
            }
        },
        _ => Some(Links { nodes: seq![], entries: seq![], end: value }),
    }
}

pub open spec fn all_true(module: ModuleView, entries: Seq<PriorityEntry>) -> bool {
    forall|i: int|
        0 <= i < entries.len() ==> known_bit(module, (#[trigger] entries[i]).value) == Some(true)
}

pub open spec fn conditions(entries: Seq<PriorityEntry>) -> Seq<ValueId> {
    entries.map_values(|entry: PriorityEntry| entry.condition)
}

/// A chain: its selections, its entries and its default.
pub struct ChainView {
    pub nodes: Seq<ValueId>,
    pub entries: Seq<PriorityEntry>,
    pub default: PriorityDefault,
}

/// The end of a chain of true bits as one more condition.
pub open spec fn chain_shape(module: ModuleView, found: Links) -> Option<ChainView> {
    if module.kind(found.end) is Constant {
        Some(
            ChainView {
                nodes: found.nodes,
                entries: found.entries,
                default: PriorityDefault::Value(found.end),
            },
        )
    } else if module.ty(found.end).width == 1 && found.entries.len() > 0 && all_true(
        module,
        found.entries,
    ) {
        Some(
            ChainView {
                nodes: found.nodes,
                entries: seq![
                    PriorityEntry { condition: found.end, value: found.entries.last().value },
                ] + found.entries,
                default: PriorityDefault::BooleanFalse(module.ty(found.end)),
            },
        )
    } else {
        None
    }
}

/// The chain that a value starts, if its conditions are distinct.
pub open spec fn chain_of(module: ModuleView, value: ValueId) -> Option<ChainView> {
    match links(module, value) {
        Some(found) => match chain_shape(module, found) {
            Some(chain) => if conditions(chain.entries).no_duplicates() {
                Some(chain)
            } else {
                None
            },
            None => None,
        },
        None => None,
    }
}

/// Whether a single bit is set.
pub open spec fn holds(module: ModuleView, env: Env, value: ValueId) -> bool {
    word_of(module, env, value)[0]
}

/// The value of the last entry whose condition holds.
pub open spec fn chosen(
    module: ModuleView,
    env: Env,
    entries: Seq<PriorityEntry>,
    default: Seq<bool>,
) -> Seq<bool>
    decreases entries.len(),
{
    if entries.len() == 0 {
        default
    } else if holds(module, env, entries.last().condition) {
        word_of(module, env, entries.last().value)
    } else {
        chosen(module, env, entries.drop_last(), default)
    }
}

/// Entries of single-bit conditions and values of one width.
pub open spec fn entries_ok(module: ModuleView, entries: Seq<PriorityEntry>, width: u32) -> bool {
    forall|i: int|
        0 <= i < entries.len() ==> entry_ok(module, #[trigger] entries[i], width)
}

pub open spec fn entry_ok(module: ModuleView, entry: PriorityEntry, width: u32) -> bool {
    &&& module.has(entry.condition)
    &&& module.ty(entry.condition).width == 1
    &&& module.has(entry.value)
    &&& module.ty(entry.value).width == width
}

/// The operands of a selection.
proof fn lemma_link(module: ModuleView, value: ValueId)
    requires
        module.wf(),
        module.has(value),
        module.op_of(value) matches Some(OpView::Mux { .. }),
    ensures
        ({
            let kind = module.op_of(value)->0;
            let link = link_of(module, kind->cond, kind->then_value, kind->else_value);
            &&& kind->cond.raw < value.raw
            &&& kind->then_value.raw < value.raw
            &&& kind->else_value.raw < value.raw
            &&& entry_ok(
                module,
                PriorityEntry { condition: link.condition, value: link.update },
                module.ty(value).width,
            )
            &&& module.has(link.previous)
            &&& link.previous.raw < value.raw
            &&& module.ty(link.previous).width == module.ty(value).width
            &&& forall|env: Env| #[trigger]
                word_of(module, env, value) == (if holds(module, env, link.condition) {
                    word_of(module, env, link.update)
                } else {
                    word_of(module, env, link.previous)
                })
        }),
{
    let kind = module.op_of(value)->0;
    let cond = kind->cond;
    let link = link_of(module, cond, kind->then_value, kind->else_value);
    assert(module.value_ok(value.raw as int));
    let operation = module.kind(value)->Operation_0;
    assert(module.operation_ok(operation.raw as int));
    let inputs = op_inputs(kind);
    assert(inputs[0] == cond && inputs[1] == kind->then_value && inputs[2] == kind->else_value);
    if inverted(module, cond) is Some {
        let arg = inverted(module, cond)->0;
        assert(module.value_ok(cond.raw as int));
        let inner = module.kind(cond)->Operation_0;
        assert(module.operation_ok(inner.raw as int));
        assert(op_inputs(module.op_of(cond)->0)[0] == arg);
    }
    assert forall|env: Env| #[trigger]
        word_of(module, env, value) == (if holds(module, env, link.condition) {
            word_of(module, env, link.update)
        } else {
            word_of(module, env, link.previous)
        }) by {
        lemma_eval_operation(module, env, value.raw as int);
        if inverted(module, cond) is Some {
            let arg = inverted(module, cond)->0;
            lemma_eval_operation(module, env, cond.raw as int);
            lemma_eval_width(module, env, arg.raw as int);
            let word = word_of(module, env, arg);
            assert(crate::word::bits::any_bit(word) == word[0]) by {
                if crate::word::bits::any_bit(word) {
                    assert(exists|i: int| 0 <= i < word.len() && word[i]);
                }
            }
        }
    }
}

/// A value means what its chain chooses.
pub proof fn lemma_links_word(module: ModuleView, value: ValueId)
    requires
        module.wf(),
        module.has(value),
        links(module, value) is Some,
    ensures
        ({
            let found = links(module, value)->0;
            &&& module.has(found.end)
            &&& module.ty(found.end).width == module.ty(value).width
            &&& entries_ok(module, found.entries, module.ty(value).width)
            &&& forall|i: int|
                0 <= i < found.nodes.len() ==> module.has(#[trigger] found.nodes[i])
            &&& found.nodes.len() == found.entries.len()
            &&& forall|env: Env| #[trigger]
                word_of(module, env, value) == chosen(
                    module,
                    env,
                    found.entries,
                    word_of(module, env, found.end),
                )
        }),
    decreases value.raw,
{
    if let Some(OpView::Mux { cond, then_value, else_value }) = module.op_of(value) {
        let link = link_of(module, cond, then_value, else_value);
        lemma_link(module, value);
        lemma_links_word(module, link.previous);
        let rest = links(module, link.previous)->0;
        let found = links(module, value)->0;
        let entry = PriorityEntry { condition: link.condition, value: link.update };
        assert(found.entries =~= rest.entries.push(entry));
        assert(found.entries.drop_last() =~= rest.entries);
        assert forall|env: Env| #[trigger]
            word_of(module, env, value) == chosen(
                module,
                env,
                found.entries,
                word_of(module, env, found.end),
            ) by {
            assert(found.entries.last() == entry);
            assert(word_of(module, env, link.previous) == chosen(
                module,
                env,
                rest.entries,
                word_of(module, env, rest.end),
            ));
        }
    }
}

/// An entry of lowest priority comes before the default.
pub proof fn lemma_chosen_front(
    module: ModuleView,
    env: Env,
    first: PriorityEntry,
    entries: Seq<PriorityEntry>,
    default: Seq<bool>,
)
    ensures
        chosen(module, env, seq![first] + entries, default) == chosen(
            module,
            env,
            entries,
            if holds(module, env, first.condition) {
                word_of(module, env, first.value)
            } else {
                default
            },
        ),
    decreases entries.len(),
{
    reveal_with_fuel(chosen, 2);
    let all = seq![first] + entries;
    if entries.len() > 0 {
        lemma_chosen_front(module, env, first, entries.drop_last(), default);
        assert(all.drop_last() =~= seq![first] + entries.drop_last());
        assert(all.last() == entries.last());
    } else {
        assert(all.drop_last() =~= Seq::<PriorityEntry>::empty());
    }
}

/// A default that a chain may fall back on.
pub open spec fn is_default(module: ModuleView, default: PriorityDefault, value: ValueId) -> bool {
    match default {
        PriorityDefault::Value(held) => value == held,
        PriorityDefault::BooleanFalse(ty) => {
            &&& module.has(value)
            &&& module.ty(value) == ty
            &&& forall|env: Env| #[trigger] word_of(module, env, value) == seq![false]
        },
    }
}

/// The word of a known single bit.
proof fn lemma_true_word(module: ModuleView, env: Env, value: ValueId)
    requires
        module.wf(),
        module.has(value),
        known_bit(module, value) == Some(true),
    ensures
        word_of(module, env, value) =~= seq![true],
{
    assert(module.value_ok(value.raw as int));
    let bits = module.kind(value)->Constant_0;
    assert(bit_lsb(bits, 0) is One);
}

/// A value means what its chain chooses over its default.
pub proof fn lemma_chain_word(module: ModuleView, value: ValueId)
    requires
        module.wf(),
        module.has(value),
        chain_of(module, value) is Some,
    ensures
        ({
            let chain = chain_of(module, value)->0;
            &&& entries_ok(module, chain.entries, module.ty(value).width)
            &&& forall|i: int|
                0 <= i < chain.nodes.len() ==> module.has(#[trigger] chain.nodes[i])
            &&& chain.default matches PriorityDefault::Value(held) ==> module.has(held)
                && module.ty(held).width == module.ty(value).width
            &&& chain.default matches PriorityDefault::BooleanFalse(ty) ==> ty.width == 1
                && module.ty(value).width == 1
            &&& forall|env: Env| #[trigger]
                word_of(module, env, value) == chosen(
                    module,
                    env,
                    chain.entries,
                    match chain.default {
                        PriorityDefault::Value(held) => word_of(module, env, held),
                        PriorityDefault::BooleanFalse(_) => seq![false],
                    },
                )
        }),
{
    let found = links(module, value)->0;
    let chain = chain_of(module, value)->0;
    lemma_links_word(module, value);
    if !(module.kind(found.end) is Constant) {
        let last = found.entries[found.entries.len() - 1];
        assert(entry_ok(module, last, module.ty(value).width));
        assert(known_bit(module, last.value) == Some(true));
        let first = PriorityEntry { condition: found.end, value: last.value };
        assert(chain.entries == seq![first] + found.entries);
        assert forall|i: int| 0 <= i < chain.entries.len() implies entry_ok(
            module,
            #[trigger] chain.entries[i],
            module.ty(value).width,
        ) by {
            if i > 0 {
                assert(chain.entries[i] == found.entries[i - 1]);
            }
        }
        assert forall|env: Env| #[trigger]
            word_of(module, env, value) == chosen(module, env, chain.entries, seq![false]) by {
            lemma_chosen_front(module, env, first, found.entries, seq![false]);
            lemma_true_word(module, env, last.value);
            lemma_eval_width(module, env, found.end.raw as int);
            let word = word_of(module, env, found.end);
            assert(word =~= seq![word[0]]);
            assert(word == (if holds(module, env, first.condition) {
                word_of(module, env, first.value)
            } else {
                seq![false]
            }));
        }
    }
}

/// The single bit that a value inverts.
fn inverted_condition(module: &WordModule, value: ValueId) -> (arg: Option<ValueId>)
    requires
        module@.wf(),
        module@.has(value),
    ensures
        arg == inverted(module@, value),
{
    assert(module@.value_ok(value.raw as int));
    let stored = &module.values[value.raw as usize];
    assert(stored@ == module@.values[value.raw as int]);
    match &stored.kind {
        ValueKind::Operation(operation) => {
            let place: usize = operation.raw as usize;
            let kind = &module.operations[place].kind;
            assert(kind@ == module@.operations[place as int].kind);
            assert(module@.operation_ok(place as int));
            match kind {
                OpKind::Unary { op, arg } => {
                    assert(op_inputs(kind@)[0] == *arg);
                    assert(module@.values[arg.raw as int] == module.values@[arg.raw as int]@);
                    let inverts = match op {
                        UnaryOp::LogicalNot | UnaryOp::BitNot => true,
                        _ => false,
                    };
                    if inverts && module.values[arg.raw as usize].ty.width == 1 {
                        Some(*arg)
                    } else {
                        None
                    }
                },
                _ => None,
            }
        },
        _ => None,
    }
}

fn is_constant(module: &WordModule, value: ValueId) -> (constant: bool)
    requires
        module@.has(value),
    ensures
        constant == (module@.kind(value) is Constant),
{
    let stored = &module.values[value.raw as usize];
    assert(stored@ == module@.values[value.raw as int]);
    match &stored.kind {
        ValueKind::Constant(_) => true,
        _ => false,
    }
}

/// The selection that defines a value.
fn selection(module: &WordModule, value: ValueId) -> (link: Option<Link>)
    requires
        module@.wf(),
        module@.has(value),
    ensures
        link is Some <==> (module@.op_of(value) matches Some(OpView::Mux { .. })),
        link matches Some(found) ==> {
            let kind = module@.op_of(value)->0;
            found == link_of(module@, kind->cond, kind->then_value, kind->else_value)
        },
{
    assert(module@.value_ok(value.raw as int));
    let stored = &module.values[value.raw as usize];
    assert(stored@ == module@.values[value.raw as int]);
    match &stored.kind {
        ValueKind::Operation(operation) => {
            let place: usize = operation.raw as usize;
            let kind = &module.operations[place].kind;
            assert(kind@ == module@.operations[place as int].kind);
            assert(module@.operation_ok(place as int));
            match kind {
                OpKind::Mux { cond, then_value, else_value } => {
                    assert(op_inputs(kind@)[0] == *cond);
                    match inverted_condition(module, *cond) {
                        Some(condition) => Some(
                            Link { condition, update: *else_value, previous: *then_value },
                        ),
                        None => Some(
                            Link { condition: *cond, update: *then_value, previous: *else_value },
                        ),
                    }
                },
                _ => None,
            }
        },
        _ => None,
    }
}

/// Whether the conditions of a chain are distinct.
fn conditions_are_distinct(entries: &Vec<PriorityEntry>) -> (distinct: bool)
    ensures
        distinct == conditions(entries@).no_duplicates(),
{
    let ghost all = conditions(entries@);
    let mut seen = IdSet::new();
    let mut i: usize = 0;
    while i < entries.len()
        invariant
            all == conditions(entries@),
            i <= entries@.len(),
            forall|k: u64| #[trigger]
                seen@.contains(k) <==> (exists|j: int| 0 <= j < i && (#[trigger] all[j]).raw == k),
            forall|j: int, k: int| 0 <= j < k < i ==> all[j] != all[k],
        decreases entries.len() - i,
    {
        let ghost before = seen@;
        let fresh = seen.insert(entries[i].condition.raw as u64);
        assert(all[i as int] == entries@[i as int].condition);
        if !fresh {
            proof {
                let j = choose|j: int|
                    0 <= j < i && (#[trigger] all[j]).raw == all[i as int].raw as u64;
                assert(all[j] == all[i as int]);
            }
            return false;
        }
        proof {
            assert forall|j: int, k: int| 0 <= j < k < i + 1 implies all[j] != all[k] by {
                if k == i && all[j] == all[k] {
                    assert(before.contains(all[j].raw as u64));
                }
            }
            assert forall|k: u64| #[trigger] seen@.contains(k) <==> (exists|j: int|
                0 <= j < i + 1 && (#[trigger] all[j]).raw == k) by {
                if before.contains(k) {
                    let j = choose|j: int| 0 <= j < i && (#[trigger] all[j]).raw == k;
                    assert(0 <= j < i + 1 && all[j].raw == k);
                }
                if k == all[i as int].raw {
                    assert(0 <= i < i + 1 && all[i as int].raw == k);
                }
            }
        }
        i += 1;
    }
    true
}

fn reversed(entries: &Vec<PriorityEntry>) -> (copy: Vec<PriorityEntry>)
    ensures
        copy@ == entries@.reverse(),
{
    let mut copy: Vec<PriorityEntry> = Vec::new();
    let mut i: usize = entries.len();
    while i > 0
        invariant
            i <= entries@.len(),
            copy@ =~= entries@.reverse().take(entries@.len() - i),
        decreases i,
    {
        i -= 1;
        copy.push(entries[i]);
    }
    copy
}

fn entries_are_true(module: &WordModule, entries: &Vec<PriorityEntry>) -> (all: bool)
    requires
        forall|i: int| 0 <= i < entries@.len() ==> module@.has((#[trigger] entries@[i]).value),
    ensures
        all == all_true(module@, entries@),
{
    let mut i: usize = 0;
    while i < entries.len()
        invariant
            i <= entries@.len(),
            forall|i: int|
                0 <= i < entries@.len() ==> module@.has((#[trigger] entries@[i]).value),
            forall|j: int|
                0 <= j < i ==> known_bit(module@, (#[trigger] entries@[j]).value) == Some(true),
        decreases entries.len() - i,
    {
        assert(module@.has(entries@[i as int].value));
        match constant_bit(module, entries[i].value) {
            Some(true) => {},
            _ => {
                assert(known_bit(module@, entries@[i as int].value) != Some(true));
                return false;
            },
        }
        i += 1;
    }
    true
}

/// The chain that the value of a connection starts.
#[verifier::rlimit(40)]
pub fn trace_chain(module: &WordModule, connect: usize) -> (chain: Option<PriorityChain>)
    requires
        module@.wf(),
        connect < module@.connects.len(),
    ensures
        match chain {
            Some(found) => {
                &&& found.connect == connect
                &&& found.source == module@.connects[connect as int].source
                &&& chain_of(module@, module@.connects[connect as int].value) == Some(
                    ChainView {
                        nodes: found.nodes@,
                        entries: found.entries@,
                        default: found.default,
                    },
                )
            },
            None => chain_of(module@, module@.connects[connect as int].value) is None,
        },
{
    let ghost view = module@;
    let sink = module.connects[connect];
    assert(view.connect_ok(view.connects[connect as int]));
    let ghost start = sink.value;
    let mut current = sink.value;
    let mut traced: Vec<PriorityEntry> = Vec::new();
    let mut nodes: Vec<ValueId> = Vec::new();
    loop
        invariant
            view == module@,
            view.wf(),
            view.has(current),
            view.has(start),
            connect < view.connects.len(),
            start == view.connects[connect as int].value,
            links(view, start) is None <==> links(view, current) is None,
            links(view, start) matches Some(found) ==> {
                let rest = links(view, current)->0;
                &&& found.nodes == nodes@ + rest.nodes
                &&& found.entries == rest.entries + traced@.reverse()
                &&& found.end == rest.end
            },
        ensures
            links(view, start) == Some(
                Links { nodes: nodes@, entries: traced@.reverse(), end: current },
            ),
            view.has(current),
        decreases current.raw,
    {
        match selection(module, current) {
            Some(link) => {
                proof {
                    lemma_link(view, current);
                }
                if !is_constant(module, link.update) {
                    return None;
                }
                let ghost rest = links(view, link.previous);
                let ghost old_nodes = nodes@;
                let ghost old_traced = traced@;
                let entry = PriorityEntry { condition: link.condition, value: link.update };
                nodes.push(current);
                traced.push(entry);
                proof {
                    if rest is Some {
                        let found = links(view, current)->0;
                        assert(found.entries =~= rest->0.entries.push(entry));
                        assert(old_nodes + found.nodes =~= nodes@ + rest->0.nodes);
                        assert(traced@.reverse() =~= seq![entry] + old_traced.reverse());
                        assert(found.entries + old_traced.reverse() =~= rest->0.entries
                            + traced@.reverse());
                    }
                }
                current = link.previous;
            },
            None => {
                proof {
                    let found = links(view, start)->0;
                    assert(found.nodes =~= nodes@);
                    assert(found.entries =~= traced@.reverse());
                }
                break ;
            },
        }
    }
    let ghost found = links(view, start)->0;
    proof {
        lemma_links_word(view, start);
    }
    let mut entries = reversed(&traced);
    let default;
    if is_constant(module, current) {
        default = PriorityDefault::Value(current);
    } else {
        let ty = module.values[current.raw as usize].ty;
        assert(view.values[current.raw as int] == module.values@[current.raw as int]@);
        assert forall|i: int| 0 <= i < entries@.len() implies module@.has(
            (#[trigger] entries@[i]).value,
        ) by {
            assert(entry_ok(view, found.entries[i], view.ty(start).width));
        }
        if ty.width != 1 || entries.len() == 0 || !entries_are_true(module, &entries) {
            return None;
        }
        let value = traced[0].value;
        assert(found.entries.last().value == value);
        traced.push(PriorityEntry { condition: current, value });
        entries = reversed(&traced);
        assert(entries@ =~= seq![PriorityEntry { condition: current, value }] + found.entries);
        default = PriorityDefault::BooleanFalse(ty);
    }
    if conditions_are_distinct(&entries) {
        Some(PriorityChain { connect, nodes, default, entries, source: sink.source })
    } else {
        None
    }
}

} // verus!
