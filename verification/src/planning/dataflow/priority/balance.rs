//! Rebuilding a chain of selections as a tree.

use super::chain::{chosen, entries_ok, entry_ok, holds, PriorityEntry};
use crate::error::SynthError;
use crate::word::emit::{lemma_stable, ran_out, stable};
use crate::word::module::{ModuleView, WordModule};
use crate::word::semantics::{lemma_eval_width, resize_bits, word_of, Env};
use crate::word::types::{copy_values, BinaryOp, OpView, SourceSpan, ValueId};
use vstd::prelude::*;

verus! {

/// A group of entries: whether one of them holds, and the value of the last
/// that does.
#[derive(Clone, Copy, PartialEq, Eq, Structural, Debug)]
pub struct PriorityNode {
    pub valid: ValueId,
    pub value: ValueId,
}

pub open spec fn any_holds(module: ModuleView, env: Env, entries: Seq<PriorityEntry>) -> bool
    decreases entries.len(),
{
    entries.len() > 0 && (holds(module, env, entries.last().condition) || any_holds(
        module,
        env,
        entries.drop_last(),
    ))
}

/// The value of the last entry that holds, or of the first entry.
pub open spec fn picked(module: ModuleView, env: Env, entries: Seq<PriorityEntry>) -> Seq<bool> {
    chosen(module, env, entries, word_of(module, env, entries[0].value))
}

/// Without an entry that holds, the default is chosen; with one, it does not
/// matter.
pub proof fn lemma_chosen(
    module: ModuleView,
    env: Env,
    entries: Seq<PriorityEntry>,
    left: Seq<bool>,
    right: Seq<bool>,
)
    ensures
        any_holds(module, env, entries) ==> chosen(module, env, entries, left) == chosen(
            module,
            env,
            entries,
            right,
        ),
        !any_holds(module, env, entries) ==> chosen(module, env, entries, left) == left,
    decreases entries.len(),
{
    if entries.len() > 0 {
        lemma_chosen(module, env, entries.drop_last(), left, right);
    }
}

/// Of two groups the later decides.
pub proof fn lemma_joined(
    module: ModuleView,
    env: Env,
    low: Seq<PriorityEntry>,
    high: Seq<PriorityEntry>,
    default: Seq<bool>,
)
    ensures
        chosen(module, env, low + high, default) == chosen(
            module,
            env,
            high,
            chosen(module, env, low, default),
        ),
        any_holds(module, env, low + high) == (any_holds(module, env, low) || any_holds(
            module,
            env,
            high,
        )),
    decreases high.len(),
{
    if high.len() > 0 {
        lemma_joined(module, env, low, high.drop_last(), default);
        assert((low + high).drop_last() =~= low + high.drop_last());
        assert((low + high).last() == high.last());
    } else {
        assert(low + high =~= low);
    }
}

/// A node that stands for a group of entries.
pub open spec fn node_means(
    start: ModuleView,
    module: ModuleView,
    node: PriorityNode,
    group: Seq<PriorityEntry>,
    width: u32,
) -> bool {
    &&& module.has(node.valid)
    &&& module.ty(node.valid).width == 1
    &&& module.has(node.value)
    &&& module.ty(node.value).width == width
    &&& forall|env: Env| #[trigger]
        word_of(module, env, node.valid) == seq![any_holds(start, env, group)]
    &&& forall|env: Env| #[trigger]
        word_of(module, env, node.value) == picked(start, env, group)
}

proof fn lemma_node_keeps(
    start: ModuleView,
    before: ModuleView,
    after: ModuleView,
    node: PriorityNode,
    group: Seq<PriorityEntry>,
    width: u32,
)
    requires
        stable(before, after),
        node_means(start, before, node, group, width),
    ensures
        node_means(start, after, node, group, width),
{
    assert forall|env: Env| #[trigger]
        word_of(after, env, node.valid) == seq![any_holds(start, env, group)] by {
        assert(word_of(after, env, node.valid) == word_of(before, env, node.valid));
    }
    assert forall|env: Env| #[trigger]
        word_of(after, env, node.value) == picked(start, env, group) by {
        assert(word_of(after, env, node.value) == word_of(before, env, node.value));
    }
}

/// Nodes that stand for the groups between cuts.
pub open spec fn nodes_mean(
    start: ModuleView,
    module: ModuleView,
    nodes: Seq<PriorityNode>,
    cuts: Seq<int>,
    entries: Seq<PriorityEntry>,
    width: u32,
) -> bool {
    &&& cuts.len() == nodes.len() + 1
    &&& cuts[0] == 0
    &&& cuts.last() == entries.len()
    &&& forall|i: int| 0 <= i < nodes.len() ==> 0 <= #[trigger] cuts[i] < cuts[i + 1]
    &&& forall|i: int| 0 <= i < cuts.len() ==> 0 <= #[trigger] cuts[i] <= entries.len()
    &&& forall|i: int|
        0 <= i < nodes.len() ==> node_means(
            start,
            module,
            #[trigger] nodes[i],
            entries.subrange(cuts[i], cuts[i + 1]),
            width,
        )
}

/// The nodes of one level of a tree over those of the level below: each joins
/// two neighbours, of which the later has priority.
pub open spec fn is_level(module: ModuleView, below: Seq<PriorityNode>, level: Seq<PriorityNode>) -> bool {
    &&& level.len() == (below.len() + 1) / 2
    &&& forall|i: int|
        0 <= i < level.len() ==> joins_pair(module, below, i, #[trigger] level[i])
}

pub open spec fn joins_pair(module: ModuleView, below: Seq<PriorityNode>, i: int, node: PriorityNode) -> bool {
    if 2 * i + 1 < below.len() {
        let low = below[2 * i];
        let high = below[2 * i + 1];
        &&& module.op_of(node.valid) == Some(
            OpView::Binary { op: BinaryOp::BitOr, left: low.valid, right: high.valid },
        )
        &&& module.op_of(node.value) == Some(
            OpView::Mux {
                cond: high.valid,
                then_value: high.value,
                else_value: low.value,
            },
        )
    } else {
        node == below[2 * i]
    }
}

/// Joins two neighbouring nodes.
fn join_pair(
    module: &mut WordModule,
    low: PriorityNode,
    high: PriorityNode,
    source: SourceSpan,
    Ghost(start): Ghost<ModuleView>,
    Ghost(low_group): Ghost<Seq<PriorityEntry>>,
    Ghost(high_group): Ghost<Seq<PriorityEntry>>,
    Ghost(width): Ghost<u32>,
) -> (result: Result<PriorityNode, SynthError>)
    requires
        old(module)@.wf(),
        node_means(start, old(module)@, low, low_group, width),
        node_means(start, old(module)@, high, high_group, width),
        low_group.len() > 0,
        high_group.len() > 0,
    ensures
        stable(old(module)@, final(module)@),
        result matches Ok(node) ==> {
            &&& node_means(start, final(module)@, node, low_group + high_group, width)
            &&& final(module)@.op_of(node.valid) == Some(
                OpView::Binary { op: BinaryOp::BitOr, left: low.valid, right: high.valid },
            )
            &&& final(module)@.op_of(node.value) == Some(
                OpView::Mux {
                    cond: high.valid,
                    then_value: high.value,
                    else_value: low.value,
                },
            )
        },
        result matches Err(error) ==> ran_out(final(module)@, error),
{
    let ghost before = module@;
    let valid = match module.emit_binary(BinaryOp::BitOr, low.valid, high.valid, source) {
        Ok(valid) => valid,
        Err(error) => return Err(error),
    };
    let ghost middle = module@;
    let value = match module.emit_mux(high.valid, high.value, low.value, source) {
        Ok(value) => value,
        Err(error) => return Err(error),
    };
    proof {
        let after = module@;
        assert(after.values[valid.raw as int] == middle.values[valid.raw as int]);
        let operation = middle.kind(valid)->Operation_0;
        assert(middle.value_ok(valid.raw as int));
        assert(after.operations[operation.raw as int] == middle.operations[operation.raw as int]);
        let group = low_group + high_group;
        assert forall|env: Env| #[trigger]
            word_of(after, env, valid) == seq![any_holds(start, env, group)] by {
            assert(word_of(after, env, valid) == word_of(middle, env, valid));
            lemma_joined(start, env, low_group, high_group, seq![]);
            let l = word_of(before, env, low.valid);
            let r = word_of(before, env, high.valid);
            assert(l == seq![any_holds(start, env, low_group)]);
            assert(r == seq![any_holds(start, env, high_group)]);
            let ty = middle.ty(valid);
            assert(resize_bits(l, before.ty(low.valid), ty) =~= l);
            assert(resize_bits(r, before.ty(high.valid), ty) =~= r);
            assert(word_of(middle, env, valid) =~= seq![any_holds(start, env, group)]);
        }
        assert forall|env: Env| #[trigger]
            word_of(after, env, value) == picked(start, env, group) by {
            assert(word_of(middle, env, high.valid) == word_of(before, env, high.valid));
            assert(word_of(middle, env, high.value) == word_of(before, env, high.value));
            assert(word_of(middle, env, low.value) == word_of(before, env, low.value));
            let first = word_of(start, env, group[0].value);
            assert(group[0] == low_group[0]);
            lemma_joined(start, env, low_group, high_group, first);
            lemma_chosen(
                start,
                env,
                high_group,
                chosen(start, env, low_group, first),
                word_of(start, env, high_group[0].value),
            );
        }
    }
    Ok(PriorityNode { valid, value })
}

/// A selection over a known group stays what it is while a module grows.
pub proof fn lemma_op_keeps(before: ModuleView, after: ModuleView, value: ValueId)
    requires
        stable(before, after),
        before.has(value),
    ensures
        after.op_of(value) == before.op_of(value),
{
    assert(before.value_ok(value.raw as int));
    assert(after.values[value.raw as int] == before.values[value.raw as int]);
    if before.op_of(value) is Some {
        let operation = before.kind(value)->Operation_0;
        assert(after.operations[operation.raw as int] == before.operations[operation.raw as int]);
    }
}

/// The nodes of a level that are there already.
spec fn partial_level(
    start: ModuleView,
    module: ModuleView,
    below: Seq<PriorityNode>,
    level: Seq<PriorityNode>,
    next: Seq<int>,
    entries: Seq<PriorityEntry>,
    width: u32,
) -> bool {
    &&& next.len() == level.len() + 1
    &&& next[0] == 0
    &&& forall|k: int| 0 <= k < level.len() ==> 0 <= #[trigger] next[k] < next[k + 1]
    &&& forall|k: int| 0 <= k < next.len() ==> 0 <= #[trigger] next[k] <= entries.len()
    &&& forall|k: int|
        0 <= k < level.len() ==> node_means(
            start,
            module,
            #[trigger] level[k],
            entries.subrange(next[k], next[k + 1]),
            width,
        )
    &&& forall|k: int|
        0 <= k < level.len() ==> joins_pair(module, below, k, #[trigger] level[k])
}

/// One more node of a level.
proof fn lemma_level_step(
    start: ModuleView,
    before: ModuleView,
    after: ModuleView,
    below: Seq<PriorityNode>,
    level: Seq<PriorityNode>,
    next: Seq<int>,
    entries: Seq<PriorityEntry>,
    width: u32,
    node: PriorityNode,
    cut: int,
)
    requires
        stable(before, after),
        partial_level(start, before, below, level, next, entries, width),
        next.last() < cut <= entries.len(),
        node_means(start, after, node, entries.subrange(next.last(), cut), width),
        joins_pair(after, below, level.len() as int, node),
    ensures
        partial_level(start, after, below, level.push(node), next.push(cut), entries, width),
{
    let longer = level.push(node);
    let cuts = next.push(cut);
    let count = level.len() as int;
    assert forall|k: int| 0 <= k < longer.len() implies node_means(
        start,
        after,
        #[trigger] longer[k],
        entries.subrange(cuts[k], cuts[k + 1]),
        width,
    ) by {
        if k < count {
            assert(longer[k] == level[k]);
            assert(cuts[k] == next[k] && cuts[k + 1] == next[k + 1]);
            lemma_node_keeps(
                start,
                before,
                after,
                level[k],
                entries.subrange(next[k], next[k + 1]),
                width,
            );
        }
    }
    assert forall|k: int| 0 <= k < longer.len() implies joins_pair(
        after,
        below,
        k,
        #[trigger] longer[k],
    ) by {
        if k < count {
            assert(longer[k] == level[k]);
            assert(joins_pair(before, below, k, level[k]));
            assert(node_means(
                start,
                before,
                level[k],
                entries.subrange(next[k], next[k + 1]),
                width,
            ));
            lemma_op_keeps(before, after, level[k].valid);
            lemma_op_keeps(before, after, level[k].value);
        }
    }
    assert forall|k: int| 0 <= k < longer.len() implies 0 <= #[trigger] cuts[k] < cuts[k + 1] by {
        if k < count {
            assert(cuts[k] == next[k] && cuts[k + 1] == next[k + 1]);
        }
    }
}

/// Builds one level of a tree over another.
#[verifier::rlimit(100)]
#[verifier::spinoff_prover]
fn build_level(
    module: &mut WordModule,
    below: &Vec<PriorityNode>,
    source: SourceSpan,
    Ghost(start): Ghost<ModuleView>,
    Ghost(cuts): Ghost<Seq<int>>,
    Ghost(entries): Ghost<Seq<PriorityEntry>>,
    Ghost(width): Ghost<u32>,
) -> (result: Result<(Vec<PriorityNode>, Ghost<Seq<int>>), SynthError>)
    requires
        old(module)@.wf(),
        nodes_mean(start, old(module)@, below@, cuts, entries, width),
        below@.len() > 1,
    ensures
        stable(old(module)@, final(module)@),
        result matches Ok((level, next)) ==> {
            &&& nodes_mean(start, final(module)@, level@, next@, entries, width)
            &&& is_level(final(module)@, below@, level@)
        },
        result matches Err(error) ==> ran_out(final(module)@, error),
{
    let ghost before = module@;
    let mut level: Vec<PriorityNode> = Vec::new();
    let ghost mut next: Seq<int> = seq![0];
    let mut i: usize = 0;
    proof {
        lemma_stable(before, before);
    }
    while i < below.len()
        invariant
            before == old(module)@,
            stable(before, module@),
            nodes_mean(start, before, below@, cuts, entries, width),
            below@.len() > 1,
            i <= below@.len(),
            i % 2 == 0 || i == below@.len(),
            level@.len() == (i + 1) / 2,
            next.last() == cuts[i as int],
            partial_level(start, module@, below@, level@, next, entries, width),
        decreases below.len() - i,
    {
        let ghost now = module@;
        let ghost held = level@;
        let low = below[i];
        let ghost low_group = entries.subrange(cuts[i as int], cuts[i + 1]);
        assert(node_means(start, before, below@[i as int], low_group, width));
        assert(0 <= cuts[i as int] < cuts[i + 1]);
        assert(cuts[i + 1] <= entries.len());
        proof {
            lemma_node_keeps(start, before, now, low, low_group, width);
        }
        if i + 1 < below.len() {
            let high = below[i + 1];
            let ghost high_group = entries.subrange(cuts[i + 1], cuts[i + 2]);
            assert(node_means(start, before, below@[i + 1], high_group, width));
            assert(0 <= cuts[i + 1] < cuts[i + 2]);
            assert(cuts[i + 2] <= entries.len());
            proof {
                lemma_node_keeps(start, before, now, high, high_group, width);
            }
            let node = match join_pair(
                module,
                low,
                high,
                source,
                Ghost(start),
                Ghost(low_group),
                Ghost(high_group),
                Ghost(width),
            ) {
                Ok(node) => node,
                Err(error) => return Err(error),
            };
            level.push(node);
            proof {
                assert(low_group + high_group =~= entries.subrange(cuts[i as int], cuts[i + 2]));
                lemma_level_step(
                    start,
                    now,
                    module@,
                    below@,
                    held,
                    next,
                    entries,
                    width,
                    node,
                    cuts[i + 2],
                );
                next = next.push(cuts[i + 2]);
            }
            i += 2;
        } else {
            level.push(low);
            proof {
                lemma_level_step(
                    start,
                    now,
                    module@,
                    below@,
                    held,
                    next,
                    entries,
                    width,
                    low,
                    cuts[i + 1],
                );
                next = next.push(cuts[i + 1]);
            }
            i += 1;
        }
    }
    Ok((level, Ghost(next)))
}

/// The nodes that entries start as.
pub open spec fn leaf_nodes(entries: Seq<PriorityEntry>) -> Seq<PriorityNode> {
    entries.map_values(
        |entry: PriorityEntry| PriorityNode { valid: entry.condition, value: entry.value },
    )
}

/// The levels of a tree over entries, up to its root.
pub open spec fn is_tree(
    module: ModuleView,
    levels: Seq<Seq<PriorityNode>>,
    entries: Seq<PriorityEntry>,
) -> bool {
    &&& levels.len() > 0
    &&& levels[0] == leaf_nodes(entries)
    &&& forall|i: int|
        0 <= i < levels.len() - 1 ==> is_level(module, #[trigger] levels[i], levels[i + 1])
}

/// A tree over entries ends in a node.
pub open spec fn has_root(
    module: ModuleView,
    levels: Seq<Seq<PriorityNode>>,
    entries: Seq<PriorityEntry>,
    root: PriorityNode,
) -> bool {
    is_tree(module, levels, entries) && levels.last() == seq![root]
}

pub open spec fn levels_in(module: ModuleView, levels: Seq<Seq<PriorityNode>>) -> bool {
    forall|i: int, k: int|
        0 <= i < levels.len() && 0 <= k < levels[i].len() ==> module.has(
            (#[trigger] levels[i][k]).valid,
        ) && module.has(levels[i][k].value)
}

pub proof fn lemma_tree_keeps(
    before: ModuleView,
    after: ModuleView,
    levels: Seq<Seq<PriorityNode>>,
    entries: Seq<PriorityEntry>,
)
    requires
        stable(before, after),
        is_tree(before, levels, entries),
        levels_in(before, levels),
    ensures
        is_tree(after, levels, entries),
        levels_in(after, levels),
{
    assert forall|i: int| 0 <= i < levels.len() - 1 implies is_level(
        after,
        #[trigger] levels[i],
        levels[i + 1],
    ) by {
        assert(is_level(before, levels[i], levels[i + 1]));
        assert forall|k: int| 0 <= k < levels[i + 1].len() implies joins_pair(
            after,
            levels[i],
            k,
            #[trigger] levels[i + 1][k],
        ) by {
            assert(joins_pair(before, levels[i], k, levels[i + 1][k]));
            lemma_op_keeps(before, after, levels[i + 1][k].valid);
            lemma_op_keeps(before, after, levels[i + 1][k].value);
        }
    }
}

/// A single entry stands for itself.
proof fn lemma_leaf(module: ModuleView, entry: PriorityEntry, width: u32)
    requires
        module.wf(),
        entry_ok(module, entry, width),
    ensures
        node_means(
            module,
            module,
            PriorityNode { valid: entry.condition, value: entry.value },
            seq![entry],
            width,
        ),
{
    reveal_with_fuel(any_holds, 2);
    reveal_with_fuel(chosen, 2);
    let group = seq![entry];
    assert(group.drop_last() =~= Seq::<PriorityEntry>::empty());
    assert forall|env: Env| #[trigger]
        word_of(module, env, entry.condition) == seq![any_holds(module, env, group)] by {
        lemma_eval_width(module, env, entry.condition.raw as int);
        assert(word_of(module, env, entry.condition) =~= seq![
            holds(module, env, entry.condition),
        ]);
    }
}

/// Builds the tree over the entries of a chain.
#[verifier::rlimit(60)]
pub fn build_tree(
    module: &mut WordModule,
    entries: &Vec<PriorityEntry>,
    source: SourceSpan,
    Ghost(width): Ghost<u32>,
) -> (result: Result<(PriorityNode, Ghost<Seq<Seq<PriorityNode>>>), SynthError>)
    requires
        old(module)@.wf(),
        entries@.len() > 0,
        entries_ok(old(module)@, entries@, width),
    ensures
        stable(old(module)@, final(module)@),
        result matches Ok((root, levels)) ==> {
            &&& node_means(old(module)@, final(module)@, root, entries@, width)
            &&& has_root(final(module)@, levels@, entries@, root)
            &&& levels_in(final(module)@, levels@)
        },
        result matches Err(error) ==> ran_out(final(module)@, error),
{
    let ghost start = module@;
    let mut nodes: Vec<PriorityNode> = Vec::new();
    let mut i: usize = 0;
    while i < entries.len()
        invariant
            i <= entries@.len(),
            nodes@ =~= leaf_nodes(entries@).take(i as int),
        decreases entries.len() - i,
    {
        nodes.push(PriorityNode { valid: entries[i].condition, value: entries[i].value });
        i += 1;
    }
    let ghost mut cuts: Seq<int> = Seq::new((entries@.len() + 1) as nat, |k: int| k);
    let ghost mut levels: Seq<Seq<PriorityNode>> = seq![leaf_nodes(entries@)];
    proof {
        assert(nodes@ =~= leaf_nodes(entries@));
        lemma_stable(start, start);
        assert forall|k: int| 0 <= k < nodes@.len() implies node_means(
            start,
            start,
            #[trigger] nodes@[k],
            entries@.subrange(cuts[k], cuts[k + 1]),
            width,
        ) by {
            assert(entry_ok(start, entries@[k], width));
            lemma_leaf(start, entries@[k], width);
            assert(entries@.subrange(cuts[k], cuts[k + 1]) =~= seq![entries@[k]]);
        }
        assert(levels_in(start, levels)) by {
            assert forall|i: int, k: int|
                0 <= i < levels.len() && 0 <= k < levels[i].len() implies start.has(
                (#[trigger] levels[i][k]).valid,
            ) && start.has(levels[i][k].value) by {
                assert(entry_ok(start, entries@[k], width));
            }
        }
    }
    while nodes.len() > 1
        invariant
            start == old(module)@,
            stable(start, module@),
            entries@.len() > 0,
            nodes@.len() > 0,
            nodes_mean(start, module@, nodes@, cuts, entries@, width),
            is_tree(module@, levels, entries@),
            levels_in(module@, levels),
            levels.last() == nodes@,
        decreases nodes.len(),
    {
        let ghost before = module@;
        let (level, next) = match build_level(
            module,
            &nodes,
            source,
            Ghost(start),
            Ghost(cuts),
            Ghost(entries@),
            Ghost(width),
        ) {
            Ok(pair) => pair,
            Err(error) => return Err(error),
        };
        proof {
            lemma_tree_keeps(before, module@, levels, entries@);
            let old_levels = levels;
            levels = levels.push(level@);
            cuts = next@;
            assert forall|i: int| 0 <= i < levels.len() - 1 implies is_level(
                module@,
                #[trigger] levels[i],
                levels[i + 1],
            ) by {
                if i < old_levels.len() - 1 {
                    assert(is_level(module@, old_levels[i], old_levels[i + 1]));
                }
            }
            assert forall|i: int, k: int|
                0 <= i < levels.len() && 0 <= k < levels[i].len() implies module@.has(
                (#[trigger] levels[i][k]).valid,
            ) && module@.has(levels[i][k].value) by {
                if i < old_levels.len() {
                    assert(levels[i][k] == old_levels[i][k]);
                } else {
                    assert(node_means(
                        start,
                        module@,
                        level@[k],
                        entries@.subrange(cuts[k], cuts[k + 1]),
                        width,
                    ));
                }
            }
        }
        nodes = level;
    }
    let root = nodes[0];
    proof {
        assert(nodes@ =~= seq![root]);
        assert(entries@.subrange(cuts[0], cuts[1]) =~= entries@);
        assert(node_means(
            start,
            module@,
            nodes@[0],
            entries@.subrange(cuts[0], cuts[1]),
            width,
        ));
    }
    Ok((root, Ghost(levels)))
}

/// One level of a tree of disjunctions over another.
pub open spec fn is_or_level(module: ModuleView, below: Seq<ValueId>, level: Seq<ValueId>) -> bool {
    &&& level.len() == (below.len() + 1) / 2
    &&& forall|i: int| 0 <= i < level.len() ==> ors_pair(module, below, i, #[trigger] level[i])
}

pub open spec fn ors_pair(module: ModuleView, below: Seq<ValueId>, i: int, value: ValueId) -> bool {
    if 2 * i + 1 < below.len() {
        module.op_of(value) == Some(
            OpView::Binary {
                op: BinaryOp::BitOr,
                left: below[2 * i],
                right: below[2 * i + 1],
            },
        )
    } else {
        value == below[2 * i]
    }
}

pub open spec fn is_or_tree(module: ModuleView, levels: Seq<Seq<ValueId>>, leaves: Seq<ValueId>) -> bool {
    &&& levels.len() > 0
    &&& levels[0] == leaves
    &&& forall|i: int|
        0 <= i < levels.len() - 1 ==> is_or_level(module, #[trigger] levels[i], levels[i + 1])
}

pub open spec fn ids_in(module: ModuleView, levels: Seq<Seq<ValueId>>) -> bool {
    forall|i: int, k: int|
        0 <= i < levels.len() && 0 <= k < levels[i].len() ==> module.has(#[trigger] levels[i][k])
}

/// Whether one of several bits is set.
pub open spec fn any_set(module: ModuleView, env: Env, values: Seq<ValueId>) -> bool {
    exists|i: int| 0 <= i < values.len() && #[trigger] holds(module, env, values[i])
}

/// Bits that together are set where those of a list are.
pub open spec fn same_disjunction(
    start: ModuleView,
    module: ModuleView,
    leaves: Seq<ValueId>,
    values: Seq<ValueId>,
) -> bool {
    &&& forall|i: int|
        0 <= i < values.len() ==> module.has(#[trigger] values[i]) && module.ty(values[i]).width
            == 1
    &&& forall|env: Env| #[trigger]
        any_set(module, env, values) == any_set(start, env, leaves)
}

pub proof fn lemma_or_keeps(
    before: ModuleView,
    after: ModuleView,
    levels: Seq<Seq<ValueId>>,
    leaves: Seq<ValueId>,
)
    requires
        stable(before, after),
        is_or_tree(before, levels, leaves),
        ids_in(before, levels),
    ensures
        is_or_tree(after, levels, leaves),
        ids_in(after, levels),
{
    assert forall|i: int| 0 <= i < levels.len() - 1 implies is_or_level(
        after,
        #[trigger] levels[i],
        levels[i + 1],
    ) by {
        assert(is_or_level(before, levels[i], levels[i + 1]));
        assert forall|k: int| 0 <= k < levels[i + 1].len() implies ors_pair(
            after,
            levels[i],
            k,
            #[trigger] levels[i + 1][k],
        ) by {
            assert(ors_pair(before, levels[i], k, levels[i + 1][k]));
            lemma_op_keeps(before, after, levels[i + 1][k]);
        }
    }
}

/// Builds one level of a tree of disjunctions.
#[verifier::rlimit(60)]
fn or_level(
    module: &mut WordModule,
    below: &Vec<ValueId>,
    source: SourceSpan,
) -> (result: Result<Vec<ValueId>, SynthError>)
    requires
        old(module)@.wf(),
        below@.len() > 1,
        forall|i: int|
            0 <= i < below@.len() ==> old(module)@.has(#[trigger] below@[i]) && old(module)@.ty(
                below@[i],
            ).width == 1,
    ensures
        stable(old(module)@, final(module)@),
        result matches Ok(level) ==> {
            &&& is_or_level(final(module)@, below@, level@)
            &&& same_disjunction(old(module)@, final(module)@, below@, level@)
        },
        result matches Err(error) ==> ran_out(final(module)@, error),
{
    let ghost start = module@;
    let mut level: Vec<ValueId> = Vec::new();
    let mut i: usize = 0;
    proof {
        lemma_stable(start, start);
    }
    while i < below.len()
        invariant
            start == old(module)@,
            stable(start, module@),
            below@.len() > 1,
            forall|i: int|
                0 <= i < below@.len() ==> start.has(#[trigger] below@[i]) && start.ty(
                    below@[i],
                ).width == 1,
            i <= below@.len(),
            i % 2 == 0 || i == below@.len(),
            level@.len() == (i + 1) / 2,
            forall|k: int|
                0 <= k < level@.len() ==> module@.has(#[trigger] level@[k]) && module@.ty(
                    level@[k],
                ).width == 1,
            forall|k: int|
                0 <= k < level@.len() ==> ors_pair(module@, below@, k, #[trigger] level@[k]),
            forall|k: int, env: Env|
                0 <= k < level@.len() ==> #[trigger] holds(module@, env, level@[k])
                    == pair_holds(start, env, below@, k),
        decreases below.len() - i,
    {
        let ghost now = module@;
        let ghost held = level@;
        let low = below[i];
        assert(start.has(below@[i as int]));
        assert(now.ty(low) == start.ty(low));
        if i + 1 < below.len() {
            let high = below[i + 1];
            assert(start.has(below@[i + 1]));
            assert(now.ty(high) == start.ty(high));
            let value = match module.emit_binary(BinaryOp::BitOr, low, high, source) {
                Ok(value) => value,
                Err(error) => return Err(error),
            };
            proof {
                assert forall|env: Env| #[trigger] holds(module@, env, value) == pair_holds(
                    start,
                    env,
                    below@,
                    (i / 2) as int,
                ) by {
                    let l = word_of(now, env, low);
                    let r = word_of(now, env, high);
                    lemma_eval_width(now, env, low.raw as int);
                    lemma_eval_width(now, env, high.raw as int);
                    assert(l == word_of(start, env, low));
                    assert(r == word_of(start, env, high));
                    assert(below@[2 * (i / 2) as int] == low);
                    assert(below@[2 * (i / 2) as int + 1] == high);
                }
            }
            level.push(value);
            i += 2;
        } else {
            level.push(low);
            proof {
                assert forall|env: Env| #[trigger] holds(module@, env, low) == pair_holds(
                    start,
                    env,
                    below@,
                    (i / 2) as int,
                ) by {
                    assert(word_of(module@, env, low) == word_of(start, env, low));
                    assert(below@[2 * (i / 2) as int] == low);
                }
            }
            i += 1;
        }
        proof {
            let count = held.len() as int;
            assert forall|k: int| 0 <= k < level@.len() implies ors_pair(
                module@,
                below@,
                k,
                #[trigger] level@[k],
            ) by {
                if k < count {
                    assert(level@[k] == held[k]);
                    assert(ors_pair(now, below@, k, held[k]));
                    lemma_op_keeps(now, module@, held[k]);
                }
            }
            assert forall|k: int, env: Env| 0 <= k < level@.len() implies #[trigger] holds(
                module@,
                env,
                level@[k],
            ) == pair_holds(start, env, below@, k) by {
                if k < count {
                    assert(level@[k] == held[k]);
                    assert(now.has(held[k]));
                    assert(word_of(module@, env, held[k]) == word_of(now, env, held[k]));
                    assert(holds(now, env, held[k]) == pair_holds(start, env, below@, k));
                }
            }
        }
    }
    proof {
        assert forall|env: Env| #[trigger] any_set(module@, env, level@) == any_set(
            start,
            env,
            below@,
        ) by {
            if any_set(module@, env, level@) {
                let k = choose|k: int|
                    0 <= k < level@.len() && #[trigger] holds(module@, env, level@[k]);
                assert(pair_holds(start, env, below@, k));
                if holds(start, env, below@[2 * k]) {
                    assert(0 <= 2 * k < below@.len());
                } else {
                    assert(0 <= 2 * k + 1 < below@.len());
                }
            }
            if any_set(start, env, below@) {
                let j = choose|j: int|
                    0 <= j < below@.len() && #[trigger] holds(start, env, below@[j]);
                let k = j / 2;
                assert(pair_holds(start, env, below@, k));
                assert(0 <= k < level@.len());
                assert(holds(module@, env, level@[k]));
            }
        }
    }
    Ok(level)
}

/// Whether one of a pair of neighbouring bits is set.
pub open spec fn pair_holds(module: ModuleView, env: Env, below: Seq<ValueId>, k: int) -> bool {
    holds(module, env, below[2 * k]) || (2 * k + 1 < below.len() && holds(
        module,
        env,
        below[2 * k + 1],
    ))
}

/// The disjunction of bits as a tree.
pub fn balanced_or(module: &mut WordModule, leaves: &Vec<ValueId>, source: SourceSpan) -> (result:
    Result<(ValueId, Ghost<Seq<Seq<ValueId>>>), SynthError>)
    requires
        old(module)@.wf(),
        leaves@.len() > 0,
        forall|i: int|
            0 <= i < leaves@.len() ==> old(module)@.has(#[trigger] leaves@[i]) && old(module)@.ty(
                leaves@[i],
            ).width == 1,
    ensures
        stable(old(module)@, final(module)@),
        result matches Ok((root, levels)) ==> {
            &&& final(module)@.has(root)
            &&& final(module)@.ty(root).width == 1
            &&& is_or_tree(final(module)@, levels@, leaves@)
            &&& ids_in(final(module)@, levels@)
            &&& levels@.last() == seq![root]
            &&& forall|env: Env| #[trigger]
                holds(final(module)@, env, root) == any_set(old(module)@, env, leaves@)
        },
        result matches Err(error) ==> ran_out(final(module)@, error),
{
    let ghost start = module@;
    let mut values = copy_values(leaves);
    let ghost mut levels: Seq<Seq<ValueId>> = seq![leaves@];
    proof {
        lemma_stable(start, start);
    }
    while values.len() > 1
        invariant
            start == old(module)@,
            stable(start, module@),
            values@.len() > 0,
            same_disjunction(start, module@, leaves@, values@),
            is_or_tree(module@, levels, leaves@),
            ids_in(module@, levels),
            levels.last() == values@,
        decreases values.len(),
    {
        let ghost before = module@;
        let level = match or_level(module, &values, source) {
            Ok(level) => level,
            Err(error) => return Err(error),
        };
        proof {
            lemma_or_keeps(before, module@, levels, leaves@);
            let old_levels = levels;
            levels = levels.push(level@);
            assert forall|i: int| 0 <= i < levels.len() - 1 implies is_or_level(
                module@,
                #[trigger] levels[i],
                levels[i + 1],
            ) by {
                if i < old_levels.len() - 1 {
                    assert(is_or_level(module@, old_levels[i], old_levels[i + 1]));
                }
            }
            assert forall|i: int, k: int|
                0 <= i < levels.len() && 0 <= k < levels[i].len() implies module@.has(
                #[trigger] levels[i][k],
            ) by {
                if i < old_levels.len() {
                    assert(levels[i][k] == old_levels[i][k]);
                } else {
                    assert(module@.has(level@[k]));
                }
            }
            assert forall|env: Env| #[trigger] any_set(module@, env, level@) == any_set(
                start,
                env,
                leaves@,
            ) by {
                assert(any_set(before, env, values@) == any_set(start, env, leaves@));
            }
        }
        values = level;
    }
    let root = values[0];
    proof {
        assert(values@ =~= seq![root]);
        assert(module@.has(values@[0]));
        assert forall|env: Env| #[trigger] holds(module@, env, root) == any_set(
            start,
            env,
            leaves@,
        ) by {
            assert(any_set(module@, env, values@) == any_set(start, env, leaves@));
            if holds(module@, env, root) {
                assert(holds(module@, env, values@[0]));
            }
        }
    }
    Ok((root, Ghost(levels)))
}

} // verus!
