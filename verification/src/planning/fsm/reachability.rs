//! Which values and states can be reached.

use super::encoding::MAX_TRANSITION_VALUES;
use super::symbolic::selection::states_view;
use crate::collections::IdSet;
use crate::error::{Invariant, SynthError};
use crate::word::module::{KindView, ModuleView, ValueKind, WordModule};
use crate::word::types::{op_inputs, operation_inputs, BitVal, ConstBits, ValueId};
use vstd::prelude::*;

verus! {

/// The operands of a value.
pub open spec fn operands(module: ModuleView, value: int) -> Seq<ValueId> {
    match module.values[value].kind {
        KindView::Operation(operation) => op_inputs(module.operations[operation.raw as int].kind),
        _ => seq![],
    }
}

/// A relation that leads from a value to smaller ones.
pub open spec fn descending(children: spec_fn(int) -> Seq<ValueId>, count: int) -> bool {
    forall|v: int, i: int|
        0 <= v < count && 0 <= i < children(v).len() ==> (#[trigger] children(v)[i]).raw < v
}

/// A value and everything that a descending relation leads to from it.
pub open spec fn descend(children: spec_fn(int) -> Seq<ValueId>, value: int) -> Set<int>
    decreases value,
{
    Set::new(
        |x: int|
            x == value || exists|i: int|
                0 <= i < children(value).len() && (#[trigger] children(value)[i]).raw < value
                    && descend(children, children(value)[i].raw as int).contains(x),
    )
}

/// What is reached lies at and below the root.
pub proof fn lemma_descend_bound(children: spec_fn(int) -> Seq<ValueId>, root: int, x: int)
    requires
        descend(children, root).contains(x),
        root >= 0,
    ensures
        0 <= x <= root,
    decreases root,
{
    if x != root {
        let i = choose|i: int|
            0 <= i < children(root).len() && (#[trigger] children(root)[i]).raw < root && descend(
                children,
                children(root)[i].raw as int,
            ).contains(x);
        lemma_descend_bound(children, children(root)[i].raw as int, x);
    }
}

/// What a reached value leads to is reached.
pub proof fn lemma_descend_step(
    children: spec_fn(int) -> Seq<ValueId>,
    count: int,
    root: int,
    x: int,
    i: int,
)
    requires
        descending(children, count),
        0 <= root < count,
        descend(children, root).contains(x),
        0 <= i < children(x).len(),
    ensures
        descend(children, root).contains(children(x)[i].raw as int),
    decreases root,
{
    lemma_descend_bound(children, root, x);
    if x == root {
        assert(children(root)[i].raw < root);
        let y = children(root)[i].raw as int;
        assert(descend(children, y).contains(y));
    } else {
        let k = choose|k: int|
            0 <= k < children(root).len() && (#[trigger] children(root)[k]).raw < root && descend(
                children,
                children(root)[k].raw as int,
            ).contains(x);
        lemma_descend_step(children, count, children(root)[k].raw as int, x, i);
        assert(children(root)[k].raw < root);
    }
}

/// A set that holds the root and is closed under the relation holds all.
pub proof fn lemma_descend_least(
    children: spec_fn(int) -> Seq<ValueId>,
    root: int,
    closed: Set<int>,
    x: int,
)
    requires
        root >= 0,
        closed.contains(root),
        forall|v: int, i: int|
            closed.contains(v) && 0 <= v <= root && 0 <= i < children(v).len() ==> closed.contains(
                (#[trigger] children(v)[i]).raw as int,
            ),
        descend(children, root).contains(x),
    ensures
        closed.contains(x),
    decreases root,
{
    if x != root {
        let i = choose|i: int|
            0 <= i < children(root).len() && (#[trigger] children(root)[i]).raw < root && descend(
                children,
                children(root)[i].raw as int,
            ).contains(x);
        assert(closed.contains(children(root)[i].raw as int));
        lemma_descend_least(children, children(root)[i].raw as int, closed, x);
    }
}

pub proof fn lemma_descend_finite(children: spec_fn(int) -> Seq<ValueId>, root: int)
    requires
        root >= 0,
    ensures
        descend(children, root).finite(),
{
    vstd::set_lib::lemma_int_range(0, root + 1);
    assert forall|x: int| descend(children, root).contains(x) implies vstd::set_lib::set_int_range(
        0,
        root + 1,
    ).contains(x) by {
        lemma_descend_bound(children, root, x);
    }
    vstd::set_lib::lemma_set_subset_finite(
        vstd::set_lib::set_int_range(0, root + 1),
        descend(children, root),
    );
}

/// The operands of every value of a module.
pub open spec fn operands_of(module: ModuleView) -> spec_fn(int) -> Seq<ValueId> {
    |value: int| operands(module, value)
}

/// A value and everything it is computed from.
pub open spec fn cone(module: ModuleView, value: int) -> Set<int> {
    descend(operands_of(module), value)
}

pub proof fn lemma_operands_descend(module: ModuleView)
    requires
        module.wf(),
    ensures
        descending(operands_of(module), module.values.len() as int),
{
    let children = operands_of(module);
    assert forall|v: int, i: int|
        0 <= v < module.values.len() && 0 <= i < children(v).len() implies (
    #[trigger] children(v)[i]).raw < v by {
        assert(module.value_ok(v));
        if let KindView::Operation(operation) = module.values[v].kind {
            assert(module.operation_ok(operation.raw as int));
            assert(op_inputs(module.operations[operation.raw as int].kind)[i].raw < v);
        }
    }
}

/// Whether a cone has at most `MAX_TRANSITION_VALUES` values.
pub fn transition_cone_within_budget(module: &WordModule, root: ValueId) -> (within: bool)
    requires
        module@.wf(),
        module@.has(root),
    ensures
        within == (cone(module@, root.raw as int).len() <= MAX_TRANSITION_VALUES),
{
    let mut visited = IdSet::new();
    let mut count: usize = 0;
    let mut pending: Vec<ValueId> = Vec::new();
    pending.push(root);
    let ghost m = module@;
    let ghost all = cone(m, root.raw as int);
    let ghost mut seen: Set<int> = Set::empty();
    proof {
        lemma_descend_finite(operands_of(m), root.raw as int);
        lemma_operands_descend(m);
        assert(all.contains(root.raw as int));
        assert(pending@[0] == root);
    }
    while pending.len() > 0
        invariant
            m == module@,
            m.wf(),
            m.has(root),
            all == cone(m, root.raw as int),
            descending(operands_of(m), m.values.len() as int),
            all.finite(),
            seen.finite(),
            seen.subset_of(all),
            count == seen.len(),
            count <= MAX_TRANSITION_VALUES,
            forall|x: u64| visited@.contains(x) == #[trigger] seen.contains(x as int),
            forall|p: int|
                0 <= p < pending@.len() ==> all.contains((#[trigger] pending@[p]).raw as int),
            seen.contains(root.raw as int) || pending@.contains(root),
            forall|v: int, i: int|
                seen.contains(v) && 0 <= i < operands(m, v).len() ==> seen.contains(
                    (#[trigger] operands(m, v)[i]).raw as int,
                ) || pending@.contains(operands(m, v)[i]),
        decreases MAX_TRANSITION_VALUES - count, pending.len(),
    {
        let ghost before = pending@;
        let value = match pending.pop() {
            Some(value) => value,
            None => return true,
        };
        proof {
            assert(before[before.len() - 1] == value);
            assert(all.contains(value.raw as int));
            lemma_descend_bound(operands_of(m), root.raw as int, value.raw as int);
            assert forall|x: ValueId| before.contains(x) && x != value implies
                #[trigger] pending@.contains(x) by {
                let k = choose|k: int| 0 <= k < before.len() && before[k] == x;
                assert(pending@[k] == x);
            }
        }
        if !visited.insert(value.raw as u64) {
            assert(seen.contains(value.raw as u64 as int));
            continue ;
        }
        assert(!seen.contains(value.raw as u64 as int));
        if count == MAX_TRANSITION_VALUES {
            proof {
                assert(seen.insert(value.raw as int).subset_of(all));
                vstd::set_lib::lemma_len_subset(seen.insert(value.raw as int), all);
            }
            return false;
        }
        count += 1;
        let ghost known = seen;
        let ghost rest = pending@;
        proof {
            seen = seen.insert(value.raw as int);
            assert(m.value_ok(value.raw as int));
        }
        if let ValueKind::Operation(operation) = &module.values[value.raw as usize].kind {
            assert(m.values[value.raw as int].kind == KindView::Operation(*operation));
            let mut inputs = operation_inputs(&module.operations[operation.raw as usize].kind);
            let ghost listed = inputs@;
            assert(listed == operands(m, value.raw as int));
            pending.append(&mut inputs);
            proof {
                assert(pending@ =~= rest + listed);
                assert forall|p: int| 0 <= p < pending@.len() implies all.contains(
                    (#[trigger] pending@[p]).raw as int,
                ) by {
                    if p < rest.len() {
                        assert(pending@[p] == rest[p]);
                        assert(rest[p] == before[p]);
                    } else {
                        assert(pending@[p] == operands(m, value.raw as int)[p - rest.len()]);
                        lemma_descend_step(
                            operands_of(m),
                            m.values.len() as int,
                            root.raw as int,
                            value.raw as int,
                            p - rest.len(),
                        );
                    }
                }
                assert forall|x: ValueId| rest.contains(x) implies #[trigger] pending@.contains(
                    x,
                ) by {
                    let k = choose|k: int| 0 <= k < rest.len() && rest[k] == x;
                    assert(pending@[k] == x);
                }
                assert forall|i: int| 0 <= i < listed.len() implies pending@.contains(
                    #[trigger] listed[i],
                ) by {
                    assert(pending@[rest.len() + i] == listed[i]);
                }
            }
        }
        proof {
            assert forall|v: int, i: int|
                seen.contains(v) && 0 <= i < operands(m, v).len() implies seen.contains(
                (#[trigger] operands(m, v)[i]).raw as int,
            ) || pending@.contains(operands(m, v)[i]) by {
                let x = operands(m, v)[i];
                if v == value.raw {
                } else {
                    assert(known.contains(v));
                    if !known.contains(x.raw as int) {
                        assert(before.contains(x));
                        if x != value {
                            assert(rest.contains(x));
                        }
                    }
                }
            }
            assert forall|p: int| 0 <= p < pending@.len() implies all.contains(
                (#[trigger] pending@[p]).raw as int,
            ) by {
                if p < rest.len() {
                    assert(pending@[p] == before[p]);
                }
            }
        }
    }
    proof {
        let children = operands_of(m);
        assert forall|v: int, i: int|
            seen.contains(v) && 0 <= v <= root.raw && 0 <= i < children(
                v,
            ).len() implies seen.contains((#[trigger] children(v)[i]).raw as int) by {
            assert(operands(m, v)[i] == children(v)[i]);
        }
        assert forall|x: int| all.contains(x) implies seen.contains(x) by {
            lemma_descend_least(operands_of(m), root.raw as int, seen, x);
        }
        assert(seen =~= all);
    }
    true
}

/// States that are reached from a reset in at most `steps` transitions.
pub open spec fn reached_in(
    resets: Seq<usize>,
    successors: Seq<Seq<usize>>,
    steps: nat,
    state: int,
) -> bool
    decreases steps,
{
    if steps == 0 {
        exists|r: int| 0 <= r < resets.len() && #[trigger] resets[r] == state
    } else {
        reached_in(resets, successors, (steps - 1) as nat, state) || exists|from: int, k: int|
            0 <= from < successors.len() && 0 <= k < successors[from].len() && (
            #[trigger] successors[from][k]) == state && reached_in(
                resets,
                successors,
                (steps - 1) as nat,
                from,
            )
    }
}

/// States that are reached from a reset.
pub open spec fn reached(resets: Seq<usize>, successors: Seq<Seq<usize>>, state: int) -> bool {
    exists|steps: nat| #[trigger] reached_in(resets, successors, steps, state)
}

pub open spec fn edges(successors: Seq<Vec<usize>>) -> Seq<Seq<usize>> {
    successors.map_values(|row: Vec<usize>| row@)
}

/// The states of a list that satisfy a predicate on their place.
pub open spec fn retained(states: Seq<Seq<BitVal>>, keep: spec_fn(int) -> bool) -> Seq<Seq<BitVal>>
    decreases states.len(),
{
    if states.len() == 0 {
        seq![]
    } else {
        let below = retained(states.drop_last(), keep);
        if keep(states.len() - 1) {
            below.push(states.last())
        } else {
            below
        }
    }
}

/// A transition relation whose reachable part stays inside the state set.
pub open spec fn relation_ok(count: nat, resets: Seq<usize>, successors: Seq<Seq<usize>>) -> bool {
    &&& successors.len() == count
    &&& forall|r: int| 0 <= r < resets.len() ==> (#[trigger] resets[r]) < count
    &&& forall|from: int, k: int|
        0 <= from < count && reached(resets, successors, from) && 0 <= k < successors[from].len()
            ==> (#[trigger] successors[from][k]) < count
}

/// The marked states of a search that has finished with all but the pending.
pub open spec fn search_state(
    resets: Seq<usize>,
    successors: Seq<Seq<usize>>,
    marks: Seq<bool>,
    pending: Seq<usize>,
) -> bool {
    &&& forall|s: int| 0 <= s < marks.len() && #[trigger] marks[s] ==> reached(resets, successors, s)
    &&& forall|p: int|
        0 <= p < pending.len() ==> (#[trigger] pending[p]) < marks.len()
            && marks[pending[p] as int]
    &&& forall|from: int, k: int|
        0 <= from < marks.len() && marks[from] && 0 <= k < successors[from].len()
            ==> pending.contains(from as usize) || ((#[trigger] successors[from][k]) < marks.len()
            && marks[successors[from][k] as int])
}

proof fn lemma_marks_complete(
    resets: Seq<usize>,
    successors: Seq<Seq<usize>>,
    marks: Seq<bool>,
    steps: nat,
    state: int,
)
    requires
        marks.len() == successors.len(),
        search_state(resets, successors, marks, seq![]),
        forall|r: int|
            0 <= r < resets.len() ==> (#[trigger] resets[r]) < marks.len()
                && marks[resets[r] as int],
        reached_in(resets, successors, steps, state),
    ensures
        0 <= state < marks.len(),
        marks[state],
    decreases steps,
{
    if steps == 0 {
        let r = choose|r: int| 0 <= r < resets.len() && #[trigger] resets[r] == state;
        assert(marks[resets[r] as int]);
    } else if reached_in(resets, successors, (steps - 1) as nat, state) {
        lemma_marks_complete(resets, successors, marks, (steps - 1) as nat, state);
    } else {
        let (from, k) = choose|from: int, k: int|
            0 <= from < successors.len() && 0 <= k < successors[from].len() && (
            #[trigger] successors[from][k]) == state && reached_in(
                resets,
                successors,
                (steps - 1) as nat,
                from,
            );
        lemma_marks_complete(resets, successors, marks, (steps - 1) as nat, from);
        assert(!Seq::<usize>::empty().contains(from as usize));
        assert(marks[successors[from][k] as int]);
    }
}

proof fn lemma_reach_step(resets: Seq<usize>, successors: Seq<Seq<usize>>, from: int, k: int)
    requires
        0 <= from < successors.len(),
        0 <= k < successors[from].len(),
        reached(resets, successors, from),
    ensures
        reached(resets, successors, successors[from][k] as int),
{
    let steps = choose|steps: nat| #[trigger] reached_in(resets, successors, steps, from);
    assert(successors[from][k] == successors[from][k] as int);
    assert(reached_in(resets, successors, steps + 1, successors[from][k] as int));
}

/// The number of states not marked yet.
spec fn unmarked(marks: Seq<bool>) -> nat
    decreases marks.len(),
{
    if marks.len() == 0 {
        0
    } else {
        unmarked(marks.drop_last()) + (if marks.last() {
            0nat
        } else {
            1nat
        })
    }
}

proof fn lemma_unmarked(marks: Seq<bool>, place: int)
    requires
        0 <= place < marks.len(),
        !marks[place],
    ensures
        unmarked(marks.update(place, true)) + 1 == unmarked(marks),
    decreases marks.len(),
{
    let after = marks.update(place, true);
    if place == marks.len() - 1 {
        assert(after.drop_last() =~= marks.drop_last());
    } else {
        assert(after.drop_last() =~= marks.drop_last().update(place, true));
        lemma_unmarked(marks.drop_last(), place);
    }
}

/// Drops the states that no reset leads to.
pub fn retain_reset_reachable_states(
    states: &mut Vec<ConstBits>,
    reset_states: &Vec<usize>,
    successors: &Vec<Vec<usize>>,
) -> (result: Result<bool, SynthError>)
    ensures
        result is Ok <==> relation_ok(old(states)@.len(), reset_states@, edges(successors@)),
        result matches Err(error) ==> error == SynthError::Invariant(Invariant::BrokenSelection)
            && states_view(final(states)@) == states_view(old(states)@),
        result matches Ok(some) ==> {
            &&& states_view(final(states)@) == retained(
                states_view(old(states)@),
                |s: int| reached(reset_states@, edges(successors@), s),
            )
            &&& some == (final(states)@.len() > 0)
        },
{
    let ghost count = states@.len();
    let ghost resets = reset_states@;
    let ghost succ = edges(successors@);
    let total: usize = states.len();
    if successors.len() != total {
        return Err(SynthError::Invariant(Invariant::BrokenSelection));
    }
    let mut marks: Vec<bool> = Vec::new();
    while marks.len() < states.len()
        invariant
            marks@.len() <= states@.len(),
            forall|i: int| 0 <= i < marks@.len() ==> !#[trigger] marks@[i],
        decreases states.len() - marks.len(),
    {
        marks.push(false);
    }
    let mut pending: Vec<usize> = Vec::new();
    let mut index: usize = 0;
    while index < reset_states.len()
        invariant
            index <= resets.len(),
            resets == reset_states@,
            succ == edges(successors@),
            succ.len() == count,
            count == states@.len(),
            count <= usize::MAX,
            states == old(states),
            marks@.len() == count,
            search_state(resets, succ, marks@, pending@),
            forall|s: int|
                0 <= s < marks@.len() && #[trigger] marks@[s] ==> pending@.contains(s as usize),
            forall|r: int|
                0 <= r < index ==> (#[trigger] resets[r]) < count && marks@[resets[r] as int],
        decreases reset_states.len() - index,
    {
        let reset: usize = reset_states[index];
        if reset >= marks.len() {
            assert(resets[index as int] >= count);
            return Err(SynthError::Invariant(Invariant::BrokenSelection));
        }
        if !marks[reset] {
            let ghost before = pending@;
            let ghost old_marks = marks@;
            marks.set(reset, true);
            pending.push(reset);
            proof {
                assert(resets[index as int] == reset);
                assert(reached_in(resets, succ, 0, reset as int));
                assert(pending@[before.len() as int] == reset);
                assert forall|s: int| 0 <= s < marks@.len() && #[trigger] marks@[s] implies
                    pending@.contains(s as usize) by {
                    if s != reset {
                        assert(old_marks[s]);
                        let k = choose|k: int| 0 <= k < before.len() && before[k] == s as usize;
                        assert(pending@[k] == s as usize);
                    }
                }
            }
        }
        index += 1;
    }
    while pending.len() > 0
        invariant
            resets == reset_states@,
            succ == edges(successors@),
            succ.len() == count,
            count == states@.len(),
            count <= usize::MAX,
            states == old(states),
            marks@.len() == count,
            search_state(resets, succ, marks@, pending@),
            forall|r: int|
                0 <= r < resets.len() ==> (#[trigger] resets[r]) < count
                    && marks@[resets[r] as int],
        decreases unmarked(marks@), pending.len(),
    {
        let ghost before = pending@;
        let state: usize = match pending.pop() {
            Some(state) => state,
            None => return Err(SynthError::Invariant(Invariant::BrokenSelection)),
        };
        assert(before[before.len() - 1] == state);
        let targets = &successors[state];
        assert(succ[state as int] == targets@);
        assert(reached(resets, succ, state as int));
        let mut k: usize = 0;
        proof {
            assert forall|from: int, j: int|
                0 <= from < marks@.len() && marks@[from] && 0 <= j < succ[from].len() && from
                    != state implies pending@.contains(from as usize) || ((
            #[trigger] succ[from][j]) < marks@.len() && marks@[succ[from][j] as int]) by {
                if before.contains(from as usize) {
                    let p = choose|p: int| 0 <= p < before.len() && before[p] == from as usize;
                    assert(pending@[p] == from as usize);
                }
            }
        }
        let ghost entry = unmarked(marks@);
        let ghost height = pending@.len();
        while k < targets.len()
            invariant
                k <= targets@.len(),
                resets == reset_states@,
                succ == edges(successors@),
                succ.len() == count,
                count == states@.len(),
                count <= usize::MAX,
                states == old(states),
                marks@.len() == count,
                state < count,
                targets@ == succ[state as int],
                reached(resets, succ, state as int),
                marks@[state as int],
                unmarked(marks@) < entry || (unmarked(marks@) == entry && pending@.len() == height),
                forall|s: int|
                    0 <= s < marks@.len() && #[trigger] marks@[s] ==> reached(resets, succ, s),
                forall|p: int|
                    0 <= p < pending@.len() ==> (#[trigger] pending@[p]) < marks@.len()
                        && marks@[pending@[p] as int],
                forall|from: int, j: int|
                    0 <= from < marks@.len() && marks@[from] && 0 <= j < succ[from].len() && from
                        != state ==> pending@.contains(from as usize) || ((
                    #[trigger] succ[from][j]) < marks@.len() && marks@[succ[from][j] as int]),
                forall|j: int|
                    0 <= j < k ==> (#[trigger] succ[state as int][j]) < marks@.len()
                        && marks@[succ[state as int][j] as int],
                forall|r: int|
                    0 <= r < resets.len() ==> (#[trigger] resets[r]) < count
                        && marks@[resets[r] as int],
            decreases targets.len() - k,
        {
            let target: usize = targets[k];
            assert(succ[state as int][k as int] == target);
            if target >= marks.len() {
                return Err(SynthError::Invariant(Invariant::BrokenSelection));
            }
            if !marks[target] {
                let ghost old_pending = pending@;
                let ghost old_marks = marks@;
                proof {
                    lemma_reach_step(resets, succ, state as int, k as int);
                    lemma_unmarked(marks@, target as int);
                }
                marks.set(target, true);
                pending.push(target);
                proof {
                    assert(pending@[old_pending.len() as int] == target);
                    assert forall|from: int, j: int|
                        0 <= from < marks@.len() && marks@[from] && 0 <= j < succ[from].len()
                            && from != state implies pending@.contains(from as usize) || ((
                    #[trigger] succ[from][j]) < marks@.len() && marks@[succ[from][j] as int]) by {
                        if from != target {
                            assert(old_marks[from]);
                            if old_pending.contains(from as usize) {
                                let p = choose|p: int|
                                    0 <= p < old_pending.len() && old_pending[p] == from as usize;
                                assert(pending@[p] == from as usize);
                            }
                        }
                    }
                }
            }
            k += 1;
        }
    }
    proof {
        assert(pending@ =~= seq![]);
        assert forall|s: int| 0 <= s < count implies #[trigger] marks@[s] == reached(
            resets,
            succ,
            s,
        ) by {
            if reached(resets, succ, s) {
                let steps = choose|steps: nat| #[trigger] reached_in(resets, succ, steps, s);
                lemma_marks_complete(resets, succ, marks@, steps, s);
            }
        }
        assert forall|from: int, k: int|
            0 <= from < count && reached(resets, succ, from) && 0 <= k
                < succ[from].len() implies (#[trigger] succ[from][k]) < count by {
            assert(marks@[from]);
            assert(!Seq::<usize>::empty().contains(from as usize));
        }
    }
    let ghost keep = |s: int| reached(resets, succ, s);
    let ghost view = states_view(states@);
    let mut kept: Vec<ConstBits> = Vec::new();
    let mut place: usize = 0;
    assert(view.take(0) =~= seq![]);
    assert(states_view(kept@) =~= seq![]);
    while place < states.len()
        invariant
            place <= states@.len(),
            states == old(states),
            view == states_view(states@),
            marks@.len() == states@.len(),
            forall|s: int| 0 <= s < marks@.len() ==> #[trigger] marks@[s] == keep(s),
            states_view(kept@) == retained(view.take(place as int), keep),
        decreases states.len() - place,
    {
        let ghost before = kept@;
        assert(view.take(place + 1).drop_last() =~= view.take(place as int));
        assert(view[place as int] == states@[place as int]@);
        if marks[place] {
            kept.push(states[place].duplicate());
            assert(states_view(kept@) =~= states_view(before).push(view[place as int]));
        }
        place += 1;
    }
    assert(view.take(place as int) =~= view);
    let some: bool = kept.len() > 0;
    *states = kept;
    Ok(some)
}

} // verus!
