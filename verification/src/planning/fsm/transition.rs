//! The transition function of a state machine, taken apart.

use super::encoding::{is_boolean, push_unique, MAX_STATES, MAX_TRANSITION_VALUES};
use super::reachability::{
    descend, descending, lemma_descend_bound, lemma_descend_finite, lemma_descend_least,
    lemma_descend_step,
};
use super::symbolic::encoder::Pending;
use super::symbolic::selection::states_view;
use crate::collections::IdSet;
use crate::word::module::{KindView, ModuleView, ValueKind, WordModule};
use crate::word::numbers::{all_known, known_word};
use crate::word::semantics::{eval, Env};
use crate::word::types::{op_inputs, BitVal, ConstBits, OpKind, OpView, SignalId, ValueId};
use vstd::prelude::*;

verus! {

/// Values that an analysis has found constant, with their bits.
pub open spec fn facts_view(facts: Seq<Option<ConstBits>>) -> Seq<Option<Seq<BitVal>>> {
    facts.map_values(
        |fact: Option<ConstBits>|
            match fact {
                Some(bits) => Some(bits@),
                None => None,
            },
    )
}

/// Constants of the right width that hold in every environment.
pub open spec fn facts_sound(module: ModuleView, facts: Seq<Option<Seq<BitVal>>>) -> bool {
    &&& facts.len() == module.values.len()
    &&& forall|v: int|
        0 <= v < module.values.len() && (#[trigger] facts[v]) is Some ==> facts[v]->0.len()
            == module.values[v].ty.width
    &&& forall|v: int, env: Env|
        0 <= v < module.values.len() && facts[v] is Some && all_known(facts[v]->0)
            ==> #[trigger] eval(module, env, v) == known_word(facts[v]->0)
}

/// A read of the state signal from its lowest bit.
pub open spec fn is_state_read(module: ModuleView, state: SignalId, value: int) -> bool {
    module.values[value].kind matches KindView::Signal(reference) && reference.signal == state
        && reference.lsb == 0 && reference.width == module.values[value].ty.width
}

/// The values among which a transition value selects.
pub open spec fn choices(module: ModuleView, value: int) -> Seq<ValueId> {
    match module.values[value].kind {
        KindView::Operation(operation) => match module.operations[operation.raw as int].kind {
            OpView::Mux { cond, then_value, else_value } => seq![then_value, else_value],
            OpView::Cast { kind, value: operand, target } => if target.width == module.ty(
                operand,
            ).width {
                seq![operand]
            } else {
                seq![]
            },
            _ => seq![],
        },
        _ => seq![],
    }
}

pub open spec fn choices_of(module: ModuleView) -> spec_fn(int) -> Seq<ValueId> {
    |value: int| choices(module, value)
}

/// Operations that select rather than compute.
pub open spec fn is_choice(module: ModuleView, value: int) -> bool {
    match module.values[value].kind {
        KindView::Operation(operation) => {
            let kind = module.operations[operation.raw as int].kind;
            kind is Mux || kind is Cast
        },
        _ => false,
    }
}

/// The state that a transition value stands for, if it stands for one.
pub open spec fn fixed_state(
    module: ModuleView,
    facts: Seq<Option<Seq<BitVal>>>,
    value: int,
) -> Option<Seq<BitVal>> {
    match module.values[value].kind {
        KindView::Constant(bits) => Some(bits),
        KindView::Operation(_) => if is_choice(module, value) {
            None
        } else {
            facts[value]
        },
        KindView::Signal(_) => None,
    }
}

/// A value that may stand in a transition function.
pub open spec fn admissible(
    module: ModuleView,
    facts: Seq<Option<Seq<BitVal>>>,
    state: SignalId,
    value: int,
) -> bool {
    match module.values[value].kind {
        KindView::Constant(bits) => all_known(bits),
        KindView::Signal(_) => is_state_read(module, state, value),
        KindView::Operation(operation) => match module.operations[operation.raw as int].kind {
            OpView::Mux { cond, then_value, else_value } => true,
            OpView::Cast { kind, value: operand, target } => target.width == module.ty(
                operand,
            ).width,
            _ => facts[value] is Some && all_known(facts[value]->0),
        },
    }
}

/// Everything that a transition function selects among.
pub open spec fn transition_cone(module: ModuleView, root: int) -> Set<int> {
    descend(choices_of(module), root)
}

/// Lists of different states from a transition function stay short.
pub open spec fn few_states(
    module: ModuleView,
    facts: Seq<Option<Seq<BitVal>>>,
    root: int,
) -> bool {
    forall|list: Seq<Seq<BitVal>>| #[trigger]
        list.no_duplicates() && (forall|i: int|
            0 <= i < list.len() ==> names_state(module, facts, root, #[trigger] list[i]))
            ==> list.len() <= MAX_STATES
}

/// A state that some value of a transition function stands for.
pub open spec fn names_state(
    module: ModuleView,
    facts: Seq<Option<Seq<BitVal>>>,
    root: int,
    state: Seq<BitVal>,
) -> bool {
    exists|v: int| #[trigger]
        transition_cone(module, root).contains(v) && fixed_state(module, facts, v) == Some(state)
}

/// A transition function that selects among constants and the present state,
/// within the limits on its size.
pub open spec fn finite_transition(
    module: ModuleView,
    facts: Seq<Option<Seq<BitVal>>>,
    state: SignalId,
    root: int,
) -> bool {
    &&& forall|v: int| #[trigger]
        transition_cone(module, root).contains(v) ==> admissible(module, facts, state, v)
    &&& transition_cone(module, root).len() <= MAX_TRANSITION_VALUES
    &&& few_states(module, facts, root)
}

/// A constant of a transition function and the value that stands for it.
pub struct FixedValue {
    pub value: ValueId,
    pub bits: ConstBits,
}

/// A transition function in dependency order, with its states and constants.
pub struct TransitionCollection {
    pub states: Vec<ConstBits>,
    pub order: Vec<ValueId>,
    pub constants: Vec<FixedValue>,
}

/// A state that some value in `done` stands for.
pub open spec fn stated(
    module: ModuleView,
    facts: Seq<Option<Seq<BitVal>>>,
    done: Set<int>,
    state: Seq<BitVal>,
) -> bool {
    exists|v: int| #[trigger] done.contains(v) && fixed_state(module, facts, v) == Some(state)
}

pub open spec fn precedes(order: Seq<ValueId>, first: ValueId, before: int) -> bool {
    exists|k: int| 0 <= k < before && #[trigger] order[k] == first
}

/// Exactly the values in `done`, each once and after its choices.
pub open spec fn order_ok(module: ModuleView, order: Seq<ValueId>, done: Set<int>) -> bool {
    &&& order.no_duplicates()
    &&& forall|k: int|
        0 <= k < order.len() ==> done.contains((#[trigger] order[k]).raw as int)
    &&& forall|v: int| #[trigger]
        done.contains(v) ==> 0 <= v < module.values.len() && precedes(
            order,
            ValueId { raw: v as u32 },
            order.len() as int,
        )
    &&& forall|k: int, i: int|
        0 <= k < order.len() && 0 <= i < choices(module, order[k].raw as int).len() ==> precedes(
            order,
            #[trigger] choices(module, order[k].raw as int)[i],
            k,
        )
}

/// Exactly the values in `done` that stand for a state, with it.
pub open spec fn constants_ok(
    module: ModuleView,
    facts: Seq<Option<Seq<BitVal>>>,
    constants: Seq<FixedValue>,
    done: Set<int>,
) -> bool {
    &&& forall|k: int|
        0 <= k < constants.len() ==> done.contains((#[trigger] constants[k]).value.raw as int)
            && fixed_state(module, facts, constants[k].value.raw as int) == Some(
            constants[k].bits@,
        )
    &&& forall|v: int| #[trigger]
        done.contains(v) && fixed_state(module, facts, v) is Some ==> lists(constants, v)
}

pub open spec fn lists(constants: Seq<FixedValue>, value: int) -> bool {
    exists|k: int| 0 <= k < constants.len() && (#[trigger] constants[k]).value.raw == value
}

impl TransitionCollection {
    /// What the collection says about the values in `done`.
    pub open spec fn describes(
        &self,
        module: ModuleView,
        facts: Seq<Option<Seq<BitVal>>>,
        done: Set<int>,
    ) -> bool {
        &&& order_ok(module, self.order@, done)
        &&& constants_ok(module, facts, self.constants@, done)
        &&& states_view(self.states@).no_duplicates()
        &&& forall|v: int| #[trigger]
            done.contains(v) && fixed_state(module, facts, v) is Some ==> states_view(
                self.states@,
            ).contains(fixed_state(module, facts, v)->0)
        &&& forall|s: int|
            0 <= s < self.states@.len() ==> stated(
                module,
                facts,
                done,
                #[trigger] states_view(self.states@)[s],
            )
    }
}

proof fn lemma_choices_descend(module: ModuleView)
    requires
        module.wf(),
    ensures
        descending(choices_of(module), module.values.len() as int),
{
    let children = choices_of(module);
    assert forall|v: int, i: int|
        0 <= v < module.values.len() && 0 <= i < children(v).len() implies (
    #[trigger] children(v)[i]).raw < v by {
        assert(module.value_ok(v));
        if let KindView::Operation(operation) = module.values[v].kind {
            assert(module.operation_ok(operation.raw as int));
            let kind = module.operations[operation.raw as int].kind;
            let inputs = op_inputs(kind);
            if kind is Mux {
                assert(inputs[1].raw < v && inputs[2].raw < v);
            } else if kind is Cast {
                assert(inputs[0].raw < v);
            }
        }
    }
}

/// The work list of the collection.
pub open spec fn walk_ok(
    module: ModuleView,
    root: int,
    pending: Seq<Pending>,
    active: Set<u64>,
    done: Set<int>,
) -> bool {
    let all = transition_cone(module, root);
    &&& forall|p: int|
        0 <= p < pending.len() ==> all.contains((#[trigger] pending[p]).value.raw as int)
    &&& done.subset_of(all)
    &&& forall|p: int|
        0 <= p < pending.len() && (#[trigger] pending[p]).exiting ==> active.contains(
            pending[p].value.raw as u64,
        ) && open_covered(module, pending, done, p)
    &&& forall|x: u64| #[trigger]
        active.contains(x) ==> x <= u32::MAX && !done.contains(x as int) && exists|p: int|
            0 <= p < pending.len() && (#[trigger] pending[p]).exiting && pending[p].value.raw == x
    &&& forall|p: int, q: int|
        0 <= p < q < pending.len() && (#[trigger] pending[p]).exiting ==> (
        #[trigger] pending[q]).value.raw < pending[p].value.raw
    &&& done.contains(root) || exists|p: int|
        0 <= p < pending.len() && (#[trigger] pending[p]).value.raw == root
}

/// The choices of a value on the work list are done or listed above it.
pub open spec fn open_covered(
    module: ModuleView,
    pending: Seq<Pending>,
    done: Set<int>,
    p: int,
) -> bool {
    forall|i: int|
        0 <= i < choices(module, pending[p].value.raw as int).len() ==> done.contains(
            (#[trigger] choices(module, pending[p].value.raw as int)[i]).raw as int,
        ) || above(pending, p, choices(module, pending[p].value.raw as int)[i])
}

pub open spec fn above(pending: Seq<Pending>, p: int, value: ValueId) -> bool {
    exists|q: int| p < q < pending.len() && (#[trigger] pending[q]).value == value
}

/// The top of the work list is done and goes.
proof fn lemma_walk_done(
    module: ModuleView,
    root: int,
    pending: Seq<Pending>,
    active: Set<u64>,
    done: Set<int>,
    left: Set<u64>,
    now: Set<int>,
)
    requires
        walk_ok(module, root, pending, active, done),
        pending.len() > 0,
        now == done.insert(pending.last().value.raw as int),
        pending.last().exiting ==> left == active.remove(pending.last().value.raw as u64),
        !pending.last().exiting ==> left == active && !active.contains(
            pending.last().value.raw as u64,
        ),
    ensures
        walk_ok(module, root, pending.drop_last(), left, now),
{
    let rest = pending.drop_last();
    let top = pending.last();
    let last = pending.len() - 1;
    assert(pending[last] == top);
    assert forall|p: int| 0 <= p < rest.len() implies transition_cone(module, root).contains(
        (#[trigger] rest[p]).value.raw as int,
    ) by {
        assert(rest[p] == pending[p]);
    }
    assert(transition_cone(module, root).contains(pending[last].value.raw as int));
    assert forall|p: int| 0 <= p < rest.len() && (#[trigger] rest[p]).exiting implies left.contains(
        rest[p].value.raw as u64,
    ) && open_covered(module, rest, now, p) by {
        assert(rest[p] == pending[p]);
        assert(pending[p].exiting);
        assert(pending[last].value.raw < pending[p].value.raw);
        assert forall|i: int|
            0 <= i < choices(module, rest[p].value.raw as int).len() implies now.contains(
            (#[trigger] choices(module, rest[p].value.raw as int)[i]).raw as int,
        ) || above(rest, p, choices(module, rest[p].value.raw as int)[i]) by {
            let child = choices(module, pending[p].value.raw as int)[i];
            if !now.contains(child.raw as int) {
                assert(above(pending, p, child));
                let q = choose|q: int|
                    p < q < pending.len() && (#[trigger] pending[q]).value == child;
                assert(rest[q] == pending[q]);
            }
        }
    }
    assert forall|x: u64| #[trigger] left.contains(x) implies x <= u32::MAX && !now.contains(
        x as int,
    ) && exists|p: int|
        0 <= p < rest.len() && (#[trigger] rest[p]).exiting && rest[p].value.raw == x by {
        assert(active.contains(x));
        let p = choose|p: int|
            0 <= p < pending.len() && (#[trigger] pending[p]).exiting && pending[p].value.raw == x;
        assert(p != last);
        assert(rest[p] == pending[p]);
    }
    assert forall|p: int, q: int|
        0 <= p < q < rest.len() && (#[trigger] rest[p]).exiting implies (
    #[trigger] rest[q]).value.raw < rest[p].value.raw by {
        assert(rest[p] == pending[p] && rest[q] == pending[q]);
        assert(pending[p].exiting);
    }
    if !now.contains(root) {
        let p = choose|p: int|
            0 <= p < pending.len() && (#[trigger] pending[p]).value.raw == root;
        assert(p != last);
        assert(rest[p] == pending[p]);
    }
}

/// The top of the work list waits below its choices.
proof fn lemma_walk_expand(
    module: ModuleView,
    root: int,
    pending: Seq<Pending>,
    active: Set<u64>,
    done: Set<int>,
    next: Seq<Pending>,
)
    requires
        module.wf(),
        0 <= root < module.values.len(),
        walk_ok(module, root, pending, active, done),
        pending.len() > 0,
        !pending.last().exiting,
        !active.contains(pending.last().value.raw as u64),
        !done.contains(pending.last().value.raw as int),
        ({
            let kids = choices(module, pending.last().value.raw as int);
            let base = pending.len() as int;
            &&& next.len() == base + kids.len()
            &&& forall|i: int| 0 <= i < base - 1 ==> #[trigger] next[i] == pending[i]
            &&& next[base - 1] == (Pending { value: pending.last().value, exiting: true })
            &&& forall|i: int|
                base <= i < next.len() ==> (#[trigger] next[i]) == (Pending {
                    value: kids[kids.len() - 1 - (i - base)],
                    exiting: false,
                })
        }),
    ensures
        walk_ok(
            module,
            root,
            next,
            active.insert(pending.last().value.raw as u64),
            done,
        ),
{
    let top = pending.last();
    let last = pending.len() - 1;
    let base = pending.len() as int;
    let kids = choices(module, top.value.raw as int);
    let now = active.insert(top.value.raw as u64);
    let all = transition_cone(module, root);
    lemma_choices_descend(module);
    assert(pending[last] == top);
    assert(all.contains(top.value.raw as int));
    lemma_descend_bound(choices_of(module), root, top.value.raw as int);
    assert forall|i: int| 0 <= i < kids.len() implies (#[trigger] kids[i]).raw < top.value.raw
        && all.contains(kids[i].raw as int) by {
        assert(choices_of(module)(top.value.raw as int)[i].raw < top.value.raw);
        lemma_descend_step(
            choices_of(module),
            module.values.len() as int,
            root,
            top.value.raw as int,
            i,
        );
    }
    assert forall|p: int| 0 <= p < next.len() implies all.contains(
        (#[trigger] next[p]).value.raw as int,
    ) by {
        if p < last {
            assert(next[p] == pending[p]);
        } else if p >= base {
            assert(next[p].value == kids[kids.len() - 1 - (p - base)]);
        }
    }
    assert forall|p: int| 0 <= p < next.len() && (#[trigger] next[p]).exiting implies now.contains(
        next[p].value.raw as u64,
    ) && open_covered(module, next, done, p) by {
        if p < last {
            assert(next[p] == pending[p]);
            assert(pending[p].exiting);
            assert(open_covered(module, pending, done, p));
            assert forall|i: int|
                0 <= i < choices(module, next[p].value.raw as int).len() implies done.contains(
                (#[trigger] choices(module, next[p].value.raw as int)[i]).raw as int,
            ) || above(next, p, choices(module, next[p].value.raw as int)[i]) by {
                let child = choices(module, pending[p].value.raw as int)[i];
                if !done.contains(child.raw as int) {
                    assert(above(pending, p, child));
                    let q = choose|q: int|
                        p < q < pending.len() && (#[trigger] pending[q]).value == child;
                    assert(next[q].value == child);
                }
            }
        } else {
            assert(p == last);
            assert forall|i: int|
                0 <= i < choices(module, next[p].value.raw as int).len() implies done.contains(
                (#[trigger] choices(module, next[p].value.raw as int)[i]).raw as int,
            ) || above(next, p, choices(module, next[p].value.raw as int)[i]) by {
                let q = base + kids.len() - 1 - i;
                assert(next[q].value == kids[i]);
            }
        }
    }
    assert forall|x: u64| #[trigger] now.contains(x) implies x <= u32::MAX && !done.contains(
        x as int,
    ) && exists|p: int|
        0 <= p < next.len() && (#[trigger] next[p]).exiting && next[p].value.raw == x by {
        if x == top.value.raw {
            assert(next[last].exiting);
        } else {
            assert(active.contains(x));
            let p = choose|p: int|
                0 <= p < pending.len() && (#[trigger] pending[p]).exiting && pending[p].value.raw
                    == x;
            assert(p != last);
            assert(next[p] == pending[p]);
        }
    }
    assert forall|p: int, q: int|
        0 <= p < q < next.len() && (#[trigger] next[p]).exiting implies (
    #[trigger] next[q]).value.raw < next[p].value.raw by {
        assert(p <= last);
        if q >= base {
            assert(next[q].value == kids[kids.len() - 1 - (q - base)]);
        }
        if p < last {
            assert(next[p] == pending[p]);
            assert(pending[p].exiting);
            assert(pending[last].value.raw < pending[p].value.raw);
            if q < last {
                assert(next[q] == pending[q]);
            }
        }
    }
    if !done.contains(root) {
        let p = choose|p: int|
            0 <= p < pending.len() && (#[trigger] pending[p]).value.raw == root;
        assert(next[p].value.raw == root);
    }
}

/// The touched values of a walk: finished and waiting.
pub open spec fn touched(done: Set<int>, active: Set<u64>) -> Set<int> {
    done.union(Set::new(|x: int| 0 <= x <= u32::MAX && active.contains(x as u64)))
}

impl TransitionCollection {
    /// Finishes a value that stands for no state.
    fn finish(
        &mut self,
        value: ValueId,
        Ghost(module): Ghost<ModuleView>,
        Ghost(facts): Ghost<Seq<Option<Seq<BitVal>>>>,
        Ghost(done): Ghost<Set<int>>,
    )
        requires
            old(self).describes(module, facts, done),
            !done.contains(value.raw as int),
            module.has(value),
            fixed_state(module, facts, value.raw as int) is None,
            forall|i: int|
                0 <= i < choices(module, value.raw as int).len() ==> done.contains(
                    (#[trigger] choices(module, value.raw as int)[i]).raw as int,
                ),
        ensures
            final(self).describes(module, facts, done.insert(value.raw as int)),
            final(self).order@ == old(self).order@.push(value),
            final(self).states@ == old(self).states@,
    {
        let ghost before = *self;
        self.order.push(value);
        proof {
            lemma_describes_push(before, *self, module, facts, done, value);
        }
    }

    /// Finishes a value that stands for a state.
    fn finish_state(
        &mut self,
        value: ValueId,
        bits: &ConstBits,
        Ghost(module): Ghost<ModuleView>,
        Ghost(facts): Ghost<Seq<Option<Seq<BitVal>>>>,
        Ghost(done): Ghost<Set<int>>,
    )
        requires
            old(self).describes(module, facts, done),
            !done.contains(value.raw as int),
            module.has(value),
            fixed_state(module, facts, value.raw as int) == Some(bits@),
            choices(module, value.raw as int).len() == 0,
        ensures
            final(self).describes(module, facts, done.insert(value.raw as int)),
            final(self).order@ == old(self).order@.push(value),
    {
        let ghost before = *self;
        push_unique(&mut self.states, bits.duplicate());
        self.constants.push(FixedValue { value, bits: bits.duplicate() });
        self.order.push(value);
        proof {
            lemma_describes_push(before, *self, module, facts, done, value);
        }
    }
}

proof fn lemma_describes_push(
    before: TransitionCollection,
    after: TransitionCollection,
    module: ModuleView,
    facts: Seq<Option<Seq<BitVal>>>,
    done: Set<int>,
    value: ValueId,
)
    requires
        before.describes(module, facts, done),
        !done.contains(value.raw as int),
        module.has(value),
        after.order@ == before.order@.push(value),
        forall|i: int|
            0 <= i < choices(module, value.raw as int).len() ==> done.contains(
                (#[trigger] choices(module, value.raw as int)[i]).raw as int,
            ),
        match fixed_state(module, facts, value.raw as int) {
            None => after.states@ == before.states@ && after.constants@ == before.constants@,
            Some(bits) => {
                &&& states_view(after.states@) == (if states_view(before.states@).contains(bits) {
                    states_view(before.states@)
                } else {
                    states_view(before.states@).push(bits)
                })
                &&& after.constants@.len() == before.constants@.len() + 1
                &&& forall|k: int|
                    0 <= k < before.constants@.len() ==> #[trigger] after.constants@[k]
                        == before.constants@[k]
                &&& after.constants@.last().value == value
                &&& after.constants@.last().bits@ == bits
            },
        },
    ensures
        after.describes(module, facts, done.insert(value.raw as int)),
{
    let now = done.insert(value.raw as int);
    let n = before.order@.len() as int;
    let fixed = fixed_state(module, facts, value.raw as int);
    assert forall|i: int, j: int|
        0 <= i < after.order@.len() && 0 <= j < after.order@.len() && i != j implies
        after.order@[i] != after.order@[j] by {
        if i < n {
            assert(done.contains(before.order@[i].raw as int));
            assert(after.order@[i] == before.order@[i]);
        }
        if j < n {
            assert(done.contains(before.order@[j].raw as int));
            assert(after.order@[j] == before.order@[j]);
        }
    }
    assert forall|k: int| 0 <= k < after.order@.len() implies now.contains(
        (#[trigger] after.order@[k]).raw as int,
    ) by {
        if k < n {
            assert(after.order@[k] == before.order@[k]);
        }
    }
    assert forall|v: int| #[trigger] now.contains(v) implies 0 <= v < module.values.len()
        && precedes(after.order@, ValueId { raw: v as u32 }, after.order@.len() as int) by {
        if v == value.raw {
            assert(after.order@[n] == ValueId { raw: v as u32 });
        } else {
            assert(precedes(before.order@, ValueId { raw: v as u32 }, n));
            let k = choose|k: int|
                0 <= k < n && #[trigger] before.order@[k] == (ValueId { raw: v as u32 });
            assert(after.order@[k] == before.order@[k]);
        }
    }
    assert forall|k: int, i: int|
        0 <= k < after.order@.len() && 0 <= i < choices(
            module,
            after.order@[k].raw as int,
        ).len() implies precedes(
        after.order@,
        #[trigger] choices(module, after.order@[k].raw as int)[i],
        k,
    ) by {
        if k < n {
            assert(after.order@[k] == before.order@[k]);
            let child = choices(module, before.order@[k].raw as int)[i];
            assert(precedes(before.order@, child, k));
            let j = choose|j: int| 0 <= j < k && #[trigger] before.order@[j] == child;
            assert(after.order@[j] == child);
        } else {
            let child = choices(module, value.raw as int)[i];
            assert(done.contains(child.raw as int));
            assert(precedes(before.order@, ValueId { raw: child.raw as int as u32 }, n));
            let j = choose|j: int|
                0 <= j < n && #[trigger] before.order@[j] == (ValueId {
                    raw: child.raw as int as u32,
                });
            assert(after.order@[j] == child);
        }
    }
    let states = states_view(after.states@);
    let old_states = states_view(before.states@);
    assert(states.no_duplicates());
    assert forall|k: int| 0 <= k < after.constants@.len() implies now.contains(
        (#[trigger] after.constants@[k]).value.raw as int,
    ) && fixed_state(module, facts, after.constants@[k].value.raw as int) == Some(
        after.constants@[k].bits@,
    ) by {
        if k < before.constants@.len() {
            assert(after.constants@[k] == before.constants@[k]);
        }
    }
    assert forall|x: Seq<BitVal>| old_states.contains(x) implies states.contains(x) by {
        let k = choose|k: int| 0 <= k < old_states.len() && old_states[k] == x;
        assert(states[k] == x);
    }
    if fixed is Some && !old_states.contains(fixed->0) {
        assert(states[old_states.len() as int] == fixed->0);
    }
    assert forall|v: int| #[trigger]
        now.contains(v) && fixed_state(module, facts, v) is Some implies states.contains(
        fixed_state(module, facts, v)->0,
    ) && lists(after.constants@, v) by {
        if v == value.raw {
            assert(after.constants@[before.constants@.len() as int].value == value);
        } else {
            assert(done.contains(v));
            assert(lists(before.constants@, v));
            let k = choose|k: int|
                0 <= k < before.constants@.len() && (#[trigger] before.constants@[k]).value.raw
                    == v;
            assert(after.constants@[k] == before.constants@[k]);
        }
    }
    assert forall|s: int| 0 <= s < after.states@.len() implies stated(
        module,
        facts,
        now,
        #[trigger] states[s],
    ) by {
        if s < before.states@.len() {
            assert(stated(module, facts, done, old_states[s]));
            let v = choose|v: int| #[trigger]
                done.contains(v) && fixed_state(module, facts, v) == Some(old_states[s]);
            assert(now.contains(v));
        } else {
            assert(now.contains(value.raw as int));
        }
    }
}


/// A list without repetition from another list is no longer than it.
proof fn lemma_no_longer(list: Seq<Seq<BitVal>>, all: Seq<Seq<BitVal>>)
    requires
        list.no_duplicates(),
        forall|i: int| 0 <= i < list.len() ==> all.contains(#[trigger] list[i]),
    ensures
        list.len() <= all.len(),
{
    list.unique_seq_to_set();
    all.lemma_cardinality_of_set();
    all.lemma_to_set_map_commutes(|x: Seq<BitVal>| x);
    vstd::seq_lib::seq_to_set_is_finite(all);
    assert forall|x: Seq<BitVal>| list.to_set().contains(x) implies all.to_set().contains(x) by {
        let i = choose|i: int| 0 <= i < list.len() && list[i] == x;
        assert(all.contains(list[i]));
    }
    vstd::set_lib::lemma_len_subset(list.to_set(), all.to_set());
}

/// A set of numbers that stands for a set of values.
pub open spec fn marks(marked: Set<u64>, values: Set<int>) -> bool {
    &&& forall|v: int| #[trigger]
        values.contains(v) ==> 0 <= v <= u32::MAX && marked.contains(v as u64)
    &&& forall|x: u64| #[trigger]
        marked.contains(x) ==> x <= u32::MAX && values.contains(x as int)
}

pub proof fn lemma_marks(marked: Set<u64>, values: Set<int>, value: u32)
    requires
        marks(marked, values),
    ensures
        marked.contains(value as u64) == values.contains(value as int),
        marks(marked.insert(value as u64), values.insert(value as int)),
{
    let now = values.insert(value as int);
    let next = marked.insert(value as u64);
    if marked.contains(value as u64) {
        assert(values.contains(value as u64 as int));
    }
    if values.contains(value as int) {
        assert(marked.contains(value as int as u64));
    }
    assert forall|x: u64| #[trigger] next.contains(x) implies x <= u32::MAX && now.contains(
        x as int,
    ) by {
        if x != value as u64 {
            assert(marked.contains(x));
        }
    }
    assert forall|v: int| #[trigger] now.contains(v) implies 0 <= v <= u32::MAX && next.contains(
        v as u64,
    ) by {
        if v != value {
            assert(values.contains(v));
        }
    }
}

/// The invariant of the collection.
spec fn collecting(
    module: ModuleView,
    facts: Seq<Option<Seq<BitVal>>>,
    state: SignalId,
    root: ValueId,
    pending: Seq<Pending>,
    active: Set<u64>,
    done: Set<int>,
    order: Seq<ValueId>,
) -> bool {
    &&& walk_ok(module, root.raw as int, pending, active, done)
    &&& forall|v: int| #[trigger] done.contains(v) ==> admissible(module, facts, state, v)
    &&& forall|x: u64| #[trigger]
        active.contains(x) ==> admissible(module, facts, state, x as int) && is_choice(
            module,
            x as int,
        )
    &&& forall|v: int, i: int|
        done.contains(v) && 0 <= i < choices(module, v).len() ==> done.contains(
            (#[trigger] choices(module, v)[i]).raw as int,
        )
    &&& pending.len() > 0 ==> pending[0].value == root && !done.contains(root.raw as int)
    &&& pending.len() > 1 ==> pending[0].exiting
    &&& pending.len() == 0 ==> order.len() > 0 && order.last() == root
}

proof fn lemma_collected(
    module: ModuleView,
    facts: Seq<Option<Seq<BitVal>>>,
    state: SignalId,
    root: ValueId,
    done: Set<int>,
    collection: TransitionCollection,
)
    requires
        module.wf(),
        module.has(root),
        collecting(
            module,
            facts,
            state,
            root,
            Seq::empty(),
            Set::empty(),
            done,
            collection.order@,
        ),
        collection.describes(module, facts, done),
        done.len() <= MAX_TRANSITION_VALUES,
        collection.states@.len() <= MAX_STATES,
    ensures
        done == transition_cone(module, root.raw as int),
        finite_transition(module, facts, state, root.raw as int),
{
    let all = transition_cone(module, root.raw as int);
    assert forall|x: int| all.contains(x) implies done.contains(x) by {
        lemma_descend_least(choices_of(module), root.raw as int, done, x);
    }
    assert(done =~= all);
    let states = states_view(collection.states@);
    assert forall|list: Seq<Seq<BitVal>>| #[trigger]
        list.no_duplicates() && (forall|i: int|
            0 <= i < list.len() ==> names_state(
                module,
                facts,
                root.raw as int,
                #[trigger] list[i],
            )) implies list.len() <= MAX_STATES by {
        assert forall|i: int| 0 <= i < list.len() implies states.contains(#[trigger] list[i]) by {
            assert(names_state(module, facts, root.raw as int, list[i]));
            let v = choose|v: int| #[trigger]
                all.contains(v) && fixed_state(module, facts, v) == Some(list[i]);
            assert(done.contains(v));
        }
        lemma_no_longer(list, states);
    }
}

/// Too many states rule a transition function out.
proof fn lemma_too_many(
    module: ModuleView,
    facts: Seq<Option<Seq<BitVal>>>,
    root: int,
    done: Set<int>,
    collection: TransitionCollection,
)
    requires
        collection.describes(module, facts, done),
        done.subset_of(transition_cone(module, root)),
        collection.states@.len() > MAX_STATES,
    ensures
        !few_states(module, facts, root),
{
    let states = states_view(collection.states@);
    assert forall|i: int| 0 <= i < states.len() implies names_state(
        module,
        facts,
        root,
        #[trigger] states[i],
    ) by {
        assert(stated(module, facts, done, states[i]));
        let v = choose|v: int| #[trigger]
            done.contains(v) && fixed_state(module, facts, v) == Some(states[i]);
        assert(transition_cone(module, root).contains(v));
    }
    assert(states.no_duplicates());
}

/// The states of a transition function: every value that it selects among, in
/// dependency order, where it selects among constants and the present state.
#[verifier::rlimit(40)]
pub fn collect_states(
    module: &WordModule,
    root: ValueId,
    state_signal: SignalId,
    facts: &Vec<Option<ConstBits>>,
) -> (result: Option<TransitionCollection>)
    requires
        module@.wf(),
        module@.has(root),
        facts@.len() == module@.values.len(),
    ensures
        result is Some <==> finite_transition(
            module@,
            facts_view(facts@),
            state_signal,
            root.raw as int,
        ),
        result matches Some(collection) ==> collection.describes(
            module@,
            facts_view(facts@),
            transition_cone(module@, root.raw as int),
        ) && collection.order@.len() > 0 && collection.order@.last() == root
            && collection.states@.len() <= MAX_STATES,
{
    let ghost known = facts_view(facts@);
    let ghost view = module@;
    let ghost all = transition_cone(view, root.raw as int);
    let mut collection = TransitionCollection {
        states: Vec::new(),
        order: Vec::new(),
        constants: Vec::new(),
    };
    let mut visited = IdSet::new();
    let mut active = IdSet::new();
    let mut entered: usize = 0;
    let ghost mut done: Set<int> = Set::empty();
    let ghost mut seen: Set<int> = Set::empty();
    let mut pending: Vec<Pending> = Vec::new();
    pending.push(Pending { value: root, exiting: false });
    proof {
        lemma_choices_descend(view);
        lemma_descend_finite(choices_of(view), root.raw as int);
        assert(pending@[0].value == root);
        assert(states_view(collection.states@) =~= Seq::empty());
        assert(touched(done, active@) =~= seen);
    }
    while pending.len() > 0
        invariant
            view == module@,
            view.wf(),
            view.has(root),
            facts@.len() == view.values.len(),
            known == facts_view(facts@),
            all == transition_cone(view, root.raw as int),
            all.finite(),
            collecting(
                view,
                known,
                state_signal,
                root,
                pending@,
                active@,
                done,
                collection.order@,
            ),
            collection.describes(view, known, done),
            collection.states@.len() <= MAX_STATES,
            marks(visited@, done),
            seen == touched(done, active@),
            seen.subset_of(all),
            entered == seen.len(),
            seen.finite(),
            entered <= MAX_TRANSITION_VALUES,
        decreases MAX_TRANSITION_VALUES - entered, pending.len(),
    {
        let ghost before = pending@;
        let ghost was = active@;
        let item = match pending.pop() {
            Some(item) => item,
            None => return None,
        };
        let value = item.value;
        proof {
            assert(before.last() == item);
            assert(before[before.len() - 1] == item);
            assert(pending@ =~= before.drop_last());
            assert(all.contains(before[before.len() - 1].value.raw as int));
            lemma_descend_bound(choices_of(view), root.raw as int, value.raw as int);
            assert(view.value_ok(value.raw as int));
            lemma_marks(visited@, done, value.raw);
            if before.len() > 1 {
                assert(before[0].exiting);
                assert(before[before.len() - 1].value.raw < before[0].value.raw);
                assert(pending@[0] == before[0]);
            }
        }
        if item.exiting {
            let present: bool = active.remove(value.raw as u64);
            proof {
                assert(before[before.len() - 1].exiting);
                assert(was.contains(value.raw as u64));
                assert(open_covered(view, before, done, before.len() - 1));
                assert(is_choice(view, value.raw as u64 as int));
            }
            assert(present);
            visited.insert(value.raw as u64);
            collection.finish(value, Ghost(view), Ghost(known), Ghost(done));
            proof {
                lemma_walk_done(
                    view,
                    root.raw as int,
                    before,
                    was,
                    done,
                    active@,
                    done.insert(value.raw as int),
                );
                done = done.insert(value.raw as int);
                assert(touched(done, active@) =~= seen);
            }
            continue ;
        }
        if visited.contains(value.raw as u64) {
            proof {
                assert(done.insert(value.raw as int) =~= done);
                assert(!was.contains(value.raw as u64));
                lemma_walk_done(view, root.raw as int, before, was, done, active@, done);
            }
            continue ;
        }
        proof {
            assert(!done.contains(value.raw as int));
            if was.contains(value.raw as u64) {
                let p = choose|p: int|
                    0 <= p < before.len() && (#[trigger] before[p]).exiting && before[p].value.raw
                        == value.raw as u64;
                assert(p != before.len() - 1);
                assert(before[before.len() - 1].value.raw < before[p].value.raw);
            }
            assert(!seen.contains(value.raw as int));
            vstd::set_lib::lemma_len_subset(seen.insert(value.raw as int), all);
        }
        if entered >= MAX_TRANSITION_VALUES {
            return None;
        }
        entered += 1;
        proof {
            seen = seen.insert(value.raw as int);
        }
        let stored = &module.values[value.raw as usize];
        assert(stored@ == view.values[value.raw as int]);
        let children: Vec<ValueId> = match &stored.kind {
            ValueKind::Constant(bits) => {
                if !is_boolean(bits) {
                    assert(!admissible(view, known, state_signal, value.raw as int));
                    return None;
                }
                visited.insert(value.raw as u64);
                collection.finish_state(value, bits, Ghost(view), Ghost(known), Ghost(done));
                proof {
                    lemma_walk_done(
                        view,
                        root.raw as int,
                        before,
                        was,
                        done,
                        active@,
                        done.insert(value.raw as int),
                    );
                    done = done.insert(value.raw as int);
                    assert(touched(done, active@) =~= seen);
                }
                if collection.states.len() > MAX_STATES {
                    proof {
                        lemma_too_many(view, known, root.raw as int, done, collection);
                    }
                    return None;
                }
                continue ;
            },
            ValueKind::Signal(reference) => {
                if !(reference.signal.raw == state_signal.raw && reference.lsb == 0
                    && reference.width == stored.ty.width) {
                    assert(!admissible(view, known, state_signal, value.raw as int));
                    return None;
                }
                visited.insert(value.raw as u64);
                collection.finish(value, Ghost(view), Ghost(known), Ghost(done));
                proof {
                    lemma_walk_done(
                        view,
                        root.raw as int,
                        before,
                        was,
                        done,
                        active@,
                        done.insert(value.raw as int),
                    );
                    done = done.insert(value.raw as int);
                    assert(touched(done, active@) =~= seen);
                }
                continue ;
            },
            ValueKind::Operation(operation) => {
                let kind = &module.operations[operation.raw as usize].kind;
                assert(kind@ == view.operations[operation.raw as int].kind);
                assert(view.operation_ok(operation.raw as int));
                match kind {
                    OpKind::Mux { cond, then_value, else_value } => {
                        let mut children: Vec<ValueId> = Vec::new();
                        children.push(*then_value);
                        children.push(*else_value);
                        assert(children@ =~= choices(view, value.raw as int));
                        children
                    },
                    OpKind::Cast { kind: cast, value: operand, target } => {
                        assert(op_inputs(kind@)[0] == *operand);
                        assert(view.has(*operand));
                        if target.width != module.values[operand.raw as usize].ty.width {
                            assert(!admissible(view, known, state_signal, value.raw as int));
                            return None;
                        }
                        let mut children: Vec<ValueId> = Vec::new();
                        children.push(*operand);
                        assert(children@ =~= choices(view, value.raw as int));
                        children
                    },
                    _ => {
                        let bits = match &facts[value.raw as usize] {
                            Some(bits) => bits,
                            None => {
                                assert(known[value.raw as int] is None);
                                assert(!admissible(view, known, state_signal, value.raw as int));
                                return None;
                            },
                        };
                        assert(known[value.raw as int] == Some(bits@));
                        if !is_boolean(bits) {
                            assert(!admissible(view, known, state_signal, value.raw as int));
                            return None;
                        }
                        visited.insert(value.raw as u64);
                        collection.finish_state(
                            value,
                            bits,
                            Ghost(view),
                            Ghost(known),
                            Ghost(done),
                        );
                        proof {
                            lemma_walk_done(
                                view,
                                root.raw as int,
                                before,
                                was,
                                done,
                                active@,
                                done.insert(value.raw as int),
                            );
                            done = done.insert(value.raw as int);
                            assert(touched(done, active@) =~= seen);
                        }
                        if collection.states.len() > MAX_STATES {
                            proof {
                                lemma_too_many(view, known, root.raw as int, done, collection);
                            }
                            return None;
                        }
                        continue ;
                    },
                }
            },
        };
        active.insert(value.raw as u64);
        pending.push(Pending { value, exiting: true });
        let mut left: usize = children.len();
        let total: usize = children.len();
        while left > 0
            invariant
                left <= total,
                total == children@.len(),
                before.len() >= 1,
                pending@.len() == before.len() + (total - left),
                forall|i: int| 0 <= i < before.len() - 1 ==> #[trigger] pending@[i] == before[i],
                pending@[before.len() - 1] == (Pending { value, exiting: true }),
                forall|i: int|
                    before.len() <= i < pending@.len() ==> (#[trigger] pending@[i]) == (Pending {
                        value: children@[total - 1 - (i - before.len())],
                        exiting: false,
                    }),
            decreases left,
        {
            left -= 1;
            pending.push(Pending { value: children[left], exiting: false });
        }
        proof {
            assert(children@ =~= choices(view, value.raw as int));
            lemma_walk_expand(view, root.raw as int, before, was, done, pending@);
            assert(touched(done, active@) =~= seen);
        }
    }
    proof {
        assert forall|x: u64| !active@.contains(x) by {}
        assert(active@ =~= Set::empty());
        assert(pending@ =~= Seq::empty());
        assert(seen =~= done);
        lemma_collected(view, known, state_signal, root, done, collection);
    }
    Some(collection)
}

} // verus!
