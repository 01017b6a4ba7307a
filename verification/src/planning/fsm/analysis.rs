//! Which states of a machine are reached, and which of them behave alike.

use super::behavior::{
    cone_blocked, derive_symbolic_behavior, hinders, lit_rows, lists_targets, next_of, SymbolicBehavior,
};
use super::catalog::{
    driver_counts, is_machine, lemma_register_ok, machine_candidate, DerivedFsm,
    FsmAnalysisCandidate,
};
use super::dependency::{counted, fsm_observation_roots, plainly_seen, FsmDependencyIndex};
use super::minimization::{
    apart, class_count, fresh, in_sequence, keyed, lemma_in_sequence, merge_states, settled, signs,
};
use super::observation::{
    fsm_observation_candidates, lemma_looks_has, looks, summarizes, FsmObservationCandidate,
};
use super::reachability::{
    edges, reached, reached_in, relation_ok, retain_reset_reachable_states, retained,
};
use super::symbolic::cost::{behavior_cost, refinement_cost};
use super::symbolic::encoder::{
    ranges_sound, register_next_word, signal_word, WordLogicEncoder,
};
use super::symbolic::gates::{SymbolicError, MAX_SYMBOLIC_NODES};
use super::symbolic::selection::states_view;
use super::transition::{facts_sound, facts_view};
use crate::error::{Resource, SynthError};
use crate::logic::{lits_ok, lits_value, Inputs, Lit};
use crate::word::drivers::{driven, SignalDriverIndex};
use crate::word::module::{Connect, ModuleView, WordModule};
use crate::word::numbers::{all_known, known_word};
use crate::word::semantics::Env;
use crate::word::types::{BitVal, ConstBits, RegisterView, SignalId, ValueId};
use crate::word::uses::{occurrences, used_values, value_use_counts};
use vstd::prelude::*;

verus! {

/// Classes numbered in order of occurrence, with the first state of each.
pub open spec fn classes_ok(classes: Seq<usize>, representatives: Seq<usize>) -> bool {
    &&& in_sequence(classes)
    &&& representatives.len() == class_count(classes, classes.len() as int)
    &&& forall|c: int|
        0 <= c < representatives.len() ==> (#[trigger] representatives[c]) < classes.len()
            && classes[representatives[c] as int] == c && fresh(classes, representatives[c] as int)
    &&& forall|s: int| 0 <= s < classes.len() ==> #[trigger] classes[s] < representatives.len()
}

proof fn lemma_class_count_step(classes: Seq<usize>, i: int, j: int)
    requires
        0 <= i <= j,
    ensures
        class_count(classes, i) <= class_count(classes, j),
    decreases j - i,
{
    if i < j {
        lemma_class_count_step(classes, i, j - 1);
    }
}

/// A class that occurred before has a smaller number than a new one would.
proof fn lemma_known_class(classes: Seq<usize>, i: int)
    requires
        in_sequence(classes),
        0 <= i < classes.len(),
    ensures
        fresh(classes, i) ==> classes[i] == class_count(classes, i),
        !fresh(classes, i) ==> classes[i] < class_count(classes, i),
    decreases i,
{
    if !fresh(classes, i) {
        let j = choose|j: int| 0 <= j < i && #[trigger] classes[j] == classes[i];
        lemma_known_class(classes, j);
        lemma_class_count_step(classes, j + 1, i);
        lemma_class_count_step(classes, j, i);
    }
}

proof fn lemma_apart(count: nat)
    requires
        count <= usize::MAX,
    ensures
        in_sequence(apart(count)),
{
    let classes = apart(count);
    assert forall|i: int| 0 <= i < classes.len() && #[trigger] fresh(classes, i) implies classes[i]
        == class_count(classes, i) by {
        lemma_apart_count(count, i);
    }
}

proof fn lemma_apart_count(count: nat, i: int)
    requires
        count <= usize::MAX,
        0 <= i <= count,
    ensures
        class_count(apart(count), i) == i,
    decreases i,
{
    if i > 0 {
        lemma_apart_count(count, i - 1);
        assert(fresh(apart(count), i - 1));
    }
}

/// The first state of each class.
fn first_states(classes: &Vec<usize>) -> (representatives: Vec<usize>)
    requires
        in_sequence(classes@),
    ensures
        classes_ok(classes@, representatives@),
{
    let mut representatives: Vec<usize> = Vec::new();
    let mut s: usize = 0;
    while s < classes.len()
        invariant
            in_sequence(classes@),
            s <= classes@.len(),
            representatives@.len() == class_count(classes@, s as int),
            forall|c: int|
                0 <= c < representatives@.len() ==> (#[trigger] representatives@[c]) < s
                    && classes@[representatives@[c] as int] == c && fresh(
                    classes@,
                    representatives@[c] as int,
                ),
            forall|r: int| 0 <= r < s ==> #[trigger] classes@[r] < representatives@.len(),
        decreases classes.len() - s,
    {
        proof {
            lemma_known_class(classes@, s as int);
        }
        if classes[s] == representatives.len() {
            representatives.push(s);
        }
        s += 1;
    }
    representatives
}

/// How the classes of a machine come about in a graph that had some nodes before: by
/// refinement, unless the graph outgrew its budget on the way.
pub open spec fn minimized(
    encoder: &WordLogicEncoder,
    nodes: nat,
    signal: SignalId,
    behavior: Option<&SymbolicBehavior>,
    allow_merging: bool,
    states: Seq<Seq<BitVal>>,
    classes: Seq<usize>,
) -> bool {
    if allow_merging && states.len() > 1 && behavior is Some {
        settled(
            encoder.nodes(),
            lit_rows(behavior->0.observations@),
            lit_rows(behavior->0.next_values@),
            states,
            classes,
        ) || (classes == apart(states.len()) && encoder.nodes().len() > MAX_SYMBOLIC_NODES && nodes
            + refinement_cost(
            encoder.m(),
            signal,
            states.len(),
        ) > MAX_SYMBOLIC_NODES)
    } else {
        classes == apart(states.len())
    }
}

/// Puts the states of a machine that behave alike into one class, where that
/// is allowed and the behaviour is known.
pub fn minimize_states(
    machine: &mut DerivedFsm,
    encoder: &mut WordLogicEncoder,
    behavior: Option<&SymbolicBehavior>,
    allow_merging: bool,
) -> (result: Result<(), SynthError>)
    requires
        old(encoder).wf(),
        behavior is Some ==> behavior->0.belongs_to(
            old(encoder),
            old(machine).register@,
            old(machine).state_signal,
            states_view(old(machine).states@),
        ),
    ensures
        final(encoder).wf(),
        final(encoder).outgrows(old(encoder)),
        *final(machine) == (DerivedFsm {
            state_classes: final(machine).state_classes,
            representatives: final(machine).representatives,
            ..*old(machine)
        }),
        result is Ok,
        result is Ok ==> classes_ok(
            final(machine).state_classes@,
            final(machine).representatives@,
        ) && minimized(
            final(encoder),
            old(encoder).nodes().len(),
            old(machine).state_signal,
            behavior,
            allow_merging,
            states_view(old(machine).states@),
            final(machine).state_classes@,
        ),
{
    let count: usize = machine.states.len();
    let ghost known = states_view(machine.states@);
    proof {
        crate::logic::lemma_keeps_values(encoder.nodes(), encoder.nodes());
    }
    let classes: Vec<usize> = match behavior {
        Some(behavior) if allow_merging && count > 1 => {
            proof {
                let roots = choose|roots: Seq<ValueId>| #[trigger]
                    behavior.describes(
                        encoder,
                        machine.register@,
                        machine.state_signal,
                        known,
                        roots,
                    );
                assert forall|s: int| 0 <= s < machine.states@.len() implies lits_ok(
                    encoder.nodes(),
                    (#[trigger] behavior.next_values@[s])@,
                ) by {
                    assert(encoder.stands(
                        machine.state_signal,
                        known_word(known[s]),
                        behavior.next_values@[s]@,
                        next_of(encoder.m(), machine.register@, machine.state_signal),
                    ));
                }
                assert forall|s: int, t: int|
                    0 <= s < machine.states@.len() && 0 <= t < machine.states@.len() implies (
                #[trigger] behavior.next_values@[s])@.len() == (
                #[trigger] machine.states@[t])@.len() by {
                    assert(known[t] == machine.states@[t]@);
                }
                assert forall|t: int| 0 <= t < machine.states@.len() implies all_known(
                    (#[trigger] machine.states@[t])@,
                ) by {
                    assert(known[t] == machine.states@[t]@);
                }
            }
            let classes = match merge_states(
                encoder,
                behavior,
                &machine.states,
                Ghost(encoder.m().signals[machine.state_signal.raw as int].ty.width as nat),
            ) {
                Ok(classes) => classes,
                Err(error) => {
                    assert(false);
                    return Err(error);
                },
            };
            proof {
                if settled(
                    encoder.nodes(),
                    lit_rows(behavior.observations@),
                    lit_rows(behavior.next_values@),
                    known,
                    classes@,
                ) {
                    let rows = choose|rows: Seq<Seq<Lit>>| #[trigger]
                        signs(
                            encoder.nodes(),
                            lit_rows(behavior.next_values@),
                            known,
                            classes@,
                            rows,
                        ) && super::encoding::grouped(keyed(classes@, rows), classes@);
                    lemma_in_sequence(keyed(classes@, rows), classes@);
                } else {
                    lemma_apart(count as nat);
                }
            }
            classes
        },
        _ => {
            let mut single: Vec<usize> = Vec::new();
            let mut s: usize = 0;
            while s < count
                invariant
                    s <= count,
                    single@ == apart(s as nat),
                decreases count - s,
            {
                single.push(s);
                s += 1;
                assert(single@ =~= apart(s as nat));
            }
            proof {
                lemma_apart(count as nat);
            }
            single
        },
    };
    let representatives = first_states(&classes);
    machine.state_classes = classes;
    machine.representatives = representatives;
    Ok(())
}

proof fn lemma_retained(states: Seq<Seq<BitVal>>, keep: spec_fn(int) -> bool)
    ensures
        retained(states, keep).len() <= states.len(),
        states.no_duplicates() ==> retained(states, keep).no_duplicates(),
        forall|state: Seq<BitVal>| #[trigger]
            retained(states, keep).contains(state) <==> exists|i: int|
                0 <= i < states.len() && #[trigger] states[i] == state && keep(i),
    decreases states.len(),
{
    if states.len() > 0 {
        let below = states.drop_last();
        let kept = retained(below, keep);
        let now = retained(states, keep);
        lemma_retained(below, keep);
        assert forall|state: Seq<BitVal>| #[trigger] now.contains(state) <==> exists|i: int|
            0 <= i < states.len() && #[trigger] states[i] == state && keep(i) by {
            super::dependency::lemma_push_contains(kept, states.last(), state);
            if now.contains(state) {
                if kept.contains(state) {
                    let i = choose|i: int|
                        0 <= i < below.len() && #[trigger] below[i] == state && keep(i);
                    assert(states[i] == state);
                } else {
                    assert(states[states.len() - 1] == state);
                }
            }
            if exists|i: int| 0 <= i < states.len() && #[trigger] states[i] == state && keep(i) {
                let i = choose|i: int|
                    0 <= i < states.len() && #[trigger] states[i] == state && keep(i);
                if i < below.len() {
                    assert(below[i] == state);
                    assert(kept.contains(state));
                }
            }
        }
        if states.no_duplicates() {
            assert(below.no_duplicates());
            if kept.contains(states.last()) {
                let i = choose|i: int|
                    0 <= i < below.len() && #[trigger] below[i] == states.last() && keep(i);
                assert(states[i] == states[states.len() - 1]);
            }
            assert forall|i: int, j: int| 0 <= i < now.len() && 0 <= j < now.len() && i
                != j implies now[i] != now[j] by {
                if i < kept.len() && j == kept.len() {
                    assert(kept.contains(kept[i]));
                }
                if j < kept.len() && i == kept.len() {
                    assert(kept.contains(kept[j]));
                }
            }
        }
    }
}

/// No step leads from a kept state to a dropped one.
pub open spec fn steps_stay(
    module: ModuleView,
    register: RegisterView,
    signal: SignalId,
    kept: Seq<Seq<BitVal>>,
    all: Set<Seq<BitVal>>,
) -> bool {
    forall|env: Env, from: Seq<BitVal>, to: Seq<BitVal>|
        #[trigger] driven(module, env) && kept.contains(from) && all.contains(to) && signal_word(
            module,
            env,
            signal,
        ) == #[trigger] known_word(from) && register_next_word(module, env, register, signal)
            == #[trigger] known_word(to) ==> kept.contains(to)
}

/// Keeping what the listed successors reach keeps every step.
proof fn lemma_steps_stay(
    encoder: &WordLogicEncoder,
    behavior: &SymbolicBehavior,
    register: RegisterView,
    signal: SignalId,
    states: Seq<Seq<BitVal>>,
    roots: Seq<ValueId>,
    resets: Seq<usize>,
)
    requires
        encoder.wf(),
        behavior.describes(encoder, register, signal, states, roots),
        encoder.drivers is Some,
        signal.raw < encoder.m().signals.len(),
        states.len() <= usize::MAX,
    ensures
        steps_stay(
            encoder.m(),
            register,
            signal,
            retained(states, |s: int| reached(resets, edges(behavior.successors@), s)),
            states.to_set(),
        ),
{
    let module = encoder.m();
    let rows = edges(behavior.successors@);
    let keep = |s: int| reached(resets, rows, s);
    let kept = retained(states, keep);
    lemma_retained(states, keep);
    assert forall|env: Env, from: Seq<BitVal>, to: Seq<BitVal>|
        #[trigger] driven(module, env) && kept.contains(from) && states.to_set().contains(to) && signal_word(
            module,
            env,
            signal,
        ) == #[trigger] known_word(from) && register_next_word(module, env, register, signal)
            == #[trigger] known_word(to) implies kept.contains(to) by {
        let s = choose|i: int| 0 <= i < states.len() && #[trigger] states[i] == from && keep(i);
        let t = choose|t: int| 0 <= t < states.len() && states[t] == to;
        let order = encoder.external_order@;
        let inputs = Inputs {
            value: |k: int| (env.signal)(order[k].0.raw as int, order[k].1 as int),
        };
        let word = known_word(states[s]);
        assert forall|i: int| 0 <= i < word.len() implies (#[trigger] (env.signal)(
            signal.raw as int,
            i,
        )) == word[i] by {
            assert(signal_word(module, env, signal)[i] == word[i]);
        }
        assert(encoder.admits_state(signal, word, env, inputs));
        let next = behavior.next_values@[s]@;
        assert(encoder.stands(signal, word, next, next_of(module, register, signal)));
        assert(lits_value(encoder.nodes(), inputs, next) == register_next_word(
            module,
            env,
            register,
            signal,
        ));
        let targets = behavior.successors@[s]@;
        assert(lists_targets(encoder.nodes(), next, states, states.len() as int, targets));
        assert(targets.contains(t as usize)) by {
            if !targets.contains(t as usize) {
                assert(lits_value(encoder.nodes(), inputs, next) != known_word(states[t]));
            }
        }
        let k = choose|k: int| 0 <= k < targets.len() && targets[k] == t as usize;
        assert(rows[s] == targets);
        let steps = choose|steps: nat| #[trigger] reached_in(resets, rows, steps, s);
        assert(rows[s][k] == t);
        assert(reached_in(resets, rows, steps + 1, t));
        assert(keep(t));
        assert(states[t] == to);
    }
}


pub open spec fn kept_states(
    all: Seq<Seq<BitVal>>,
    resets: Seq<usize>,
    behavior: &SymbolicBehavior,
) -> Seq<Seq<BitVal>> {
    retained(all, |s: int| reached(resets, edges(behavior.successors@), s))
}

/// An encoder of a module with all its drivers.
pub open spec fn encodes_module(
    encoder: &WordLogicEncoder,
    module: ModuleView,
    drivers: &SignalDriverIndex,
) -> bool {
    encoder.m() == module && encoder.drivers == Some(drivers) && encoder.wf()
}

/// An encoder of a module that grew from one with an empty graph.
pub open spec fn built<'m>(
    start: &WordLogicEncoder<'m>,
    encoder: &WordLogicEncoder<'m>,
    module: ModuleView,
    ranges: Seq<Option<u128>>,
    drivers: &SignalDriverIndex,
) -> bool {
    &&& encodes_module(start, module, drivers)
    &&& start.ranges@ == ranges
    &&& start.nodes().len() == 1
    &&& start.external_order@.len() == 0
    &&& encodes_module(encoder, module, drivers)
    &&& encoder.outgrows(start)
}

/// The behaviour of a register could not be derived in some states with an encoder that
/// grew from an empty graph.
pub open spec fn opaque(
    module: ModuleView,
    ranges: Seq<Option<u128>>,
    drivers: &SignalDriverIndex,
    register: RegisterView,
    signal: SignalId,
    states: Seq<Seq<BitVal>>,
    roots: Seq<ValueId>,
    error: SymbolicError,
) -> bool {
    exists|start: WordLogicEncoder, encoder: WordLogicEncoder| #[trigger]
        built(&start, &encoder, module, ranges, drivers) && hinders(
            module,
            ranges,
            Some(drivers),
            1,
            encoder.nodes().len(),
            register,
            signal,
            states,
            roots,
            error,
        )
}

/// The classes of states whose behaviour is known.
pub open spec fn classed(
    module: ModuleView,
    ranges: Seq<Option<u128>>,
    drivers: &SignalDriverIndex,
    register: RegisterView,
    signal: SignalId,
    states: Seq<Seq<BitVal>>,
    roots: Seq<ValueId>,
    merging: bool,
    classes: Seq<usize>,
) -> bool {
    ||| classes == apart(states.len()) && (!merging || states.len() <= 1 || opaque(
        module,
        ranges,
        drivers,
        register,
        signal,
        states,
        roots,
        SymbolicError::Unsupported,
    ))
    ||| merging && exists|
        start: WordLogicEncoder,
        encoder: WordLogicEncoder,
        behavior: SymbolicBehavior,
    |
        #[trigger] built(&start, &encoder, module, ranges, drivers) && #[trigger] behavior.describes(
            &encoder,
            register,
            signal,
            states,
            roots,
        ) && minimized(
            &encoder,
            1 + behavior_cost(module, register, signal, states.len()),
            signal,
            Some(&behavior),
            true,
            states,
            classes,
        )
}

/// The states and classes of a register: where its behaviour is known, the
/// states that its resets lead to, put together where they behave alike.
pub open spec fn analysed(
    module: ModuleView,
    ranges: Seq<Option<u128>>,
    drivers: &SignalDriverIndex,
    register: RegisterView,
    signal: SignalId,
    all: Seq<Seq<BitVal>>,
    resets: Seq<usize>,
    roots: Seq<ValueId>,
    merging: bool,
    states: Seq<Seq<BitVal>>,
    classes: Seq<usize>,
) -> bool {
    ||| states == all && classes == apart(all.len()) && opaque(
        module,
        ranges,
        drivers,
        register,
        signal,
        all,
        roots,
        SymbolicError::Unsupported,
    )
    ||| exists|start: WordLogicEncoder, encoder: WordLogicEncoder, behavior: SymbolicBehavior|
        #[trigger] built(&start, &encoder, module, ranges, drivers) && #[trigger] behavior.describes(
            &encoder,
            register,
            signal,
            all,
            roots,
        ) && states == kept_states(all, resets, &behavior) && classed(
            module,
            ranges,
            drivers,
            register,
            signal,
            states,
            roots,
            merging,
            classes,
        )
}

/// Where the state of a machine is seen.
pub open spec fn seen_at(
    candidates: Seq<FsmObservationCandidate>,
    dependencies: &FsmDependencyIndex,
    machine: &DerivedFsm,
) -> Seq<ValueId> {
    counted(candidates, machine.register_result, dependencies.reach(machine.state_signal))
}

/// A machine with its states and classes worked out.
pub open spec fn analysis_of(
    module: ModuleView,
    ranges: Seq<Option<u128>>,
    drivers: &SignalDriverIndex,
    candidates: Seq<FsmObservationCandidate>,
    dependencies: &FsmDependencyIndex,
    candidate: &FsmAnalysisCandidate,
    machine: &DerivedFsm,
) -> bool {
    let roots = seen_at(candidates, dependencies, &candidate.machine);
    let all = states_view(candidate.machine.states@);
    let kept = states_view(machine.states@);
    &&& machine.states_ok()
    &&& classes_ok(machine.state_classes@, machine.representatives@)
    &&& machine.state_classes@.len() == machine.states@.len()
    &&& steps_stay(
        module,
        machine.register@,
        machine.state_signal,
        kept,
        all.to_set(),
    )
    &&& analysed(
        module,
        ranges,
        drivers,
        machine.register@,
        machine.state_signal,
        all,
        candidate.reset_states@,
        roots,
        candidate.allow_state_merging && plainly_seen(
            dependencies,
            machine.state_signal,
            roots,
        ),
        kept,
        machine.state_classes@,
    )
}

pub proof fn lemma_counted_has(
    module: ModuleView,
    candidates: Seq<FsmObservationCandidate>,
    own: ValueId,
    influenced: spec_fn(int) -> bool,
)
    requires
        forall|k: int| 0 <= k < candidates.len() ==> module.has((#[trigger] candidates[k]).value),
    ensures
        forall|k: int|
            0 <= k < counted(candidates, own, influenced).len() ==> module.has(
                #[trigger] counted(candidates, own, influenced)[k],
            ),
    decreases candidates.len(),
{
    if candidates.len() > 0 {
        let below = candidates.drop_last();
        assert forall|k: int| 0 <= k < below.len() implies module.has(
            (#[trigger] below[k]).value,
        ) by {
            assert(below[k] == candidates[k]);
        }
        lemma_counted_has(module, below, own, influenced);
        let head = counted(below, own, influenced);
        let all = counted(candidates, own, influenced);
        assert(module.has(candidates[candidates.len() - 1].value));
        assert forall|k: int| 0 <= k < all.len() implies module.has(#[trigger] all[k]) by {
            if k < head.len() {
                assert(all[k] == head[k]);
            }
        }
    }
}

/// Works out the states and classes of a machine.
#[verifier::rlimit(100)]
#[verifier::spinoff_prover]
fn analyze_candidate(
    module: &WordModule,
    ranges: &Vec<Option<u128>>,
    drivers: &SignalDriverIndex,
    observation_candidates: &Vec<FsmObservationCandidate>,
    dependencies: &FsmDependencyIndex,
    candidate: FsmAnalysisCandidate,
    Ghost(known): Ghost<Seq<Option<Seq<BitVal>>>>,
    Ghost(connect): Ghost<Connect>,
) -> (result: Result<DerivedFsm, SynthError>)
    requires
        module@.wf(),
        module@.connect_ok(connect),
        ranges_sound(module@, ranges@),
        drivers.describes(module@),
        dependencies.shaped(module@),
        forall|k: int|
            0 <= k < observation_candidates@.len() ==> module@.has(
                (#[trigger] observation_candidates@[k]).value,
            ),
        candidate.drawn_from(module@, known, connect),
    ensures
        result matches Ok(machine) ==> machine.drawn_from(module@, known, connect) && analysis_of(
            module@,
            ranges@,
            drivers,
            observation_candidates@,
            dependencies,
            &candidate,
            &machine,
        ),
        result matches Err(error) ==> machine_fails(
            module@,
            ranges@,
            drivers,
            &candidate,
            seen_at(observation_candidates@, dependencies, &candidate.machine),
            error,
        ),
{
    let ghost view = module@;
    let allow_state_merging = candidate.allow_state_merging;
    let reset_states = candidate.reset_states;
    let mut machine = candidate.machine;
    let ghost register = machine.register@;
    let ghost signal = machine.state_signal;
    let ghost all = states_view(machine.states@);
    let ghost roots = seen_at(observation_candidates@, dependencies, &machine);
    let ghost merging = allow_state_merging && plainly_seen(dependencies, signal, roots);
    proof {
        lemma_register_ok(view, connect, register);
        lemma_counted_has(
            view,
            observation_candidates@,
            machine.register_result,
            dependencies.reach(signal),
        );
    }
    let seen = match fsm_observation_roots(
        module,
        machine.state_signal,
        machine.register_result,
        observation_candidates,
        dependencies,
    ) {
        Ok(seen) => seen,
        Err(error) => {
            assert(false);
            return Err(error);
        },
    };
    let mut encoder = WordLogicEncoder::with_signal_drivers(module, ranges, drivers);
    let ghost empty = encoder;
    let behavior = match derive_symbolic_behavior(
        &mut encoder,
        &machine.register,
        machine.state_signal,
        &machine.states,
        &seen.values,
    ) {
        Ok(behavior) => behavior,
        Err(SymbolicError::Unsupported) => {
            proof {
                assert(built(&empty, &encoder, view, ranges@, drivers));
                assert(opaque(
                    view,
                    ranges@,
                    drivers,
                    register,
                    signal,
                    all,
                    roots,
                    SymbolicError::Unsupported,
                ));
                assert forall|env: Env, from: Seq<BitVal>, to: Seq<BitVal>|
                    #[trigger] driven(view, env) && all.contains(from) && all.to_set().contains(to)
                        && signal_word(view, env, signal) == #[trigger] known_word(from)
                        && register_next_word(view, env, register, signal)
                        == #[trigger] known_word(to) implies all.contains(to) by {}
            }
            match minimize_states(&mut machine, &mut encoder, None, false) {
                Ok(()) => {
                    return Ok(machine);
                },
                Err(error) => {
                    assert(false);
                    return Err(error);
                },
            }
        },
        Err(SymbolicError::Synthesis(error)) => {
            return Err(error);
        },
    };
    let ghost first_encoder = encoder;
    let ghost first_behavior = behavior;
    let ghost rows = edges(behavior.successors@);
    let ghost keep = |s: int| reached(reset_states@, rows, s);
    proof {
        assert(built(&empty, &first_encoder, view, ranges@, drivers));
        assert(relation_ok(all.len(), reset_states@, rows)) by {
            assert forall|from: int, k: int|
                0 <= from < all.len() && reached(reset_states@, rows, from) && 0 <= k
                    < rows[from].len() implies (#[trigger] rows[from][k]) < all.len() by {
                assert(rows[from] == behavior.successors@[from]@);
                assert(lists_targets(
                    encoder.nodes(),
                    behavior.next_values@[from]@,
                    all,
                    all.len() as int,
                    behavior.successors@[from]@,
                ));
            }
        }
        lemma_steps_stay(&encoder, &behavior, register, signal, all, roots, reset_states@);
        lemma_retained(all, keep);
    }
    let count: usize = machine.states.len();
    match retain_reset_reachable_states(&mut machine.states, &reset_states, &behavior.successors) {
        Ok(_) => {},
        Err(error) => {
            assert(false);
            return Err(error);
        },
    }
    let ghost kept = states_view(machine.states@);
    proof {
        assert(kept == kept_states(all, reset_states@, &behavior));
        assert forall|i: int| 0 <= i < machine.reset_values@.len() implies kept.contains(
            (#[trigger] machine.reset_values@[i])@,
        ) by {
            let place = reset_states@[i] as int;
            assert(reached_in(reset_states@, rows, 0, place)) by {
                assert(reset_states@[i] == place);
            }
            assert(keep(place));
            assert(all[place] == machine.reset_values@[i]@);
        }
        assert forall|s: int| 0 <= s < machine.states@.len() implies (
        #[trigger] machine.states@[s])@.len() == machine.state_type.width && all_known(
            machine.states@[s]@,
        ) by {
            assert(kept[s] == machine.states@[s]@);
            assert(kept.contains(kept[s]));
            let i = choose|i: int| 0 <= i < all.len() && #[trigger] all[i] == kept[s] && keep(i);
            assert(all[i] == candidate.machine.states@[i]@);
        }
        assert(kept.contains(machine.reset_values@[0]@));
        assert(machine.states_ok());
        assert(machine.drawn_from(view, known, connect));
    }
    let merge: bool = allow_state_merging && seen.supports_state_merging;
    assert(merge == merging);
    let ghost half = machine;
    if machine.states.len() == count {
        proof {
            lemma_all_retained(all, keep);
        }
        let outcome = minimize_states(&mut machine, &mut encoder, Some(&behavior), merge);
        proof {
            assert(built(&empty, &encoder, view, ranges@, drivers));
            if outcome is Ok {
                lemma_describes_later_in(
                    &first_encoder,
                    &encoder,
                    &behavior,
                    register,
                    signal,
                    kept,
                    roots,
                );
                assert(classed(
                    view,
                    ranges@,
                    drivers,
                    register,
                    signal,
                    kept,
                    roots,
                    merging,
                    machine.state_classes@,
                ));
                assert(analysed(
                    view,
                    ranges@,
                    drivers,
                    register,
                    signal,
                    all,
                    reset_states@,
                    roots,
                    merging,
                    kept,
                    machine.state_classes@,
                ));
                assert(machine.drawn_from(view, known, connect));
                assert(machine.states_ok());
            }
        }
        match outcome {
            Ok(()) => Ok(machine),
            Err(error) => Err(error),
        }
    } else {
        let mut encoder = WordLogicEncoder::with_signal_drivers(module, ranges, drivers);
        let ghost empty = encoder;
        let second = match derive_symbolic_behavior(
            &mut encoder,
            &machine.register,
            machine.state_signal,
            &machine.states,
            &seen.values,
        ) {
            Ok(second) => Some(second),
            Err(SymbolicError::Unsupported) => {
                proof {
                    assert(built(&empty, &encoder, view, ranges@, drivers));
                    assert(opaque(
                        view,
                        ranges@,
                        drivers,
                        register,
                        signal,
                        kept,
                        roots,
                        SymbolicError::Unsupported,
                    ));
                }
                None
            },
            Err(SymbolicError::Synthesis(error)) => {
                return Err(error);
            },
        };
        let ghost second_encoder = encoder;
        let outcome = match &second {
            Some(second) => minimize_states(&mut machine, &mut encoder, Some(second), merge),
            None => minimize_states(&mut machine, &mut encoder, None, merge),
        };
        proof {
            assert(built(&empty, &encoder, view, ranges@, drivers));
            if outcome is Ok {
                if second is Some {
                    lemma_describes_later_in(
                        &second_encoder,
                        &encoder,
                        &second->0,
                        register,
                        signal,
                        kept,
                        roots,
                    );
                }
                assert(classed(
                    view,
                    ranges@,
                    drivers,
                    register,
                    signal,
                    kept,
                    roots,
                    merging,
                    machine.state_classes@,
                ));
                assert(analysed(
                    view,
                    ranges@,
                    drivers,
                    register,
                    signal,
                    all,
                    reset_states@,
                    roots,
                    merging,
                    kept,
                    machine.state_classes@,
                ));
                assert(machine.drawn_from(view, known, connect));
                assert(machine.states_ok());
            }
        }
        match outcome {
            Ok(()) => Ok(machine),
            Err(error) => Err(error),
        }
    }
}

proof fn lemma_describes_later_in<'m>(
    before: &WordLogicEncoder<'m>,
    after: &WordLogicEncoder<'m>,
    behavior: &SymbolicBehavior,
    register: RegisterView,
    signal: SignalId,
    states: Seq<Seq<BitVal>>,
    roots: Seq<ValueId>,
)
    requires
        after.outgrows(before),
        behavior.describes(before, register, signal, states, roots),
    ensures
        behavior.describes(after, register, signal, states, roots),
{
    super::behavior::lemma_describes_later(
        before,
        after,
        behavior,
        register,
        signal,
        states,
        roots,
    );
}

/// A list that lost nothing is the whole list.
proof fn lemma_all_retained(states: Seq<Seq<BitVal>>, keep: spec_fn(int) -> bool)
    requires
        retained(states, keep).len() == states.len(),
    ensures
        retained(states, keep) == states,
    decreases states.len(),
{
    if states.len() > 0 {
        let below = states.drop_last();
        lemma_retained(below, keep);
        lemma_all_retained(below, keep);
        assert(retained(states, keep) =~= states);
    } else {
        assert(retained(states, keep) =~= states);
    }
}

/// The machines of a module.
pub struct FsmCatalog {
    pub machines: Vec<DerivedFsm>,
}

/// The connections behind which machines stand, in order.
pub open spec fn machine_connects(
    module: ModuleView,
    uses: Seq<u32>,
    counts: Seq<u32>,
    facts: Seq<Option<Seq<BitVal>>>,
    count: nat,
) -> Seq<Connect>
    decreases count,
{
    if count == 0 {
        seq![]
    } else {
        let below = machine_connects(module, uses, counts, facts, (count - 1) as nat);
        let connect = module.connects[count - 1];
        if is_machine(module, uses, counts, facts, connect) {
            below.push(connect)
        } else {
            below
        }
    }
}

/// The uses of a module's values.
pub open spec fn counts_uses(module: ModuleView, uses: Seq<u32>) -> bool {
    &&& uses.len() == module.values.len()
    &&& forall|v: int|
        0 <= v < uses.len() ==> (#[trigger] uses[v]) == occurrences(
            used_values(module),
            ValueId { raw: v as u32 },
        )
}

/// The connections of a module's signals.
pub open spec fn counts_drivers(module: ModuleView, counts: Seq<u32>) -> bool {
    &&& counts.len() == module.signals.len()
    &&& forall|s: int|
        0 <= s < counts.len() ==> (#[trigger] counts[s]) == crate::word::drivers::connected_values(
            module,
            SignalId { raw: s as u32 },
            module.connects.len(),
        ).len()
}

/// A machine that comes from a connection.
pub open spec fn machine_of(
    module: ModuleView,
    facts: Seq<Option<Seq<BitVal>>>,
    ranges: Seq<Option<u128>>,
    drivers: &SignalDriverIndex,
    connect: Connect,
    observed: Seq<FsmObservationCandidate>,
    dependencies: &FsmDependencyIndex,
    machine: &DerivedFsm,
) -> bool {
    &&& machine.drawn_from(module, facts, connect)
    &&& exists|candidate: FsmAnalysisCandidate| #[trigger]
        candidate.drawn_from(module, facts, connect) && analysis_of(
            module,
            ranges,
            drivers,
            observed,
            dependencies,
            &candidate,
            machine,
        )
}

/// The machines that a catalogue holds.
pub open spec fn catalogues(
    module: ModuleView,
    facts: Seq<Option<Seq<BitVal>>>,
    ranges: Seq<Option<u128>>,
    uses: Seq<u32>,
    counts: Seq<u32>,
    drivers: &SignalDriverIndex,
    observed: Seq<FsmObservationCandidate>,
    dependencies: &FsmDependencyIndex,
    count: nat,
    machines: Seq<DerivedFsm>,
) -> bool {
    let connects = machine_connects(module, uses, counts, facts, count);
    &&& machines.len() == connects.len()
    &&& forall|k: int|
        0 <= k < machines.len() ==> machine_of(
            module,
            facts,
            ranges,
            drivers,
            connects[k],
            observed,
            dependencies,
            &(#[trigger] machines[k]),
        )
}

/// What a catalogue is worked out from.
pub open spec fn context_of(
    module: ModuleView,
    uses: Seq<u32>,
    counts: Seq<u32>,
    drivers: &SignalDriverIndex,
    observed: Seq<FsmObservationCandidate>,
    dependencies: &FsmDependencyIndex,
) -> bool {
    &&& counts_uses(module, uses)
    &&& counts_drivers(module, counts)
    &&& drivers.describes(module)
    &&& summarizes(looks(module, uses), observed)
    &&& dependencies.describes(module, drivers)
}

impl FsmCatalog {
    /// The catalogue holds every machine of a module, and nothing else.
    pub open spec fn describes(
        &self,
        module: ModuleView,
        facts: Seq<Option<Seq<BitVal>>>,
        ranges: Seq<Option<u128>>,
    ) -> bool {
        exists|
            uses: Seq<u32>,
            counts: Seq<u32>,
            drivers: SignalDriverIndex,
            observed: Seq<FsmObservationCandidate>,
            dependencies: FsmDependencyIndex,
        | #[trigger]
            context_of(module, uses, counts, &drivers, observed, &dependencies) && catalogues(
                module,
                facts,
                ranges,
                uses,
                counts,
                &drivers,
                observed,
                &dependencies,
                module.connects.len(),
                self.machines@,
            )
    }
}

/// The states of a machine cannot be worked out: in all its states or in those that its
/// resets lead to, something that it waits for has too wide an offset or waits for itself.
pub open spec fn machine_fails(
    module: ModuleView,
    ranges: Seq<Option<u128>>,
    drivers: &SignalDriverIndex,
    candidate: &FsmAnalysisCandidate,
    roots: Seq<ValueId>,
    error: SynthError,
) -> bool {
    cone_blocked(
        module,
        ranges,
        Some(drivers),
        candidate.machine.register@,
        candidate.machine.state_signal,
        roots,
        SymbolicError::Synthesis(error),
    )
}

/// Some machine of a module cannot be worked out.
pub open spec fn some_machine_fails(
    module: ModuleView,
    facts: Seq<Option<Seq<BitVal>>>,
    ranges: Seq<Option<u128>>,
    error: SynthError,
) -> bool {
    exists|
        uses: Seq<u32>,
        counts: Seq<u32>,
        drivers: SignalDriverIndex,
        observed: Seq<FsmObservationCandidate>,
        dependencies: FsmDependencyIndex,
        candidate: FsmAnalysisCandidate,
        i: int,
    |
        #![trigger context_of(module, uses, counts, &drivers, observed, &dependencies), candidate.drawn_from(module, facts, module.connects[i])]
        context_of(module, uses, counts, &drivers, observed, &dependencies) && 0 <= i
            < module.connects.len() && is_machine(module, uses, counts, facts, module.connects[i])
            && candidate.drawn_from(module, facts, module.connects[i]) && machine_fails(
            module,
            ranges,
            &drivers,
            &candidate,
            seen_at(observed, &dependencies, &candidate.machine),
            error,
        )
}

/// A module whose machines cannot be worked out: a value has more uses or a signal more
/// connections than can be counted, or a machine cannot be worked out.
pub open spec fn catalog_fails(
    module: ModuleView,
    facts: Seq<Option<Seq<BitVal>>>,
    ranges: Seq<Option<u128>>,
    error: SynthError,
) -> bool {
    ||| error == SynthError::Capacity(Resource::Values) && exists|value: ValueId| #[trigger]
        module.has(value) && occurrences(used_values(module), value) > u32::MAX
    ||| error == SynthError::Capacity(Resource::Connects) && exists|signal: SignalId|
        signal.raw < module.signals.len() && (#[trigger] crate::word::drivers::connected_values(
            module,
            signal,
            module.connects.len(),
        )).len() > u32::MAX
    ||| some_machine_fails(module, facts, ranges, error)
}

/// The machines of a module, from what is known of its constants and ranges.
#[verifier::rlimit(60)]
pub fn derive_catalog(
    module: &WordModule,
    ranges: &Vec<Option<u128>>,
    facts: &Vec<Option<ConstBits>>,
) -> (result: Result<FsmCatalog, SynthError>)
    requires
        module@.wf(),
        ranges_sound(module@, ranges@),
        facts_sound(module@, facts_view(facts@)),
    ensures
        result matches Ok(catalog) ==> catalog.describes(
            module@,
            facts_view(facts@),
            ranges@,
        ),
        result matches Err(error) ==> catalog_fails(
            module@,
            facts_view(facts@),
            ranges@,
            error,
        ),
{
    let ghost view = module@;
    let ghost known = facts_view(facts@);
    let uses = match value_use_counts(module) {
        Ok(uses) => uses,
        Err(error) => return Err(error),
    };
    let drivers = SignalDriverIndex::new(module);
    let dependencies = FsmDependencyIndex::build(module, &drivers);
    let counts = match driver_counts(module) {
        Ok(counts) => counts,
        Err(error) => return Err(error),
    };
    let observed = fsm_observation_candidates(module, &uses);
    proof {
        dependencies.lemma_shaped(view, &drivers);
        lemma_looks_has(view, uses@, observed@);
        assert(context_of(view, uses@, counts@, &drivers, observed@, &dependencies));
    }
    let mut machines: Vec<DerivedFsm> = Vec::new();
    let mut i: usize = 0;
    while i < module.connects.len()
        invariant
            view == module@,
            view.wf(),
            known == facts_view(facts@),
            ranges_sound(view, ranges@),
            facts_sound(view, known),
            context_of(view, uses@, counts@, &drivers, observed@, &dependencies),
            dependencies.shaped(view),
            forall|k: int|
                0 <= k < observed@.len() ==> view.has((#[trigger] observed@[k]).value),
            i <= view.connects.len(),
            catalogues(
                view,
                known,
                ranges@,
                uses@,
                counts@,
                &drivers,
                observed@,
                &dependencies,
                i as nat,
                machines@,
            ),
        decreases module.connects.len() - i,
    {
        let connect = module.connects[i];
        assert(view.connect_ok(view.connects[i as int]));
        let ghost before = machines@;
        let ghost connects = machine_connects(view, uses@, counts@, known, i as nat);
        let ghost longer = machine_connects(view, uses@, counts@, known, (i + 1) as nat);
        match machine_candidate(module, &uses, &counts, facts, connect) {
            Some(candidate) => {
                let ghost drawn = candidate;
                let machine = match analyze_candidate(
                    module,
                    ranges,
                    &drivers,
                    &observed,
                    &dependencies,
                    candidate,
                    Ghost(known),
                    Ghost(connect),
                ) {
                    Ok(machine) => machine,
                    Err(error) => {
                        proof {
                            assert(drawn.drawn_from(view, known, view.connects[i as int]));
                            assert(some_machine_fails(view, known, ranges@, error));
                        }
                        return Err(error);
                    },
                };
                proof {
                    assert(drawn.drawn_from(view, known, connect));
                    assert(machine_of(
                        view,
                        known,
                        ranges@,
                        &drivers,
                        connect,
                        observed@,
                        &dependencies,
                        &machine,
                    ));
                }
                machines.push(machine);
                proof {
                    assert(longer == connects.push(connect));
                    assert forall|k: int| 0 <= k < machines@.len() implies machine_of(
                        view,
                        known,
                        ranges@,
                        &drivers,
                        longer[k],
                        observed@,
                        &dependencies,
                        &(#[trigger] machines@[k]),
                    ) by {
                        if k < before.len() {
                            assert(machines@[k] == before[k]);
                            assert(longer[k] == connects[k]);
                        }
                    }
                }
            },
            None => {},
        }
        i += 1;
    }
    Ok(FsmCatalog { machines })
}

} // verus!
