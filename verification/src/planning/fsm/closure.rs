//! A machine goes from its states to its states.

use super::catalog::{
    is_machine, is_reset_state, lemma_cone_width, register_states, resets_known,
    FsmAnalysisCandidate,
};
use super::materialize::lemma_reset_has;
use super::reachability::{descending, lemma_descend_step};
use super::symbolic::encoder::{active_control, after_resets, register_next_word, signal_word};
use super::symbolic::selection::states_view;
use super::transition::{
    admissible, choices_of, facts_sound, finite_transition, fixed_state, names_state,
    transition_cone,
};
use crate::word::module::{Connect, KindView, ModuleView};
use crate::word::numbers::{all_known, known_word};
use crate::word::semantics::{eval, lemma_eval_operation, lemma_eval_width, word_of, Env};
use crate::word::types::{op_inputs, BitVal, OpView, Reset, SignalId};
use vstd::prelude::*;

verus! {

/// A word is that of a state of a list.
pub open spec fn is_state_word(states: Seq<Seq<BitVal>>, word: Seq<bool>) -> bool {
    exists|s: int| 0 <= s < states.len() && known_word(#[trigger] states[s]) == word
}

proof fn lemma_choices_below(module: ModuleView)
    requires
        module.wf(),
    ensures
        descending(choices_of(module), module.values.len() as int),
{
    assert forall|v: int, i: int|
        0 <= v < module.values.len() && 0 <= i < choices_of(module)(v).len() implies (
    #[trigger] choices_of(module)(v)[i]).raw < v by {
        assert(module.value_ok(v));
        if let KindView::Operation(operation) = module.values[v].kind {
            assert(module.operation_ok(operation.raw as int));
            let kind = module.operations[operation.raw as int].kind;
            let inputs = op_inputs(kind);
            if kind is Mux {
                assert(inputs[1].raw < v && inputs[2].raw < v);
            } else if kind is Cast {
                assert(inputs[0].raw < v);
            }
        }
    }
}

/// What a transition function selects is the present state or one that it names.
proof fn lemma_selected(
    module: ModuleView,
    facts: Seq<Option<Seq<BitVal>>>,
    state: SignalId,
    root: int,
    env: Env,
    v: int,
)
    requires
        module.wf(),
        facts_sound(module, facts),
        state.raw < module.signals.len(),
        0 <= root < module.values.len(),
        module.values[root].ty.width == module.signals[state.raw as int].ty.width,
        finite_transition(module, facts, state, root),
        transition_cone(module, root).contains(v),
    ensures
        eval(module, env, v) == signal_word(module, env, state) || exists|bits: Seq<BitVal>|
            #[trigger] names_state(module, facts, root, bits) && eval(module, env, v) == known_word(
                bits,
            ),
    decreases v,
{
    lemma_cone_width(module, root, v);
    lemma_choices_below(module);
    assert(admissible(module, facts, state, v));
    assert(module.value_ok(v));
    match module.values[v].kind {
        KindView::Signal(reference) => {
            assert(eval(module, env, v) =~= signal_word(module, env, state));
        },
        KindView::Constant(bits) => {
            assert(fixed_state(module, facts, v) == Some(bits));
            assert(names_state(module, facts, root, bits));
            let word = known_word(bits);
            assert forall|i: int| 0 <= i < bits.len() implies eval(module, env, v)[i] == #[trigger] word[i] by {
                assert(bits[bits.len() - 1 - i].known());
            }
            assert(eval(module, env, v) =~= word);
        },
        KindView::Operation(operation) => {
            let o = operation.raw as int;
            assert(module.operation_ok(o));
            let kind = module.operations[o].kind;
            lemma_eval_operation(module, env, v);
            match kind {
                OpView::Mux { cond, then_value, else_value } => {
                    let below = choices_of(module)(v);
                    assert(below[0] == then_value && below[1] == else_value);
                    assert(below[0].raw < v && below[1].raw < v);
                    let count = module.values.len() as int;
                    lemma_descend_step(choices_of(module), count, root, v, 0);
                    lemma_descend_step(choices_of(module), count, root, v, 1);
                    lemma_selected(module, facts, state, root, env, then_value.raw as int);
                    lemma_selected(module, facts, state, root, env, else_value.raw as int);
                },
                OpView::Cast { kind: cast, value, target } => {
                    let below = choices_of(module)(v);
                    assert(below[0] == value);
                    assert(below[0].raw < v);
                    let count = module.values.len() as int;
                    lemma_descend_step(choices_of(module), count, root, v, 0);
                    lemma_selected(module, facts, state, root, env, value.raw as int);
                    lemma_eval_width(module, env, value.raw as int);
                    assert(eval(module, env, v) =~= eval(module, env, value.raw as int));
                },
                _ => {
                    assert(fixed_state(module, facts, v) == facts[v]);
                    assert(names_state(module, facts, root, facts[v]->0));
                },
            }
        },
    }
}

/// Resets set states of a register.
proof fn lemma_reset_word(
    module: ModuleView,
    facts: Seq<Option<Seq<BitVal>>>,
    env: Env,
    resets: Seq<Reset>,
    held: Seq<bool>,
)
    requires
        module.wf(),
        facts_sound(module, facts),
        resets_known(facts, resets),
        forall|i: int| 0 <= i < resets.len() ==> module.has((#[trigger] resets[i]).reset_value),
    ensures
        after_resets(module, env, resets, held) == held || exists|bits: Seq<BitVal>| #[trigger]
            is_reset_state(facts, resets, bits) && after_resets(module, env, resets, held)
                == known_word(bits),
    decreases resets.len(),
{
    if resets.len() > 0 {
        let rest = resets.skip(1);
        assert forall|i: int| 0 <= i < rest.len() implies module.has(
            (#[trigger] rest[i]).reset_value,
        ) && facts[rest[i].reset_value.raw as int] is Some && all_known(
            facts[rest[i].reset_value.raw as int]->0,
        ) by {
            assert(rest[i] == resets[i + 1]);
        }
        lemma_reset_word(module, facts, env, rest, held);
        let v = resets[0].reset_value.raw as int;
        let first = facts[v]->0;
        assert(module.has(resets[0].reset_value));
        assert(eval(module, env, v) == known_word(first));
        assert(is_reset_state(facts, resets, first));
        assert forall|bits: Seq<BitVal>| #[trigger]
            is_reset_state(facts, rest, bits) implies is_reset_state(facts, resets, bits) by {
            let i = choose|i: int|
                0 <= i < rest.len() && facts[(#[trigger] rest[i]).reset_value.raw as int] == Some(
                    bits,
                );
            assert(resets[i + 1] == rest[i]);
        }
    }
}

/// A machine in one of its states takes over one of its states at the next clock edge,
/// whatever its inputs are.
pub proof fn machines_stay_in_their_states(
    module: ModuleView,
    uses: Seq<u32>,
    counts: Seq<u32>,
    facts: Seq<Option<Seq<BitVal>>>,
    connect: Connect,
    candidate: &FsmAnalysisCandidate,
    env: Env,
)
    requires
        module.wf(),
        module.connect_ok(connect),
        facts_sound(module, facts),
        is_machine(module, uses, counts, facts, connect),
        candidate.drawn_from(module, facts, connect),
        is_state_word(
            states_view(candidate.machine.states@),
            signal_word(module, env, candidate.machine.state_signal),
        ),
    ensures
        is_state_word(
            states_view(candidate.machine.states@),
            register_next_word(
                module,
                env,
                candidate.machine.register@,
                candidate.machine.state_signal,
            ),
        ),
{
    let machine = candidate.machine;
    let register = machine.register@;
    let state = machine.state_signal;
    let states = states_view(machine.states@);
    let d = register.d.raw as int;
    let all = register_states(module, facts, register);
    let operation = machine.register_operation.raw as int;
    assert(module.value_ok(connect.value.raw as int));
    assert(module.operation_ok(operation));
    let inputs = op_inputs(OpView::Register(register));
    assert(inputs[0] == register.d);
    assert(inputs[0].raw < connect.value.raw);
    assert(transition_cone(module, d).contains(d));
    lemma_selected(module, facts, state, d, env, d);
    assert forall|bits: Seq<BitVal>| #[trigger] all.contains(bits) implies is_state_word(
        states,
        known_word(bits),
    ) by {
        assert(states.to_set().contains(bits));
        let s = choose|s: int| 0 <= s < states.len() && states[s] == bits;
        assert(known_word(states[s]) == known_word(bits));
    }
    let data = word_of(module, env, register.d);
    if data != signal_word(module, env, state) {
        let bits = choose|bits: Seq<BitVal>| #[trigger]
            names_state(module, facts, d, bits) && eval(module, env, d) == known_word(bits);
        assert(all.contains(bits));
    }
    let held = if register.enable is Some && !active_control(
        module,
        env,
        register.enable->0.value,
        register.enable->0.active_high,
    ) {
        signal_word(module, env, state)
    } else {
        data
    };
    assert forall|i: int| 0 <= i < register.resets.len() implies module.has(
        (#[trigger] register.resets[i]).reset_value,
    ) by {
        lemma_reset_has(module, register, i);
    }
    lemma_reset_word(module, facts, env, register.resets, held);
    let next = after_resets(module, env, register.resets, held);
    if next != held {
        let bits = choose|bits: Seq<BitVal>| #[trigger]
            is_reset_state(facts, register.resets, bits) && next == known_word(bits);
        assert(all.contains(bits));
    }
}

} // verus!
