//! Re-encoding the state machines of a module.

use super::analysis::{
    catalog_fails, catalogues, context_of, derive_catalog, machine_connects, machine_of, FsmCatalog,
};
use super::catalog::{is_machine, lemma_cone_width, lemma_register_ok, DerivedFsm};
use super::encoding::{find_state, FsmObjective};
use super::materialize::{
    active, code_word, constant_sound, decode_state, decoded, enable_ok, enabled, encode_transition,
    follows_value, lemma_keeps_words, lemma_simulates_keeps, lemma_sound_machine_widens, simulates,
    sound_machine, transition_means, transition_register_inputs, transition_value,
};
use super::plan::{
    analysed_machine, clock_port, machine_is_region_private, machine_objective, plan_catalog,
    planned, region_private, FsmPlan,
};
use super::symbolic::encoder::{ranges_sound, register_next_word, signal_word};
use super::symbolic::selection::states_view;
use super::transition::{admissible, facts_sound, facts_view, fixed_state, lists, transition_cone};
use crate::error::{Invariant, Resource, SynthError};
use crate::word::emit::{lemma_stable, ran_out, stable};
use crate::word::module::{
    Connect, LValue, ModuleView, Signal, SignalKind, SignalResolution, WordModule,
};
use crate::word::numbers::{all_known, known_word};
use crate::word::semantics::{word_of, Env};
use crate::word::types::{
    op_inputs, BitVal, ConstBits, OpView, RegisterOp, RegisterView, Reset, SignalId, ValueId,
};
use vstd::prelude::*;

verus! {

/// Whether a connection drives a machine's signal from its register.
pub open spec fn drives_state(plan: &FsmPlan, connect: Connect) -> bool {
    connect.value == plan.machine.register_result && connect.target.signal
        == plan.machine.state_signal
}

/// The connections that stay.
pub open spec fn other_connects(plan: &FsmPlan, connects: Seq<Connect>) -> Seq<Connect>
    decreases connects.len(),
{
    if connects.len() == 0 {
        seq![]
    } else {
        let below = other_connects(plan, connects.drop_last());
        if drives_state(plan, connects.last()) {
            below
        } else {
            below.push(connects.last())
        }
    }
}

/// The module after a machine was re-encoded: a wire for the code, a register
/// that follows the original one in codes, and the decoded state in place of
/// the original register.
pub open spec fn re_encoded(
    before: ModuleView,
    after: ModuleView,
    plan: &FsmPlan,
    state: ValueId,
    code: ValueId,
    register: RegisterView,
) -> bool {
    let signal = SignalId { raw: before.signals.len() as u32 };
    let source = plan.machine.source;
    &&& after.wf()
    &&& before.widens_to(after)
    &&& after.signals == before.signals.push(
        Signal {
            name: None,
            ty: plan.encoded_type,
            kind: SignalKind::Wire,
            source,
            preserved: false,
            resolution: SignalResolution::Single,
        },
    )
    &&& after.connects == other_connects(plan, before.connects).push(
        Connect { target: LValue::whole(plan.machine.state_signal), value: state, source },
    ).push(Connect { target: LValue::whole(signal), value: code, source })
    &&& after == (ModuleView {
        values: after.values,
        operations: after.operations,
        signals: after.signals,
        connects: after.connects,
        ..before
    })
    &&& after.has(state)
    &&& forall|env: Env| #[trigger]
        word_of(after, env, state) == decoded(
            plan,
            signal_word(after, env, signal),
            plan.machine.representatives@.len() as int,
        )
    &&& after.has(code)
    &&& after.op_of(code) == Some(OpView::Register(register))
    &&& register.clock == plan.machine.register.clock
    &&& register.edge == plan.machine.register.edge
    &&& register.name == plan.machine.register.name
    &&& coded_resets(after, plan, plan.machine.register.resets@.len() as int, register.resets)
    &&& simulates(after, plan, signal, register)
}

pub open spec fn rewritten(before: ModuleView, after: ModuleView, plan: &FsmPlan) -> bool {
    exists|state: ValueId, code: ValueId, register: RegisterView| #[trigger]
        re_encoded(before, after, plan, state, code, register)
}

/// Exactly one connection drives the state from the register.
pub open spec fn driven_once(plan: &FsmPlan, connects: Seq<Connect>) -> bool {
    other_connects(plan, connects).len() == connects.len() - 1
}

/// The connections without the one that drives a machine's state.
fn remove_state_connect(connects: &Vec<Connect>, plan: &FsmPlan) -> (result: Result<
    Vec<Connect>,
    SynthError,
>)
    ensures
        result is Ok <==> driven_once(plan, connects@),
        result matches Ok(others) ==> others@ == other_connects(plan, connects@),
        result matches Err(error) ==> error == SynthError::Invariant(Invariant::BrokenSelection),
{
    let mut others: Vec<Connect> = Vec::new();
    let mut i: usize = 0;
    assert(connects@.take(0) =~= seq![]);
    while i < connects.len()
        invariant
            i <= connects@.len(),
            others@ == other_connects(plan, connects@.take(i as int)),
            others@.len() <= i,
        decreases connects.len() - i,
    {
        let connect = connects[i];
        assert(connects@.take(i + 1).drop_last() =~= connects@.take(i as int));
        if !(connect.value == plan.machine.register_result && connect.target.signal
            == plan.machine.state_signal) {
            others.push(connect);
        }
        i += 1;
    }
    assert(connects@.take(i as int) =~= connects@);
    if connects.len() == 0 || others.len() != connects.len() - 1 {
        return Err(SynthError::Invariant(Invariant::BrokenSelection));
    }
    Ok(others)
}

proof fn lemma_others_ok(module: ModuleView, plan: &FsmPlan, connects: Seq<Connect>)
    requires
        forall|i: int| 0 <= i < connects.len() ==> module.connect_ok(#[trigger] connects[i]),
    ensures
        forall|i: int|
            0 <= i < other_connects(plan, connects).len() ==> module.connect_ok(
                #[trigger] other_connects(plan, connects)[i],
            ),
    decreases connects.len(),
{
    if connects.len() > 0 {
        let below = connects.drop_last();
        assert forall|i: int| 0 <= i < below.len() implies module.connect_ok(
            #[trigger] below[i],
        ) by {
            assert(below[i] == connects[i]);
        }
        lemma_others_ok(module, plan, below);
        let head = other_connects(plan, below);
        let all = other_connects(plan, connects);
        assert(module.connect_ok(connects[connects.len() - 1]));
        assert forall|i: int| 0 <= i < all.len() implies module.connect_ok(#[trigger] all[i]) by {
            if i < head.len() {
                assert(all[i] == head[i]);
            }
        }
    }
}

/// The resets of the register that holds a code: those of the original register,
/// each of them to the code of the state that it resets to.
pub open spec fn coded_resets(
    module: ModuleView,
    plan: &FsmPlan,
    count: int,
    resets: Seq<Reset>,
) -> bool {
    &&& resets.len() == count
    &&& forall|i: int|
        0 <= i < count ==> {
            &&& (#[trigger] resets[i]) == (Reset {
                reset_value: resets[i].reset_value,
                ..plan.machine.register.resets@[i]
            })
            &&& module.has(resets[i].reset_value)
            &&& module.ty(resets[i].reset_value).width == plan.encoded_type.width
            &&& forall|env: Env| #[trigger]
                word_of(module, env, resets[i].reset_value) == code_word(
                    plan,
                    known_word(plan.machine.reset_values@[i]@),
                )
        }
}

proof fn lemma_coded_resets_widen(
    before: ModuleView,
    after: ModuleView,
    plan: &FsmPlan,
    count: int,
    resets: Seq<Reset>,
)
    requires
        before.widens_to(after),
        forall|env: Env, v: ValueId|
            before.has(v) ==> #[trigger] word_of(after, env, v) == word_of(before, env, v),
        coded_resets(before, plan, count, resets),
    ensures
        coded_resets(after, plan, count, resets),
{
    assert forall|i: int| 0 <= i < count implies {
        &&& (#[trigger] resets[i]) == (Reset {
            reset_value: resets[i].reset_value,
            ..plan.machine.register.resets@[i]
        })
        &&& after.has(resets[i].reset_value)
        &&& after.ty(resets[i].reset_value).width == plan.encoded_type.width
        &&& forall|env: Env| #[trigger]
            word_of(after, env, resets[i].reset_value) == code_word(
                plan,
                known_word(plan.machine.reset_values@[i]@),
            )
    } by {
        let value = resets[i].reset_value;
        assert(after.ty(value) == before.ty(value));
        assert forall|env: Env| #[trigger] word_of(after, env, value) == code_word(
            plan,
            known_word(plan.machine.reset_values@[i]@),
        ) by {
            assert(word_of(after, env, value) == word_of(before, env, value));
        }
    }
}

/// Appends the codes of the reset states.
#[verifier::rlimit(40)]
fn encode_resets(module: &mut WordModule, plan: &FsmPlan) -> (result: Result<
    Vec<Reset>,
    SynthError,
>)
    requires
        plan.wf(),
        old(module)@.wf(),
        sound_machine(old(module)@, &plan.machine),
    ensures
        stable(old(module)@, final(module)@),
        result matches Ok(resets) ==> coded_resets(
            final(module)@,
            plan,
            plan.machine.register.resets@.len() as int,
            resets@,
        ),
        result matches Err(error) ==> ran_out(final(module)@, error),
{
    let machine = &plan.machine;
    let ghost start = module@;
    let mut resets: Vec<Reset> = Vec::new();
    let mut i: usize = 0;
    proof {
        lemma_stable(start, start);
    }
    while i < machine.register.resets.len()
        invariant
            *machine == plan.machine,
            plan.wf(),
            start == old(module)@,
            stable(start, module@),
            machine.reset_values@.len() == machine.register.resets@.len(),
            i <= machine.register.resets@.len(),
            coded_resets(module@, plan, i as int, resets@),
        decreases machine.register.resets.len() - i,
    {
        let ghost before = module@;
        let ghost was = resets@;
        let reset = machine.register.resets[i];
        let bits = &machine.reset_values[i];
        assert(states_view(machine.states@).contains(machine.reset_values@[i as int]@));
        let state: usize = match find_state(&machine.states, bits) {
            Some(state) => state,
            None => {
                assert(false);
                return Err(SynthError::Invariant(Invariant::BrokenSelection));
            },
        };
        let class: usize = machine.state_classes[state];
        assert(class < machine.representatives@.len());
        let value = match module.emit_constant(
            plan.codes[class].duplicate(),
            plan.encoded_type,
            machine.source,
        ) {
            Ok(value) => value,
            Err(error) => return Err(error),
        };
        let coded = Reset {
            kind: reset.kind,
            value: reset.value,
            active_high: reset.active_high,
            reset_value: value,
        };
        resets.push(coded);
        proof {
            lemma_coded_resets_widen(before, module@, plan, i as int, was);
            let states = states_view(machine.states@);
            assert forall|s: int| 0 <= s < states.len() implies all_known(#[trigger] states[s]) by {
                assert(states[s] == machine.states@[s]@);
            }
            assert(states[state as int] == bits@);
            super::materialize::lemma_class_of_state(
                states,
                machine.state_classes@,
                bits@,
                Some(state as int),
                states.len() as int,
            );
            assert(code_word(plan, known_word(bits@)) == known_word(plan.codes@[class as int]@));
            assert forall|k: int| 0 <= k < i + 1 implies {
                &&& (#[trigger] resets@[k]) == (Reset {
                    reset_value: resets@[k].reset_value,
                    ..plan.machine.register.resets@[k]
                })
                &&& module@.has(resets@[k].reset_value)
                &&& module@.ty(resets@[k].reset_value).width == plan.encoded_type.width
                &&& forall|env: Env| #[trigger]
                    word_of(module@, env, resets@[k].reset_value) == code_word(
                        plan,
                        known_word(plan.machine.reset_values@[k]@),
                    )
            } by {
                if k < i {
                    assert(resets@[k] == was[k]);
                }
            }
        }
        i += 1;
    }
    Ok(resets)
}


/// The register in codes follows the original register.
proof fn lemma_simulates(
    module: ModuleView,
    inner: ModuleView,
    plan: &FsmPlan,
    signal: SignalId,
    encoded_state: ValueId,
    transition: super::materialize::EncodedTransition,
    register: RegisterView,
)
    requires
        plan.wf(),
        stable(inner, module),
        sound_machine(module, &plan.machine),
        inner.has(encoded_state),
        inner.has(plan.machine.register.d),
        super::materialize::transition_ok(inner, transition, plan.encoded_type.width),
        enable_ok(inner, plan.machine.register.enable),
        transition_means(inner, plan, plan.machine.register.d, transition),
        plan.machine.state_signal.raw < inner.signals.len(),
        forall|env: Env| #[trigger]
            word_of(inner, env, encoded_state) == signal_word(module, env, signal),
        forall|env: Env| #[trigger]
            enabled(module, env, register.enable) && word_of(module, env, register.d) != word_of(
                inner,
                env,
                encoded_state,
            ) ==> enabled(inner, env, plan.machine.register.enable) && active(
                inner,
                env,
                transition.activity,
            ) && word_of(module, env, register.d) == word_of(inner, env, transition.data),
        forall|env: Env|
            enabled(inner, env, plan.machine.register.enable) && #[trigger] active(
                inner,
                env,
                transition.activity,
            ) ==> enabled(module, env, register.enable) && word_of(module, env, register.d)
                == word_of(inner, env, transition.data),
        coded_resets(
            module,
            plan,
            plan.machine.register.resets@.len() as int,
            register.resets,
        ),
    ensures
        simulates(module, plan, signal, register),
{
    let machine = &plan.machine;
    assert forall|env: Env|
        signal_word(module, env, signal) == code_word(
            plan,
            signal_word(module, env, machine.state_signal),
        ) implies #[trigger] register_next_word(module, env, register, signal) == code_word(
        plan,
        register_next_word(module, env, machine.register@, machine.state_signal),
    ) by {
        let held = signal_word(module, env, machine.state_signal);
        let held_code = signal_word(module, env, signal);
        let data = word_of(module, env, machine.register.d);
        let loaded = if enabled(module, env, machine.register.enable) {
            data
        } else {
            held
        };
        let loaded_code = if enabled(module, env, register.enable) {
            word_of(module, env, register.d)
        } else {
            held_code
        };
        assert(word_of(module, env, machine.register.d) == word_of(
            inner,
            env,
            machine.register.d,
        ));
        assert(enabled(module, env, machine.register.enable) == enabled(
            inner,
            env,
            machine.register.enable,
        )) by {
            if machine.register.enable is Some {
                let enable = machine.register.enable->0;
                assert(word_of(module, env, enable.value) == word_of(inner, env, enable.value));
            }
        }
        assert(word_of(inner, env, encoded_state) == held_code);
        assert(signal_word(inner, env, machine.state_signal) =~= held);
        assert(follows_value(inner, plan, env, machine.register.d, transition));
        assert(loaded_code == code_word(plan, loaded)) by {
            let moving = enabled(inner, env, machine.register.enable) && active(
                inner,
                env,
                transition.activity,
            );
            if moving {
                assert(loaded_code == word_of(inner, env, transition.data));
            } else {
                assert(loaded_code == held_code);
                if enabled(inner, env, machine.register.enable) {
                    assert(!active(inner, env, transition.activity));
                    assert(data == held);
                }
                assert(loaded == held);
            }
        }
        let resets = machine.register.resets@;
        assert forall|i: int| 0 <= i < resets.len() implies (
        #[trigger] register.resets[i]).value == resets[i].value && register.resets[i].active_high
            == resets[i].active_high && word_of(module, env, register.resets[i].reset_value)
            == code_word(plan, word_of(module, env, resets[i].reset_value)) by {
            assert(word_of(module, env, machine.register.resets@[i].reset_value) == known_word(
                machine.reset_values@[i]@,
            ));
        }
        super::materialize::lemma_resets_follow(
            module,
            env,
            plan,
            resets,
            register.resets,
            loaded,
            loaded_code,
        );
    }
}

proof fn lemma_coded_register_typed(
    module: ModuleView,
    plan: &FsmPlan,
    register: RegisterView,
)
    requires
        module.wf(),
        sound_machine(module, &plan.machine),
        module.has(register.d),
        module.ty(register.d).width == plan.encoded_type.width,
        enable_ok(module, register.enable),
        register.clock == plan.machine.register.clock,
        coded_resets(
            module,
            plan,
            plan.machine.register.resets@.len() as int,
            register.resets,
        ),
    ensures
        module.inputs_below(OpView::Register(register), module.values.len() as int),
        module.op_typed(OpView::Register(register), module.ty(register.d)),
{
    let machine = &plan.machine;
    let kind = OpView::Register(register);
    let old_kind = OpView::Register(machine.register@);
    let tail = crate::word::types::reset_inputs(register.resets);
    let head = seq![register.d, register.clock] + crate::word::types::enable_inputs(
        register.enable,
    );
    crate::word::module::lemma_reset_inputs(register.resets);
    assert(op_inputs(old_kind)[1] == machine.register.clock);
    assert(module.has(machine.register.clock));
    let inputs = op_inputs(kind);
    assert(inputs =~= head + tail);
    assert forall|i: int| 0 <= i < inputs.len() implies (#[trigger] inputs[i]).raw
        < module.values.len() by {
        if i >= head.len() {
            let j = (i - head.len()) / 2;
            assert(register.resets[j].value == machine.register.resets@[j].value);
            super::materialize::lemma_reset_has(module, machine.register@, j);
            assert(i - head.len() == 2 * j || i - head.len() == 2 * j + 1);
            assert(tail[2 * j] == register.resets[j].value);
            assert(tail[2 * j + 1] == register.resets[j].reset_value);
            assert(inputs[i] == tail[i - head.len()]);
        }
    }
    assert forall|i: int| 0 <= i < register.resets.len() implies module.ty(
        (#[trigger] register.resets[i]).value,
    ).width == 1 && module.ty(register.resets[i].reset_value).width
        == plan.encoded_type.width by {
        assert(register.resets[i].value == machine.register.resets@[i].value);
        assert(crate::word::module::resets_typed(
            module,
            machine.register.resets@,
            module.ty(machine.register.d).width,
        ));
        assert(module.ty(machine.register.resets@[i].value).width == 1);
    }
}

/// Re-encodes one machine.
#[verifier::rlimit(80)]
#[verifier::spinoff_prover]
pub fn rewrite_candidate(module: &mut WordModule, plan: &FsmPlan) -> (result: Result<
    (),
    SynthError,
>)
    requires
        old(module)@.wf(),
        plan.wf(),
        sound_machine(old(module)@, &plan.machine),
    ensures
        final(module)@.wf(),
        old(module)@.widens_to(final(module)@),
        result is Ok ==> rewritten(old(module)@, final(module)@, plan),
        result matches Err(error) ==> {
            ||| ran_out(final(module)@, error)
            ||| error == SynthError::Capacity(Resource::Signals) && old(module)@.signals.len()
                >= u32::MAX
            ||| error == SynthError::Invariant(Invariant::BrokenSelection) && !driven_once(
                plan,
                old(module)@.connects,
            )
        },
{
    let machine = &plan.machine;
    let source = machine.source;
    let ghost start = module@;
    let signal = match module.add_generated_wire(plan.encoded_type, source) {
        Ok(signal) => signal,
        Err(error) => return Err(error),
    };
    let ghost wired = module@;
    proof {
        assert(start.widens_to(wired));
        lemma_sound_machine_widens(start, wired, machine);
        assert(op_inputs(OpView::Register(machine.register@))[0] == machine.register.d);
        assert(start.has(machine.register.d));
    }
    let encoded_state = match module.emit_read(signal, source) {
        Ok(value) => value,
        Err(error) => return Err(error),
    };
    let ghost read = module@;
    let decoded_state = match decode_state(module, encoded_state, plan) {
        Ok(value) => value,
        Err(error) => return Err(error),
    };
    let ghost shown = module@;
    proof {
        assert(wired.widens_to(shown));
        lemma_sound_machine_widens(wired, shown, machine);
        assert(shown.ty(encoded_state) == read.ty(encoded_state));
    }
    let transition = match encode_transition(module, encoded_state, plan) {
        Ok(transition) => transition,
        Err(error) => return Err(error),
    };
    let ghost stepped = module@;
    proof {
        assert(wired.widens_to(stepped));
        lemma_sound_machine_widens(wired, stepped, machine);
    }
    let resets = match encode_resets(module, plan) {
        Ok(resets) => resets,
        Err(error) => return Err(error),
    };
    let ghost reset = module@;
    proof {
        assert(wired.widens_to(reset));
        lemma_sound_machine_widens(wired, reset, machine);
        assert(reset.ty(encoded_state) == read.ty(encoded_state));
        super::materialize::lemma_means_later(
            stepped,
            reset,
            plan,
            machine.register.d,
            transition,
            plan.encoded_type.width,
        );
        if machine.register.enable is Some {
            let enable = machine.register.enable->0;
            assert(op_inputs(OpView::Register(machine.register@))[2] == enable.value);
            assert(reset.has(enable.value));
        }
    }
    let (data, enable) = match transition_register_inputs(
        module,
        encoded_state,
        transition,
        machine.register.enable,
        source,
        plan.encoded_type.width,
    ) {
        Ok(inputs) => inputs,
        Err(error) => return Err(error),
    };
    let ghost ready = module@;
    let register = RegisterOp {
        name: machine.register.name,
        d: data,
        clock: machine.register.clock,
        edge: machine.register.edge,
        enable,
        resets,
    };
    let ghost view = register@;
    proof {
        assert(wired.widens_to(ready));
        lemma_sound_machine_widens(wired, ready, machine);
        lemma_coded_resets_widen(
            reset,
            ready,
            plan,
            machine.register.resets@.len() as int,
            view.resets,
        );
        lemma_coded_register_typed(ready, plan, view);
        assert forall|env: Env| #[trigger] word_of(reset, env, encoded_state) == signal_word(
            ready,
            env,
            signal,
        ) by {
            assert(word_of(read, env, encoded_state) =~= signal_word(ready, env, signal));
            assert(word_of(shown, env, encoded_state) == word_of(read, env, encoded_state));
            assert(word_of(stepped, env, encoded_state) == word_of(shown, env, encoded_state));
        }
        lemma_simulates(ready, reset, plan, signal, encoded_state, transition, view);
    }
    let encoded_register = match module.emit_register(register, source) {
        Ok(value) => value,
        Err(error) => return Err(error),
    };
    let ghost built = module@;
    let others = match remove_state_connect(&module.connects, plan) {
        Ok(others) => others,
        Err(error) => return Err(error),
    };
    module.connects = others;
    let ghost cut = module@;
    proof {
        assert(cut == built.with_connects(others@));
        assert forall|i: int| 0 <= i < start.connects.len() implies built.connect_ok(
            #[trigger] start.connects[i],
        ) by {
            assert(built.connects == start.connects);
            assert(built.connect_ok(built.connects[i]));
        }
        lemma_others_ok(built, plan, start.connects);
        crate::word::builders::lemma_with_connects(built, others@);
    }
    let first = module.connect(LValue::signal(machine.state_signal), decoded_state, source);
    let second = module.connect(LValue::signal(signal), encoded_register, source);
    proof {
        let done = module@;
        assert(first is Ok);
        assert(second is Ok);
        assert(built.widens_to(done));
        assert(shown.widens_to(done));
        assert(ready.widens_to(done));
        assert(start.widens_to(done));
        lemma_keeps_words(built, done);
        lemma_keeps_words(ready, done);
        lemma_keeps_words(shown, done);
        lemma_simulates_keeps(ready, done, plan, signal, view);
        lemma_coded_resets_widen(
            ready,
            done,
            plan,
            machine.register.resets@.len() as int,
            view.resets,
        );
        assert forall|env: Env| #[trigger] word_of(done, env, decoded_state) == decoded(
            plan,
            signal_word(done, env, signal),
            machine.representatives@.len() as int,
        ) by {
            assert(word_of(shown, env, decoded_state) == decoded(
                plan,
                word_of(read, env, encoded_state),
                machine.representatives@.len() as int,
            ));
            assert(word_of(read, env, encoded_state) =~= signal_word(done, env, signal));
        }
        assert(re_encoded(start, done, plan, decoded_state, encoded_register, view));
    }
    Ok(())
}


pub open spec fn rewritten_at(trace: Seq<ModuleView>, plans: Seq<FsmPlan>, k: int) -> bool {
    rewritten(trace[k], trace[k + 1], &plans[k])
}

/// The modules between which machines were re-encoded.
pub open spec fn rewriting(
    before: ModuleView,
    after: ModuleView,
    plans: Seq<FsmPlan>,
    trace: Seq<ModuleView>,
) -> bool {
    &&& trace.len() == plans.len() + 1
    &&& trace[0] == before
    &&& trace.last() == after
    &&& forall|k: int| 0 <= k < plans.len() ==> #[trigger] rewritten_at(trace, plans, k)
}

/// The machines of several plans were re-encoded, one after the other.
pub open spec fn all_rewritten(
    before: ModuleView,
    after: ModuleView,
    plans: Seq<FsmPlan>,
) -> bool {
    exists|trace: Seq<ModuleView>| #[trigger] rewriting(before, after, plans, trace)
}

proof fn lemma_rewritten_next(
    start: ModuleView,
    before: ModuleView,
    after: ModuleView,
    plans: Seq<FsmPlan>,
    plan: FsmPlan,
)
    requires
        all_rewritten(start, before, plans),
        rewritten(before, after, &plan),
    ensures
        all_rewritten(start, after, plans.push(plan)),
{
    let trace = choose|trace: Seq<ModuleView>| #[trigger] rewriting(start, before, plans, trace);
    let longer = trace.push(after);
    let all = plans.push(plan);
    assert forall|k: int| 0 <= k < all.len() implies #[trigger] rewritten_at(longer, all, k) by {
        if k < plans.len() {
            assert(rewritten_at(trace, plans, k));
            assert(longer[k] == trace[k] && longer[k + 1] == trace[k + 1]);
        }
    }
    assert(rewriting(start, after, all, longer));
}

/// The state of some machine is not driven by one connection once the machines
/// before it were re-encoded.
pub open spec fn plans_break(module: ModuleView, plans: Seq<FsmPlan>) -> bool {
    exists|k: int, middle: ModuleView|
        0 <= k < plans.len() && #[trigger] all_rewritten(module, middle, plans.take(k))
            && !driven_once(&plans[k], middle.connects)
}

/// Re-encodes the machines of several plans.
pub fn materialize_plans(module: &mut WordModule, plans: &Vec<FsmPlan>) -> (result: Result<
    (),
    SynthError,
>)
    requires
        old(module)@.wf(),
        forall|k: int|
            0 <= k < plans@.len() ==> (#[trigger] plans@[k]).wf() && sound_machine(
                old(module)@,
                &plans@[k].machine,
            ),
    ensures
        final(module)@.wf(),
        old(module)@.widens_to(final(module)@),
        result is Ok ==> all_rewritten(old(module)@, final(module)@, plans@),
        result matches Err(error) ==> {
            ||| ran_out(final(module)@, error)
            ||| error == SynthError::Capacity(Resource::Signals) && final(module)@.signals.len()
                >= u32::MAX
            ||| error == SynthError::Invariant(Invariant::BrokenSelection) && plans_break(
                old(module)@,
                plans@,
            )
        },
{
    let ghost start = module@;
    let mut k: usize = 0;
    assert(rewriting(start, start, plans@.take(0), seq![start]));
    while k < plans.len()
        invariant
            start == old(module)@,
            start.wf(),
            module@.wf(),
            start.widens_to(module@),
            k <= plans@.len(),
            forall|k: int|
                0 <= k < plans@.len() ==> (#[trigger] plans@[k]).wf() && sound_machine(
                    start,
                    &plans@[k].machine,
                ),
            all_rewritten(start, module@, plans@.take(k as int)),
        decreases plans.len() - k,
    {
        let ghost before = module@;
        let plan = &plans[k];
        proof {
            assert(plans@[k as int].wf());
            lemma_sound_machine_widens(start, before, &plan.machine);
            assert(plans@.take(k + 1).drop_last() =~= plans@.take(k as int));
        }
        match rewrite_candidate(module, plan) {
            Ok(()) => {},
            Err(error) => {
                proof {
                    if !driven_once(&plans@[k as int], before.connects) {
                        assert(all_rewritten(start, before, plans@.take(k as int)));
                        assert(plans_break(start, plans@));
                    }
                }
                return Err(error);
            },
        }
        proof {
            let now = plans@.take(k + 1);
            assert(now.last() == *plan);
            assert(now =~= plans@.take(k as int).push(*plan));
            lemma_rewritten_next(start, before, module@, plans@.take(k as int), *plan);
        }
        k += 1;
    }
    assert(plans@.take(k as int) =~= plans@);
    Ok(())
}

proof fn lemma_machine_connects(
    module: ModuleView,
    uses: Seq<u32>,
    counts: Seq<u32>,
    facts: Seq<Option<Seq<BitVal>>>,
    count: nat,
    k: int,
)
    requires
        module.wf(),
        count <= module.connects.len(),
        0 <= k < machine_connects(module, uses, counts, facts, count).len(),
    ensures
        ({
            let connect = machine_connects(module, uses, counts, facts, count)[k];
            module.connect_ok(connect) && is_machine(module, uses, counts, facts, connect)
        }),
    decreases count,
{
    let below = machine_connects(module, uses, counts, facts, (count - 1) as nat);
    assert(module.connect_ok(module.connects[count - 1]));
    if k < below.len() {
        lemma_machine_connects(module, uses, counts, facts, (count - 1) as nat, k);
    }
}

/// A machine drawn from a module is what the module says.
proof fn lemma_drawn_sound(
    module: ModuleView,
    facts: Seq<Option<Seq<BitVal>>>,
    uses: Seq<u32>,
    counts: Seq<u32>,
    connect: Connect,
    machine: &DerivedFsm,
)
    requires
        module.wf(),
        module.connect_ok(connect),
        facts_sound(module, facts),
        is_machine(module, uses, counts, facts, connect),
        machine.drawn_from(module, facts, connect),
    ensures
        sound_machine(module, machine),
        machine.register_operation.raw < module.operations.len(),
        module.has(machine.register.clock),
        forall|k: int|
            0 <= k < machine.transition_order@.len() ==> module.has(
                #[trigger] machine.transition_order@[k],
            ),
        machine.state_type.width >= 1,
{
    let root = machine.register.d.raw as int;
    let register = machine.register@;
    let all = transition_cone(module, root);
    lemma_register_ok(module, connect, register);
    assert(op_inputs(OpView::Register(register))[1] == machine.register.clock);
    assert(module.value_ok(connect.value.raw as int));
    assert forall|v: int| #[trigger] all.contains(v) implies transition_value(module, machine, v)
        && module.values[v].ty.width == machine.state_type.width && 0 <= v
        < module.values.len() by {
        lemma_cone_width(module, root, v);
        assert(admissible(module, facts, machine.state_signal, v));
        if fixed_state(module, facts, v) is Some {
            assert(lists(machine.constant_values@, v));
        }
        assert(ValueId { raw: v as u32 }.raw == v);
    }
    assert forall|k: int| 0 <= k < machine.constant_values@.len() implies constant_sound(
        module,
        machine,
        #[trigger] machine.constant_values@[k],
    ) by {
        let constant = machine.constant_values@[k];
        let v = constant.value.raw as int;
        assert(all.contains(v));
        assert(fixed_state(module, facts, v) == Some(constant.bits@));
        assert(admissible(module, facts, machine.state_signal, v));
        assert(module.value_ok(v));
        if module.values[v].kind is Constant {
            assert forall|env: Env| #[trigger] word_of(module, env, constant.value) == known_word(
                constant.bits@,
            ) by {
                crate::word::emit::lemma_constant_at(module, env, constant.value);
            }
        } else {
            assert forall|env: Env| #[trigger] word_of(module, env, constant.value) == known_word(
                constant.bits@,
            ) by {
                assert(crate::word::semantics::eval(module, env, v) == known_word(facts[v]->0));
            }
        }
    }
    assert forall|i: int, env: Env|
        0 <= i < machine.register.resets@.len() implies #[trigger] word_of(
        module,
        env,
        machine.register.resets@[i].reset_value,
    ) == known_word(machine.reset_values@[i]@) by {
        super::materialize::lemma_reset_has(module, register, i);
        let v = machine.register.resets@[i].reset_value.raw as int;
        assert(facts[v] == Some(machine.reset_values@[i]@));
        assert(all_known(facts[register.resets[i].reset_value.raw as int]->0));
        assert(crate::word::semantics::eval(module, env, v) == known_word(facts[v]->0));
    }
    assert forall|k: int| 0 <= k < machine.transition_order@.len() implies module.has(
        #[trigger] machine.transition_order@[k],
    ) by {
        assert(all.contains(machine.transition_order@[k].raw as int));
    }
}

/// The machines that belong to one region.
pub open spec fn private_machines(
    module: ModuleView,
    machines: Seq<DerivedFsm>,
    regions: Seq<Option<u32>>,
) -> Seq<DerivedFsm>
    decreases machines.len(),
{
    if machines.len() == 0 {
        seq![]
    } else {
        let below = private_machines(module, machines.drop_last(), regions);
        if region_private(module, &machines.last(), regions) {
            below.push(machines.last())
        } else {
            below
        }
    }
}

/// The objective of each machine.
pub open spec fn objectives_of(
    module: ModuleView,
    machines: Seq<DerivedFsm>,
    constrained: Seq<bool>,
) -> Seq<FsmObjective> {
    machines.map_values(
        |machine: DerivedFsm|
            match clock_port(module, &machine) {
                Some(port) => if port < constrained.len() && constrained[port] {
                    FsmObjective::Timing
                } else {
                    FsmObjective::Area
                },
                None => FsmObjective::Area,
            },
    )
}

/// A machine that can be planned and materialised.
pub open spec fn usable(module: ModuleView, machine: &DerivedFsm) -> bool {
    &&& analysed_machine(machine)
    &&& sound_machine(module, machine)
    &&& machine.register_operation.raw < module.operations.len()
    &&& module.has(machine.register.clock)
    &&& forall|k: int|
        0 <= k < machine.transition_order@.len() ==> module.has(
            #[trigger] machine.transition_order@[k],
        )
}

fn reverse_machines(machines: Vec<DerivedFsm>) -> (reversed: Vec<DerivedFsm>)
    ensures
        reversed@ == machines@.reverse(),
{
    let ghost all = machines@;
    let mut machines = machines;
    let mut reversed: Vec<DerivedFsm> = Vec::new();
    while machines.len() > 0
        invariant
            machines@ + reversed@.reverse() == all,
        decreases machines.len(),
    {
        let ghost before = machines@;
        let ghost behind = reversed@;
        match machines.pop() {
            Some(machine) => {
                reversed.push(machine);
                assert(reversed@.reverse() =~= seq![machine] + behind.reverse());
                assert(before =~= machines@.push(machine));
                assert(machines@ + reversed@.reverse() =~= before + behind.reverse());
            },
            None => {},
        }
    }
    assert(reversed@.reverse() =~= all);
    assert(reversed@ =~= all.reverse());
    reversed
}

/// Keeps the machines that belong to one region.
#[verifier::rlimit(80)]
#[verifier::spinoff_prover]
fn retain_private(
    module: &WordModule,
    machines: Vec<DerivedFsm>,
    operation_regions: &Vec<Option<u32>>,
) -> (kept: Vec<DerivedFsm>)
    requires
        module@.wf(),
        operation_regions@.len() == module@.operations.len(),
        forall|k: int|
            0 <= k < machines@.len() ==> usable(module@, &(#[trigger] machines@[k])),
    ensures
        kept@ == private_machines(module@, machines@, operation_regions@),
        forall|k: int| 0 <= k < kept@.len() ==> usable(module@, &(#[trigger] kept@[k])),
{
    let ghost all = machines@;
    let mut reversed = reverse_machines(machines);
    let mut kept: Vec<DerivedFsm> = Vec::new();
    let ghost mut k: int = 0;
    assert(all.take(0) =~= seq![]);
    assert(reversed@.reverse() =~= all.skip(0));
    while reversed.len() > 0
        invariant
            module@.wf(),
            operation_regions@.len() == module@.operations.len(),
            0 <= k,
            k + reversed@.len() == all.len(),
            reversed@.reverse() == all.skip(k),
            kept@ == private_machines(module@, all.take(k), operation_regions@),
            forall|k: int| 0 <= k < all.len() ==> usable(module@, &(#[trigger] all[k])),
            forall|k: int| 0 <= k < kept@.len() ==> usable(module@, &(#[trigger] kept@[k])),
        decreases reversed.len(),
    {
        let ghost left = reversed@;
        match reversed.pop() {
            Some(machine) => {
                proof {
                    assert(left.reverse()[0] == machine);
                    assert(all.skip(k)[0] == all[k]);
                    assert(reversed@.reverse() =~= left.reverse().skip(1));
                    assert(all.skip(k).skip(1) =~= all.skip(k + 1));
                    assert(all.take(k + 1).drop_last() =~= all.take(k));
                    assert(usable(module@, &all[k]));
                }
                if machine_is_region_private(module, &machine, operation_regions) {
                    kept.push(machine);
                }
                proof {
                    k = k + 1;
                }
            },
            None => {},
        }
    }
    assert(all.take(k) =~= all);
    kept
}

/// The plans for the machines of a module that belong to one region each.
pub open spec fn planned_for(
    module: ModuleView,
    facts: Seq<Option<Seq<BitVal>>>,
    ranges: Seq<Option<u128>>,
    regions: Seq<Option<u32>>,
    constrained: Seq<bool>,
    plans: Seq<FsmPlan>,
) -> bool {
    exists|catalog: FsmCatalog| #[trigger]
        catalog.describes(module, facts, ranges) && ({
            let machines = private_machines(module, catalog.machines@, regions);
            planned(machines, objectives_of(module, machines, constrained), plans)
        })
}

/// Which machines were re-encoded.
pub open spec fn optimized(
    before: ModuleView,
    after: ModuleView,
    facts: Seq<Option<Seq<BitVal>>>,
    ranges: Seq<Option<u128>>,
    regions: Seq<Option<u32>>,
    constrained: Seq<bool>,
    plans: Seq<FsmPlan>,
) -> bool {
    exists|catalog: FsmCatalog| #[trigger]
        catalog.describes(before, facts, ranges) && ({
            let machines = private_machines(before, catalog.machines@, regions);
            planned(machines, objectives_of(before, machines, constrained), plans)
                && all_rewritten(before, after, plans)
        })
}

/// Re-encodes the machines that belong to one region each, for timing where
/// their clock is constrained and for area elsewhere.
#[verifier::rlimit(60)]
pub fn optimize_derived_fsms_in_regions(
    module: &mut WordModule,
    operation_regions: &Vec<Option<u32>>,
    ranges: &Vec<Option<u128>>,
    facts: &Vec<Option<ConstBits>>,
    constrained: &Vec<bool>,
) -> (result: Result<usize, SynthError>)
    requires
        old(module)@.wf(),
        ranges_sound(old(module)@, ranges@),
        facts_sound(old(module)@, facts_view(facts@)),
    ensures
        final(module)@.wf(),
        old(module)@.widens_to(final(module)@),
        operation_regions@.len() != old(module)@.operations.len() ==> result == Err::<
            usize,
            SynthError,
        >(SynthError::Invariant(Invariant::UnknownOperation)) && final(module)@ == old(module)@,
        result matches Ok(count) ==> exists|plans: Seq<FsmPlan>|
            plans.len() == count && #[trigger] optimized(
                old(module)@,
                final(module)@,
                facts_view(facts@),
                ranges@,
                operation_regions@,
                constrained@,
                plans,
            ),
        result matches Err(error) ==> {
            ||| operation_regions@.len() != old(module)@.operations.len()
            ||| final(module)@ == old(module)@ && catalog_fails(
                old(module)@,
                facts_view(facts@),
                ranges@,
                error,
            )
            ||| crate::word::emit::exhausted(final(module)@, error)
            ||| error == SynthError::Invariant(Invariant::BrokenSelection) && exists|
                plans: Seq<FsmPlan>,
            |
                #[trigger] planned_for(
                    old(module)@,
                    facts_view(facts@),
                    ranges@,
                    operation_regions@,
                    constrained@,
                    plans,
                ) && plans_break(old(module)@, plans)
        },
{
    if operation_regions.len() != module.operations.len() {
        return Err(SynthError::Invariant(Invariant::UnknownOperation));
    }
    let ghost start = module@;
    let ghost known = facts_view(facts@);
    let catalog = match derive_catalog(module, ranges, facts) {
        Ok(catalog) => catalog,
        Err(error) => return Err(error),
    };
    proof {
        let (uses, counts, drivers, observed, dependencies) = choose|
            uses: Seq<u32>,
            counts: Seq<u32>,
            drivers: crate::word::drivers::SignalDriverIndex,
            observed: Seq<super::observation::FsmObservationCandidate>,
            dependencies: super::dependency::FsmDependencyIndex,
        | #[trigger]
            context_of(start, uses, counts, &drivers, observed, &dependencies) && catalogues(
                start,
                known,
                ranges@,
                uses,
                counts,
                &drivers,
                observed,
                &dependencies,
                start.connects.len(),
                catalog.machines@,
            );
        assert forall|k: int| 0 <= k < catalog.machines@.len() implies usable(
            start,
            &(#[trigger] catalog.machines@[k]),
        ) by {
            let connects = machine_connects(start, uses, counts, known, start.connects.len());
            assert(machine_of(
                start,
                known,
                ranges@,
                &drivers,
                connects[k],
                observed,
                &dependencies,
                &catalog.machines@[k],
            ));
            lemma_machine_connects(start, uses, counts, known, start.connects.len(), k);
            lemma_drawn_sound(start, known, uses, counts, connects[k], &catalog.machines@[k]);
        }
    }
    let ghost whole = catalog;
    let machines = retain_private(module, catalog.machines, operation_regions);
    let mut objectives: Vec<FsmObjective> = Vec::new();
    let mut k: usize = 0;
    while k < machines.len()
        invariant
            start == module@,
            k <= machines@.len(),
            objectives@.len() == k,
            forall|k: int| 0 <= k < machines@.len() ==> usable(start, &(#[trigger] machines@[k])),
            forall|j: int|
                0 <= j < k ==> #[trigger] objectives@[j] == objectives_of(
                    start,
                    machines@,
                    constrained@,
                )[j],
        decreases machines.len() - k,
    {
        assert(usable(start, &machines@[k as int]));
        objectives.push(machine_objective(module, &machines[k], constrained));
        k += 1;
    }
    assert(objectives@ =~= objectives_of(start, machines@, constrained@));
    let ghost kept = machines@;
    let plans = plan_catalog(FsmCatalog { machines }, &objectives);
    proof {
        assert forall|k: int| 0 <= k < plans@.len() implies (#[trigger] plans@[k]).wf()
            && sound_machine(start, &plans@[k].machine) by {
            assert(kept.contains(plans@[k].machine));
            let j = choose|j: int| 0 <= j < kept.len() && kept[j] == plans@[k].machine;
            assert(usable(start, &kept[j]));
        }
    }
    proof {
        assert(whole.describes(start, known, ranges@));
        assert(planned_for(
            start,
            known,
            ranges@,
            operation_regions@,
            constrained@,
            plans@,
        ));
    }
    match materialize_plans(module, &plans) {
        Ok(()) => {},
        Err(error) => return Err(error),
    }
    proof {
        assert(whole.describes(start, known, ranges@));
        assert(optimized(
            start,
            module@,
            known,
            ranges@,
            operation_regions@,
            constrained@,
            plans@,
        ));
    }
    Ok(plans.len())
}

} // verus!
