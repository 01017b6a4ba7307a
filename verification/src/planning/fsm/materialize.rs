//! Putting new codes into a module.

use super::catalog::DerivedFsm;
use super::encoding::find_state;
use super::plan::FsmPlan;
use super::symbolic::encoder::{active_control, after_resets, register_next_word, signal_word};
use super::symbolic::selection::{class_of, states_view};
use super::transition::{
    choices, choices_of, is_state_read, lists, order_ok, precedes, transition_cone, FixedValue,
};
use crate::collections::IdMap;
use crate::error::{Invariant, SynthError};
use crate::word::emit::{lemma_stable, ran_out, stable};
use crate::word::module::{joined_type, KindView, ModuleView, Signal, ValueKind, WordModule};
use crate::word::numbers::{all_known, known_word};
use crate::word::semantics::{
    binary_bits, cast_bits, lemma_eval_operation, lemma_eval_width, resize_bits, word_of, Env,
};
use crate::word::types::{
    op_inputs, BinaryOp, BitVal, CastKind, ConstBits, Enable, OpKind, OpView, RegisterView, Reset,
    SignalId, SourceSpan, UnaryOp, ValueId, WordType,
};
use vstd::prelude::*;

verus! {

/// When a transition changes the state.
#[derive(Clone, Copy, PartialEq, Eq, Structural, Debug)]
pub enum TransitionActivity {
    Never,
    Always,
    Value(ValueId),
}

/// A transition in codes: the code to take over, and when.
#[derive(Clone, Copy, PartialEq, Eq, Structural, Debug)]
pub struct EncodedTransition {
    pub data: ValueId,
    pub activity: TransitionActivity,
}

pub open spec fn activity_ok(module: ModuleView, activity: TransitionActivity) -> bool {
    activity matches TransitionActivity::Value(value) ==> module.has(value) && module.ty(
        value,
    ).width == 1
}

pub open spec fn active(module: ModuleView, env: Env, activity: TransitionActivity) -> bool {
    match activity {
        TransitionActivity::Never => false,
        TransitionActivity::Always => true,
        TransitionActivity::Value(value) => word_of(module, env, value)[0],
    }
}

/// The value of an activity, as a constant of the given type where it is fixed.
fn materialize_activity(
    module: &mut WordModule,
    activity: TransitionActivity,
    ty: WordType,
    source: SourceSpan,
) -> (result: Result<ValueId, SynthError>)
    requires
        old(module)@.wf(),
        activity_ok(old(module)@, activity),
        ty.width == 1,
    ensures
        stable(old(module)@, final(module)@),
        result matches Ok(value) ==> {
            &&& final(module)@.has(value)
            &&& final(module)@.ty(value).width == 1
            &&& activity !is Value ==> final(module)@.ty(value) == ty
            &&& activity is Value ==> value == activity->Value_0
            &&& forall|env: Env|
                (#[trigger] word_of(final(module)@, env, value))[0] == active(
                    old(module)@,
                    env,
                    activity,
                )
        },
        result matches Err(error) ==> ran_out(final(module)@, error),
{
    proof {
        lemma_stable(module@, module@);
    }
    let bit: BitVal = match activity {
        TransitionActivity::Value(value) => return Ok(value),
        TransitionActivity::Always => BitVal::One,
        TransitionActivity::Never => BitVal::Zero,
    };
    let mut bits: Vec<BitVal> = Vec::new();
    bits.push(bit);
    let constant = ConstBits { bits };
    let ghost held = constant@;
    assert(held[0].known());
    assert(all_known(held));
    let result = module.emit_constant(constant, ty, source);
    proof {
        if result is Ok {
            let value = result->Ok_0;
            assert(known_word(held)[0] == (held[0] is One));
        }
    }
    result
}

/// The activity of a selection between two transitions.
pub fn select_activity(
    module: &mut WordModule,
    condition: ValueId,
    then_value: TransitionActivity,
    else_value: TransitionActivity,
    source: SourceSpan,
) -> (result: Result<TransitionActivity, SynthError>)
    requires
        old(module)@.wf(),
        old(module)@.has(condition),
        old(module)@.ty(condition).width == 1,
        activity_ok(old(module)@, then_value),
        activity_ok(old(module)@, else_value),
    ensures
        stable(old(module)@, final(module)@),
        result matches Ok(activity) ==> {
            &&& activity_ok(final(module)@, activity)
            &&& then_value == else_value ==> activity == then_value
            &&& activity is Never ==> then_value is Never && else_value is Never
            &&& activity is Always ==> then_value is Always && else_value is Always
            &&& forall|env: Env| #[trigger]
                active(final(module)@, env, activity) == (if word_of(
                    old(module)@,
                    env,
                    condition,
                )[0] {
                    active(old(module)@, env, then_value)
                } else {
                    active(old(module)@, env, else_value)
                })
            &&& then_value is Always && else_value is Value && else_value->Value_0 != condition
                ==> activity is Value && final(module)@.ty(activity->Value_0) == old(module)@.ty(
                else_value->Value_0,
            )
        },
        result matches Err(error) ==> ran_out(final(module)@, error),
{
    let ghost before = module@;
    proof {
        lemma_stable(module@, module@);
    }
    if then_value == else_value {
        return Ok(then_value);
    }
    match (then_value, else_value) {
        (TransitionActivity::Always, TransitionActivity::Never) => {
            return Ok(TransitionActivity::Value(condition));
        },
        (TransitionActivity::Never, TransitionActivity::Always) => {
            let result = module.emit_unary(UnaryOp::BitNot, condition, source);
            match result {
                Ok(value) => {
                    proof {
                        assert forall|env: Env|
                            (#[trigger] word_of(module@, env, value))[0] == !word_of(
                                before,
                                env,
                                condition,
                            )[0] by {
                            lemma_eval_width(before, env, condition.raw as int);
                        }
                    }
                    return Ok(TransitionActivity::Value(value));
                },
                Err(error) => return Err(error),
            }
        },
        (TransitionActivity::Always, TransitionActivity::Value(value)) => {
            if value == condition {
                return Ok(TransitionActivity::Value(condition));
            }
        },
        (TransitionActivity::Value(value), TransitionActivity::Never) => {
            if value == condition {
                return Ok(TransitionActivity::Value(condition));
            }
        },
        _ => {},
    }
    let reference = match (then_value, else_value) {
        (TransitionActivity::Value(reference), _) => reference,
        (_, TransitionActivity::Value(reference)) => reference,
        _ => {
            assert(false);
            return Err(SynthError::Invariant(Invariant::UnknownValue));
        },
    };
    let ty = module.values[reference.raw as usize].ty;
    assert(ty == module@.ty(reference));
    let then_value_id = match materialize_activity(module, then_value, ty, source) {
        Ok(value) => value,
        Err(error) => return Err(error),
    };
    let ghost middle = module@;
    let else_value_id = match materialize_activity(module, else_value, ty, source) {
        Ok(value) => value,
        Err(error) => return Err(error),
    };
    let ghost last = module@;
    proof {
        assert forall|env: Env| #[trigger] active(middle, env, else_value) == active(
            before,
            env,
            else_value,
        ) by {
            if let TransitionActivity::Value(value) = else_value {
                assert(word_of(middle, env, value) == word_of(before, env, value));
            }
        }
        assert(last.ty(then_value_id) == middle.ty(then_value_id));
        assert(last.ty(condition) == before.ty(condition));
    }
    match module.emit_mux(condition, then_value_id, else_value_id, source) {
        Ok(value) => {
            proof {
                assert forall|env: Env| #[trigger]
                    active(module@, env, TransitionActivity::Value(value)) == (if word_of(
                        before,
                        env,
                        condition,
                    )[0] {
                        active(before, env, then_value)
                    } else {
                        active(before, env, else_value)
                    }) by {
                    assert(word_of(last, env, condition) == word_of(before, env, condition));
                    assert(word_of(last, env, then_value_id) == word_of(
                        middle,
                        env,
                        then_value_id,
                    ));
                    assert(active(middle, env, else_value) == active(before, env, else_value));
                }
            }
            Ok(TransitionActivity::Value(value))
        },
        Err(error) => Err(error),
    }
}

pub open spec fn transition_ok(module: ModuleView, transition: EncodedTransition, width: u32) -> bool {
    &&& module.has(transition.data)
    &&& module.ty(transition.data).width == width
    &&& activity_ok(module, transition.activity)
}

/// A selection between two transitions.
pub fn select_transition(
    module: &mut WordModule,
    condition: ValueId,
    then_value: EncodedTransition,
    else_value: EncodedTransition,
    source: SourceSpan,
    width: u32,
) -> (result: Result<EncodedTransition, SynthError>)
    requires
        old(module)@.wf(),
        old(module)@.has(condition),
        old(module)@.ty(condition).width == 1,
        transition_ok(old(module)@, then_value, width),
        transition_ok(old(module)@, else_value, width),
    ensures
        stable(old(module)@, final(module)@),
        result matches Ok(selected) ==> {
            &&& transition_ok(final(module)@, selected, width)
            &&& forall|env: Env| #[trigger]
                active(final(module)@, env, selected.activity) == (if word_of(
                    old(module)@,
                    env,
                    condition,
                )[0] {
                    active(old(module)@, env, then_value.activity)
                } else {
                    active(old(module)@, env, else_value.activity)
                })
            &&& forall|env: Env|
                active(final(module)@, env, selected.activity) ==> #[trigger] word_of(
                    final(module)@,
                    env,
                    selected.data,
                ) == (if word_of(old(module)@, env, condition)[0] {
                    word_of(old(module)@, env, then_value.data)
                } else {
                    word_of(old(module)@, env, else_value.data)
                })
        },
        result matches Err(error) ==> ran_out(final(module)@, error),
{
    let ghost before = module@;
    let activity = match select_activity(
        module,
        condition,
        then_value.activity,
        else_value.activity,
        source,
    ) {
        Ok(activity) => activity,
        Err(error) => return Err(error),
    };
    let ghost middle = module@;
    proof {
        assert(middle.ty(then_value.data) == before.ty(then_value.data));
        assert(middle.ty(else_value.data) == before.ty(else_value.data));
        assert(middle.ty(condition) == before.ty(condition));
        lemma_stable(middle, middle);
    }
    let data = match (then_value.activity, else_value.activity) {
        (_, TransitionActivity::Never) => then_value.data,
        (TransitionActivity::Never, _) => else_value.data,
        _ => {
            if then_value.data == else_value.data {
                then_value.data
            } else {
                match module.emit_mux(condition, then_value.data, else_value.data, source) {
                    Ok(data) => data,
                    Err(error) => return Err(error),
                }
            }
        },
    };
    proof {
        assert forall|env: Env| #[trigger] active(module@, env, activity) == active(
            middle,
            env,
            activity,
        ) by {
            if let TransitionActivity::Value(value) = activity {
                assert(word_of(module@, env, value) == word_of(middle, env, value));
            }
        }
        assert forall|env: Env|
            active(module@, env, activity) implies #[trigger] word_of(module@, env, data) == (
        if word_of(before, env, condition)[0] {
            word_of(before, env, then_value.data)
        } else {
            word_of(before, env, else_value.data)
        }) by {
            assert(active(module@, env, activity) == active(middle, env, activity));
            assert(word_of(middle, env, then_value.data) == word_of(before, env, then_value.data));
            assert(word_of(middle, env, else_value.data) == word_of(before, env, else_value.data));
            assert(word_of(middle, env, condition) == word_of(before, env, condition));
        }
    }
    Ok(EncodedTransition { data, activity })
}

/// The state that a code stands for: that of the last class with the code, or
/// of the first class.
pub open spec fn decoded(plan: &FsmPlan, word: Seq<bool>, count: int) -> Seq<bool>
    decreases count,
{
    if count <= 1 {
        known_word(plan.machine.states@[plan.machine.representatives@[0] as int]@)
    } else if known_word(plan.codes@[count - 1]@) == word {
        known_word(plan.machine.states@[plan.machine.representatives@[count - 1] as int]@)
    } else {
        decoded(plan, word, count - 1)
    }
}

/// A word of the right width is its own resized form.
pub proof fn lemma_resize_same(word: Seq<bool>, source: WordType, target: WordType)
    requires
        word.len() == target.width,
    ensures
        resize_bits(word, source, target) == word,
{
    assert(resize_bits(word, source, target) =~= word);
}

/// Comparing two words of one width for equality.
proof fn lemma_equal_words(left: Seq<bool>, left_ty: WordType, right: Seq<bool>, right_ty: WordType, ty: WordType)
    requires
        left.len() == left_ty.width,
        right.len() == right_ty.width,
        left_ty.width == right_ty.width,
    ensures
        binary_bits(BinaryOp::Eq, left, left_ty, right, right_ty, ty)[0] == (left == right),
{
    let compared = crate::word::semantics::compare_type(left_ty, right_ty, ty);
    lemma_resize_same(left, left_ty, compared);
    lemma_resize_same(right, right_ty, compared);
}

/// Appends the decoder of a machine's codes.
#[verifier::rlimit(40)]
pub fn decode_state(module: &mut WordModule, encoded: ValueId, plan: &FsmPlan) -> (result: Result<
    ValueId,
    SynthError,
>)
    requires
        old(module)@.wf(),
        plan.wf(),
        plan.machine.state_type.width >= 1,
        old(module)@.has(encoded),
        old(module)@.ty(encoded).width == plan.encoded_type.width,
    ensures
        stable(old(module)@, final(module)@),
        result matches Ok(value) ==> {
            &&& final(module)@.has(value)
            &&& final(module)@.ty(value) == plan.machine.state_type
            &&& forall|env: Env| #[trigger]
                word_of(final(module)@, env, value) == decoded(
                    plan,
                    word_of(old(module)@, env, encoded),
                    plan.machine.representatives@.len() as int,
                )
        },
        result matches Err(error) ==> ran_out(final(module)@, error),
{
    let machine = &plan.machine;
    let source = machine.source;
    let ghost start = module@;
    proof {
        super::plan::lemma_some_class(machine);
    }
    let first: usize = machine.representatives[0];
    let mut value = match module.emit_constant(
        machine.states[first].duplicate(),
        machine.state_type,
        source,
    ) {
        Ok(value) => value,
        Err(error) => return Err(error),
    };
    let mut class: usize = 1;
    while class < machine.representatives.len()
        invariant
            *machine == plan.machine,
            source == machine.source,
            plan.wf(),
            plan.machine.state_type.width >= 1,
            start == old(module)@,
            start.has(encoded),
            start.ty(encoded).width == plan.encoded_type.width,
            stable(start, module@),
            1 <= class <= machine.representatives@.len(),
            module@.has(value),
            module@.ty(value) == machine.state_type,
            forall|env: Env| #[trigger]
                word_of(module@, env, value) == decoded(
                    plan,
                    word_of(start, env, encoded),
                    class as int,
                ),
        decreases machine.representatives.len() - class,
    {
        let ghost before = module@;
        let code = match module.emit_constant(
            plan.codes[class].duplicate(),
            plan.encoded_type,
            source,
        ) {
            Ok(code) => code,
            Err(error) => return Err(error),
        };
        let ghost coded = module@;
        assert(coded.ty(encoded) == start.ty(encoded));
        let selected = match module.emit_binary(BinaryOp::Eq, encoded, code, source) {
            Ok(selected) => selected,
            Err(error) => return Err(error),
        };
        let ghost chosen = module@;
        let place: usize = machine.representatives[class];
        assert(place < machine.states@.len());
        let state = match module.emit_constant(
            machine.states[place].duplicate(),
            machine.state_type,
            source,
        ) {
            Ok(state) => state,
            Err(error) => return Err(error),
        };
        let ghost stated = module@;
        proof {
            assert(stated.ty(value) == machine.state_type);
            assert(stated.ty(selected) == chosen.ty(selected));
        }
        let next = match module.emit_mux(selected, state, value, source) {
            Ok(next) => next,
            Err(error) => return Err(error),
        };
        proof {
            assert forall|env: Env| #[trigger] word_of(module@, env, next) == decoded(
                plan,
                word_of(start, env, encoded),
                class + 1,
            ) by {
                let word = word_of(start, env, encoded);
                assert(word_of(coded, env, encoded) == word);
                assert(word_of(coded, env, code) == known_word(plan.codes@[class as int]@));
                lemma_eval_width(start, env, encoded.raw as int);
                lemma_equal_words(
                    word,
                    coded.ty(encoded),
                    known_word(plan.codes@[class as int]@),
                    coded.ty(code),
                    chosen.ty(selected),
                );
                assert(word_of(stated, env, selected) == word_of(chosen, env, selected));
                assert(word_of(stated, env, value) == word_of(before, env, value));
                assert(word_of(stated, env, selected)[0] == (word == known_word(
                    plan.codes@[class as int]@,
                )));
            }
            assert(joined_type(machine.state_type, machine.state_type) == machine.state_type);
        }
        value = next;
        class += 1;
    }
    Ok(value)
}

/// With different codes, the code of a class decodes to its first state.
pub proof fn decoding_undoes_encoding(plan: &FsmPlan, class: int, count: int)
    requires
        plan.wf(),
        0 <= class < count <= plan.codes@.len(),
    ensures
        decoded(plan, known_word(plan.codes@[class]@), count) == known_word(
            plan.machine.states@[plan.machine.representatives@[class] as int]@,
        ),
    decreases count,
{
    if count > 1 && class < count - 1 {
        assert(known_word(plan.codes@[class]@) != known_word(plan.codes@[count - 1]@));
        decoding_undoes_encoding(plan, class, count - 1);
    }
}


/// The code of the state that a word is.
pub open spec fn code_word(plan: &FsmPlan, word: Seq<bool>) -> Seq<bool> {
    known_word(
        plan.codes@[class_of(
            states_view(plan.machine.states@),
            plan.machine.state_classes@,
            word,
            plan.machine.states@.len() as int,
        ) as int]@,
    )
}

/// A value of a transition function: a constant with its state, a read of the
/// state, a selection, or a cast that keeps the width.
pub open spec fn transition_value(module: ModuleView, machine: &DerivedFsm, v: int) -> bool {
    ||| lists(machine.constant_values@, v)
    ||| is_state_read(module, machine.state_signal, v)
    ||| match module.op_of(ValueId { raw: v as u32 }) {
        Some(OpView::Mux { cond, then_value, else_value }) => true,
        Some(OpView::Cast { kind, value, target }) => target.width == module.ty(value).width,
        _ => false,
    }
}

/// A machine whose parts are what the module says they are.
pub open spec fn sound_machine(module: ModuleView, machine: &DerivedFsm) -> bool {
    let root = machine.register.d.raw as int;
    &&& machine.state_signal.raw < module.signals.len()
    &&& module.signals[machine.state_signal.raw as int].ty.width == machine.state_type.width
    &&& module.inputs_below(OpView::Register(machine.register@), module.values.len() as int)
    &&& module.op_typed(OpView::Register(machine.register@), module.ty(machine.register.d))
    &&& module.ty(machine.register.d).width == machine.state_type.width
    &&& order_ok(module, machine.transition_order@, transition_cone(module, root))
    &&& machine.transition_order@.len() > 0
    &&& machine.transition_order@.last() == machine.register.d
    &&& forall|v: int| #[trigger]
        transition_cone(module, root).contains(v) ==> transition_value(module, machine, v)
            && module.values[v].ty.width == machine.state_type.width
    &&& forall|k: int|
        0 <= k < machine.constant_values@.len() ==> constant_sound(
            module,
            machine,
            #[trigger] machine.constant_values@[k],
        )
    &&& machine.reset_values@.len() == machine.register.resets@.len()
    &&& forall|i: int, env: Env|
        0 <= i < machine.register.resets@.len() ==> #[trigger] word_of(
            module,
            env,
            machine.register.resets@[i].reset_value,
        ) == known_word(machine.reset_values@[i]@)
}

pub open spec fn constant_sound(module: ModuleView, machine: &DerivedFsm, constant: FixedValue) -> bool {
    &&& all_known(constant.bits@)
    &&& constant.bits@.len() == machine.state_type.width
    &&& forall|env: Env| #[trigger]
        word_of(module, env, constant.value) == known_word(constant.bits@)
}

/// Known constants of one width with the same word are the same.
pub proof fn lemma_known_word_injective(left: Seq<BitVal>, right: Seq<BitVal>)
    requires
        all_known(left),
        all_known(right),
        known_word(left) == known_word(right),
    ensures
        left == right,
{
    assert(left.len() == known_word(left).len());
    assert(right.len() == known_word(right).len());
    assert forall|i: int| 0 <= i < left.len() implies left[i] == right[i] by {
        let j = left.len() - 1 - i;
        assert(left.len() == right.len());
        assert(known_word(left)[j] == (crate::word::types::bit_lsb(left, j) is One));
        assert(known_word(right)[j] == (crate::word::types::bit_lsb(right, j) is One));
        assert(left[i].known() && right[i].known());
    }
    assert(left =~= right);
}

/// The class of a state in a list, and the first class for any other.
pub proof fn lemma_class_of_state(
    states: Seq<Seq<BitVal>>,
    classes: Seq<usize>,
    bits: Seq<BitVal>,
    place: Option<int>,
    count: int,
)
    requires
        states.no_duplicates(),
        forall|s: int| 0 <= s < states.len() ==> all_known(#[trigger] states[s]),
        all_known(bits),
        0 <= count <= states.len(),
        match place {
            Some(index) => 0 <= index < states.len() && states[index] == bits,
            None => forall|s: int| 0 <= s < states.len() ==> #[trigger] states[s] != bits,
        },
    ensures
        class_of(states, classes, known_word(bits), count) == (match place {
            Some(index) => if index < count {
                classes[index]
            } else {
                classes[0]
            },
            None => classes[0],
        }),
    decreases count,
{
    if count > 0 {
        lemma_class_of_state(states, classes, bits, place, count - 1);
        assert(all_known(states[count - 1]));
        if known_word(states[count - 1]) == known_word(bits) {
            lemma_known_word_injective(states[count - 1], bits);
        }
        if let Some(index) = place {
            if index == count - 1 {
                assert(known_word(states[count - 1]) == known_word(bits));
            }
        }
    }
}

/// What an encoded transition says about a value: where it is active, its data
/// is the code of the value; elsewhere the value is the present state.
pub open spec fn transition_means(
    module: ModuleView,
    plan: &FsmPlan,
    value: ValueId,
    transition: EncodedTransition,
) -> bool {
    forall|env: Env| #[trigger] follows_value(module, plan, env, value, transition)
}

pub open spec fn follows_value(
    module: ModuleView,
    plan: &FsmPlan,
    env: Env,
    value: ValueId,
    transition: EncodedTransition,
) -> bool {
    if active(module, env, transition.activity) {
        word_of(module, env, transition.data) == code_word(plan, word_of(module, env, value))
    } else {
        word_of(module, env, value) == signal_word(module, env, plan.machine.state_signal)
    }
}

pub proof fn lemma_means_later(
    before: ModuleView,
    after: ModuleView,
    plan: &FsmPlan,
    value: ValueId,
    transition: EncodedTransition,
    width: u32,
)
    requires
        stable(before, after),
        before.has(value),
        transition_ok(before, transition, width),
        transition_means(before, plan, value, transition),
    ensures
        transition_ok(after, transition, width),
        transition_means(after, plan, value, transition),
{
    assert(after.ty(transition.data) == before.ty(transition.data));
    if let TransitionActivity::Value(active) = transition.activity {
        assert(after.ty(active) == before.ty(active));
    }
    assert forall|env: Env| #[trigger] follows_value(after, plan, env, value, transition) by {
        assert(follows_value(before, plan, env, value, transition));
        assert(word_of(after, env, value) == word_of(before, env, value));
        assert(word_of(after, env, transition.data) == word_of(before, env, transition.data));
        if let TransitionActivity::Value(active) = transition.activity {
            assert(word_of(after, env, active) == word_of(before, env, active));
        }
        assert(signal_word(after, env, plan.machine.state_signal) =~= signal_word(
            before,
            env,
            plan.machine.state_signal,
        ));
    }
}

/// The place of a value among the constants of a machine.
fn find_constant(constants: &Vec<FixedValue>, value: ValueId) -> (place: Option<usize>)
    ensures
        place matches Some(k) ==> k < constants@.len() && constants@[k as int].value == value,
        place is Some <==> lists(constants@, value.raw as int),
{
    let mut k: usize = 0;
    while k < constants.len()
        invariant
            k <= constants@.len(),
            forall|j: int| 0 <= j < k ==> (#[trigger] constants@[j]).value != value,
        decreases constants.len() - k,
    {
        if constants[k].value == value {
            assert(constants@[k as int].value.raw == value.raw);
            return Some(k);
        }
        k += 1;
    }
    proof {
        if lists(constants@, value.raw as int) {
            let j = choose|j: int|
                0 <= j < constants@.len() && (#[trigger] constants@[j]).value.raw == value.raw;
            assert(constants@[j].value == value);
        }
    }
    None
}

/// A table of encoded transitions.
spec fn encoded_table(
    module: ModuleView,
    plan: &FsmPlan,
    order: Seq<ValueId>,
    places: Map<u64, u64>,
    encoded: Seq<EncodedTransition>,
) -> bool {
    &&& forall|k: int|
        0 <= k < encoded.len() ==> places.contains_key((#[trigger] order[k]).raw as u64)
    &&& forall|x: u64| #[trigger]
        places.contains_key(x) ==> places[x] < encoded.len() && order[places[x] as int].raw == x
    &&& forall|k: int|
        0 <= k < encoded.len() ==> transition_ok(
            module,
            #[trigger] encoded[k],
            plan.encoded_type.width,
        ) && transition_means(module, plan, order[k], encoded[k])
}

/// Looks an encoded transition up.
fn find_encoded(
    places: &IdMap,
    encoded: &Vec<EncodedTransition>,
    value: ValueId,
    Ghost(module): Ghost<ModuleView>,
    Ghost(plan): Ghost<&FsmPlan>,
    Ghost(order): Ghost<Seq<ValueId>>,
) -> (result: Result<EncodedTransition, SynthError>)
    requires
        encoded_table(module, plan, order, places@, encoded@),
        precedes(order, value, encoded@.len() as int),
        encoded@.len() <= order.len(),
        order.no_duplicates(),
    ensures
        result matches Ok(transition) && transition_ok(
            module,
            transition,
            plan.encoded_type.width,
        ) && transition_means(module, plan, value, transition),
{
    let total: usize = encoded.len();
    proof {
        let k = choose|k: int| 0 <= k < encoded@.len() && #[trigger] order[k] == value;
        assert(places@.contains_key(order[k].raw as u64));
    }
    match places.get(value.raw as u64) {
        Some(place) => {
            assert(places@.contains_key(value.raw as u64));
            assert(place < total);
            let index: usize = place as usize;
            assert(order[index as int] == value);
            Ok(encoded[index])
        },
        None => Err(SynthError::Invariant(Invariant::NotEncoded)),
    }
}


/// A cast that keeps the width keeps the word.
proof fn lemma_cast_same(module: ModuleView, env: Env, value: ValueId, kind: CastKind, operand: ValueId, target: WordType)
    requires
        module.wf(),
        module.has(value),
        module.op_of(value) == Some(OpView::Cast { kind, value: operand, target }),
        target.width == module.ty(operand).width,
    ensures
        module.has(operand),
        word_of(module, env, value) == word_of(module, env, operand),
{
    assert(module.value_ok(value.raw as int));
    let operation = module.kind(value)->Operation_0;
    assert(module.operation_ok(operation.raw as int));
    let view = module.operations[operation.raw as int].kind;
    assert(op_inputs(view)[0] == operand);
    lemma_eval_operation(module, env, value.raw as int);
    lemma_eval_width(module, env, operand.raw as int);
    assert(cast_bits(kind, word_of(module, env, operand), target) =~= word_of(
        module,
        env,
        operand,
    ));
}

/// A selection takes the word of the branch that its condition names.
proof fn lemma_mux_word(module: ModuleView, env: Env, value: ValueId, cond: ValueId, then_value: ValueId, else_value: ValueId)
    requires
        module.wf(),
        module.has(value),
        module.op_of(value) == Some(OpView::Mux { cond, then_value, else_value }),
    ensures
        module.has(cond),
        module.has(then_value),
        module.has(else_value),
        module.ty(cond).width == 1,
        word_of(module, env, value) == (if word_of(module, env, cond)[0] {
            word_of(module, env, then_value)
        } else {
            word_of(module, env, else_value)
        }),
{
    assert(module.value_ok(value.raw as int));
    let operation = module.kind(value)->Operation_0;
    assert(module.operation_ok(operation.raw as int));
    let view = module.operations[operation.raw as int].kind;
    assert(op_inputs(view)[0] == cond);
    assert(op_inputs(view)[1] == then_value);
    assert(op_inputs(view)[2] == else_value);
    lemma_eval_operation(module, env, value.raw as int);
}

/// One value of a transition function, in codes.
#[verifier::rlimit(60)]
fn encode_value(
    module: &mut WordModule,
    encoded_state: ValueId,
    plan: &FsmPlan,
    places: &IdMap,
    encoded: &Vec<EncodedTransition>,
    value_id: ValueId,
    Ghost(start): Ghost<ModuleView>,
) -> (result: Result<EncodedTransition, SynthError>)
    requires
        plan.wf(),
        sound_machine(start, &plan.machine),
        stable(start, old(module)@),
        start.has(encoded_state),
        start.ty(encoded_state).width == plan.encoded_type.width,
        encoded@.len() < plan.machine.transition_order@.len(),
        plan.machine.transition_order@[encoded@.len() as int] == value_id,
        encoded_table(
            old(module)@,
            plan,
            plan.machine.transition_order@,
            places@,
            encoded@,
        ),
    ensures
        stable(old(module)@, final(module)@),
        stable(start, final(module)@),
        result matches Ok(transition) ==> transition_ok(
            final(module)@,
            transition,
            plan.encoded_type.width,
        ) && transition_means(final(module)@, plan, value_id, transition),
        result matches Err(error) ==> ran_out(final(module)@, error),
{
    let machine = &plan.machine;
    let source = machine.source;
    let ghost before = module@;
    let ghost root = machine.register.d.raw as int;
    let ghost order = machine.transition_order@;
    let ghost width = plan.encoded_type.width;
    proof {
        lemma_stable(before, before);
        assert(transition_cone(start, root).contains(
            order[encoded@.len() as int].raw as int,
        ));
        assert(transition_value(start, machine, value_id.raw as int));
        assert(ValueId { raw: value_id.raw as int as u32 } == value_id);
        assert(before.values[value_id.raw as int] == start.values[value_id.raw as int]);
        assert(start.value_ok(value_id.raw as int));
    }
    match find_constant(&machine.constant_values, value_id) {
        Some(place) => {
            let bits = &machine.constant_values[place].bits;
            assert(constant_sound(start, machine, machine.constant_values@[place as int]));
            let found = find_state(&machine.states, bits);
            let state: usize = match found {
                Some(state) => state,
                None => 0,
            };
            assert(state < machine.states@.len());
            let class: usize = machine.state_classes[state];
            assert(class < machine.representatives@.len());
            let data = match module.emit_constant(
                plan.codes[class].duplicate(),
                plan.encoded_type,
                source,
            ) {
                Ok(data) => data,
                Err(error) => {
                    proof {
                        lemma_stable(start, module@);
                    }
                    return Err(error);
                },
            };
            let transition = EncodedTransition { data, activity: TransitionActivity::Always };
            proof {
                lemma_stable(start, module@);
                let states = states_view(machine.states@);
                let place = match found {
                    Some(index) => Some(index as int),
                    None => None,
                };
                assert forall|s: int| 0 <= s < states.len() implies all_known(
                    #[trigger] states[s],
                ) by {
                    assert(states[s] == machine.states@[s]@);
                }
                if found is None {
                    assert forall|s: int| 0 <= s < states.len() implies #[trigger] states[s]
                        != bits@ by {
                        assert(states[s] == machine.states@[s]@);
                    }
                }
                lemma_class_of_state(
                    states,
                    machine.state_classes@,
                    bits@,
                    place,
                    states.len() as int,
                );
                assert forall|env: Env| #[trigger]
                    follows_value(module@, plan, env, value_id, transition) by {
                    assert(word_of(module@, env, value_id) == word_of(start, env, value_id));
                    assert(word_of(start, env, value_id) == known_word(bits@));
                }
            }
            return Ok(transition);
        },
        None => {},
    }
    let value = &module.values[value_id.raw as usize];
    assert(value@ == before.values[value_id.raw as int]);
    match &value.kind {
        ValueKind::Signal(reference) => {
            let transition = EncodedTransition {
                data: encoded_state,
                activity: TransitionActivity::Never,
            };
            proof {
                assert(is_state_read(start, machine.state_signal, value_id.raw as int));
                assert(before.ty(encoded_state) == start.ty(encoded_state));
                assert forall|env: Env| #[trigger]
                    follows_value(module@, plan, env, value_id, transition) by {
                    assert(word_of(before, env, value_id) =~= signal_word(
                        before,
                        env,
                        machine.state_signal,
                    ));
                }
            }
            Ok(transition)
        },
        ValueKind::Constant(_) => {
            assert(false);
            Err(SynthError::Invariant(Invariant::NotEncoded))
        },
        ValueKind::Operation(operation) => {
            let kind = &module.operations[operation.raw as usize].kind;
            assert(kind@ == before.operations[operation.raw as int].kind);
            assert(before.operations[operation.raw as int] == start.operations[operation.raw as int]);
            match kind {
                OpKind::Mux { cond, then_value, else_value } => {
                    let condition = *cond;
                    let then_id = *then_value;
                    let else_id = *else_value;
                    proof {
                        assert(choices(start, value_id.raw as int)[0] == then_id);
                        assert(choices(start, value_id.raw as int)[1] == else_id);
                        assert(precedes(
                            order,
                            choices(start, order[encoded@.len() as int].raw as int)[0],
                            encoded@.len() as int,
                        ));
                        assert(precedes(
                            order,
                            choices(start, order[encoded@.len() as int].raw as int)[1],
                            encoded@.len() as int,
                        ));
                        lemma_mux_word(
                            before,
                            arbitrary(),
                            value_id,
                            condition,
                            then_id,
                            else_id,
                        );
                    }
                    let then_code = match find_encoded(
                        places,
                        encoded,
                        then_id,
                        Ghost(before),
                        Ghost(plan),
                        Ghost(order),
                    ) {
                        Ok(found) => found,
                        Err(error) => return Err(error),
                    };
                    let else_code = match find_encoded(
                        places,
                        encoded,
                        else_id,
                        Ghost(before),
                        Ghost(plan),
                        Ghost(order),
                    ) {
                        Ok(found) => found,
                        Err(error) => return Err(error),
                    };
                    let result = select_transition(
                        module,
                        condition,
                        then_code,
                        else_code,
                        source,
                        plan.encoded_type.width,
                    );
                    proof {
                        lemma_stable(start, module@);
                        if result is Ok {
                            let selected = result->Ok_0;
                            assert forall|env: Env| #[trigger]
                                follows_value(module@, plan, env, value_id, selected) by {
                                lemma_mux_word(
                                    before,
                                    env,
                                    value_id,
                                    condition,
                                    then_id,
                                    else_id,
                                );
                                assert(word_of(module@, env, value_id) == word_of(
                                    before,
                                    env,
                                    value_id,
                                ));
                                assert(follows_value(before, plan, env, then_id, then_code));
                                assert(follows_value(before, plan, env, else_id, else_code));
                                assert(active(module@, env, selected.activity) == (if word_of(
                                    before,
                                    env,
                                    condition,
                                )[0] {
                                    active(before, env, then_code.activity)
                                } else {
                                    active(before, env, else_code.activity)
                                }));
                                if active(module@, env, selected.activity) {
                                    assert(word_of(module@, env, selected.data) == (if word_of(
                                        before,
                                        env,
                                        condition,
                                    )[0] {
                                        word_of(before, env, then_code.data)
                                    } else {
                                        word_of(before, env, else_code.data)
                                    }));
                                }
                                assert(signal_word(module@, env, machine.state_signal)
                                    =~= signal_word(before, env, machine.state_signal));
                            }
                        }
                    }
                    result
                },
                OpKind::Cast { kind: cast, value: operand, target } => {
                    let operand_id = *operand;
                    proof {
                        assert(start.op_of(value_id) == Some(
                            OpView::Cast { kind: *cast, value: operand_id, target: *target },
                        ));
                        assert(choices(start, value_id.raw as int)[0] == operand_id);
                        assert(precedes(
                            order,
                            choices(start, order[encoded@.len() as int].raw as int)[0],
                            encoded@.len() as int,
                        ));
                    }
                    let result = find_encoded(
                        places,
                        encoded,
                        operand_id,
                        Ghost(before),
                        Ghost(plan),
                        Ghost(order),
                    );
                    proof {
                        let found = result->Ok_0;
                        assert(start.has(operand_id)) by {
                            lemma_cast_same(
                                start,
                                arbitrary(),
                                value_id,
                                *cast,
                                operand_id,
                                *target,
                            );
                        }
                        assert(before.ty(operand_id) == start.ty(operand_id));
                        assert forall|env: Env| #[trigger]
                            follows_value(module@, plan, env, value_id, found) by {
                            lemma_cast_same(before, env, value_id, *cast, operand_id, *target);
                            assert(follows_value(before, plan, env, operand_id, found));
                        }
                    }
                    result
                },
                _ => {
                    assert(false);
                    Err(SynthError::Invariant(Invariant::NotEncoded))
                },
            }
        },
    }
}

/// The transition function of a machine, in codes.
#[verifier::rlimit(40)]
pub fn encode_transition(module: &mut WordModule, encoded_state: ValueId, plan: &FsmPlan)
    -> (result: Result<EncodedTransition, SynthError>)
    requires
        old(module)@.wf(),
        plan.wf(),
        sound_machine(old(module)@, &plan.machine),
        old(module)@.has(encoded_state),
        old(module)@.ty(encoded_state).width == plan.encoded_type.width,
    ensures
        stable(old(module)@, final(module)@),
        result matches Ok(transition) ==> transition_ok(
            final(module)@,
            transition,
            plan.encoded_type.width,
        ) && transition_means(final(module)@, plan, plan.machine.register.d, transition),
        result matches Err(error) ==> ran_out(final(module)@, error),
{
    let ghost start = module@;
    let ghost order = plan.machine.transition_order@;
    let mut encoded: Vec<EncodedTransition> = Vec::new();
    let mut places = IdMap::new();
    let mut k: usize = 0;
    proof {
        lemma_stable(start, start);
    }
    while k < plan.machine.transition_order.len()
        invariant
            start == old(module)@,
            plan.wf(),
            sound_machine(start, &plan.machine),
            stable(start, module@),
            start.has(encoded_state),
            start.ty(encoded_state).width == plan.encoded_type.width,
            order == plan.machine.transition_order@,
            k <= order.len(),
            encoded@.len() == k,
            encoded_table(module@, plan, order, places@, encoded@),
        decreases plan.machine.transition_order.len() - k,
    {
        let value_id = plan.machine.transition_order[k];
        let ghost before = module@;
        let ghost was = encoded@;
        let transition = match encode_value(
            module,
            encoded_state,
            plan,
            &places,
            &encoded,
            value_id,
            Ghost(start),
        ) {
            Ok(transition) => transition,
            Err(error) => return Err(error),
        };
        places.insert(value_id.raw as u64, k as u64);
        encoded.push(transition);
        proof {
            assert forall|j: int| 0 <= j < encoded@.len() implies transition_ok(
                module@,
                #[trigger] encoded@[j],
                plan.encoded_type.width,
            ) && transition_means(module@, plan, order[j], encoded@[j]) by {
                if j < k {
                    assert(encoded@[j] == was[j]);
                    assert(transition_cone(start, plan.machine.register.d.raw as int).contains(
                        order[j].raw as int,
                    ));
                    lemma_means_later(
                        before,
                        module@,
                        plan,
                        order[j],
                        was[j],
                        plan.encoded_type.width,
                    );
                }
            }
            assert forall|x: u64| #[trigger] places@.contains_key(x) implies places@[x]
                < encoded@.len() && order[places@[x] as int].raw == x by {}
        }
        k += 1;
    }
    let last: usize = encoded.len() - 1;
    Ok(encoded[last])
}


pub open spec fn enable_ok(module: ModuleView, enable: Option<Enable>) -> bool {
    enable matches Some(enable) ==> module.has(enable.value) && module.ty(enable.value).width == 1
}

/// Whether an optional enable lets data pass.
pub open spec fn enabled(module: ModuleView, env: Env, enable: Option<Enable>) -> bool {
    enable matches Some(enable) ==> active_control(
        module,
        env,
        enable.value,
        enable.active_high,
    )
}

/// Two one-bit words, bit by bit.
proof fn lemma_and_words(left: Seq<bool>, left_ty: WordType, right: Seq<bool>, right_ty: WordType)
    requires
        left.len() == 1,
        right.len() == 1,
        left_ty.width == 1,
        right_ty.width == 1,
    ensures
        binary_bits(
            BinaryOp::BitAnd,
            left,
            left_ty,
            right,
            right_ty,
            crate::word::module::binary_type(BinaryOp::BitAnd, left_ty, right_ty),
        )[0] == (left[0] && right[0]),
{
    let ty = joined_type(left_ty, right_ty);
    lemma_resize_same(left, left_ty, ty);
    lemma_resize_same(right, right_ty, ty);
}

/// Data and enable of the register that holds a code.
#[verifier::rlimit(40)]
pub fn transition_register_inputs(
    module: &mut WordModule,
    encoded_state: ValueId,
    transition: EncodedTransition,
    existing_enable: Option<Enable>,
    source: SourceSpan,
    width: u32,
) -> (result: Result<(ValueId, Option<Enable>), SynthError>)
    requires
        old(module)@.wf(),
        old(module)@.has(encoded_state),
        old(module)@.ty(encoded_state).width == width,
        transition_ok(old(module)@, transition, width),
        enable_ok(old(module)@, existing_enable),
    ensures
        stable(old(module)@, final(module)@),
        result matches Ok((data, enable)) ==> {
            &&& final(module)@.has(data)
            &&& final(module)@.ty(data).width == width
            &&& enable_ok(final(module)@, enable)
            &&& forall|env: Env| #[trigger]
                enabled(final(module)@, env, enable) && word_of(final(module)@, env, data)
                    != word_of(old(module)@, env, encoded_state) ==> enabled(
                    old(module)@,
                    env,
                    existing_enable,
                ) && active(old(module)@, env, transition.activity) && word_of(
                    final(module)@,
                    env,
                    data,
                ) == word_of(old(module)@, env, transition.data)
            &&& forall|env: Env|
                enabled(old(module)@, env, existing_enable) && #[trigger] active(
                    old(module)@,
                    env,
                    transition.activity,
                ) ==> enabled(final(module)@, env, enable) && word_of(final(module)@, env, data)
                    == word_of(old(module)@, env, transition.data)
        },
        result matches Err(error) ==> ran_out(final(module)@, error),
{
    let ghost before = module@;
    proof {
        lemma_stable(before, before);
    }
    let derived = match transition.activity {
        TransitionActivity::Never => return Ok((encoded_state, existing_enable)),
        TransitionActivity::Always => return Ok((transition.data, existing_enable)),
        TransitionActivity::Value(value) => value,
    };
    let enable = match existing_enable {
        Some(existing) => {
            let passing = if existing.active_high {
                existing.value
            } else {
                match module.emit_unary(UnaryOp::BitNot, existing.value, source) {
                    Ok(value) => value,
                    Err(error) => return Err(error),
                }
            };
            let ghost middle = module@;
            proof {
                assert(middle.ty(existing.value) == before.ty(existing.value));
                assert(middle.ty(derived) == before.ty(derived));
                assert forall|env: Env|
                    (#[trigger] word_of(middle, env, passing)).len() == 1 && word_of(
                        middle,
                        env,
                        passing,
                    )[0] == enabled(before, env, existing_enable) by {
                    lemma_eval_width(middle, env, passing.raw as int);
                    lemma_eval_width(before, env, existing.value.raw as int);
                }
            }
            let both = match module.emit_binary(BinaryOp::BitAnd, passing, derived, source) {
                Ok(both) => both,
                Err(error) => return Err(error),
            };
            proof {
                assert forall|env: Env|
                    (#[trigger] word_of(module@, env, both))[0] == (enabled(
                        before,
                        env,
                        existing_enable,
                    ) && active(before, env, transition.activity)) by {
                    assert(word_of(middle, env, passing).len() == 1);
                    assert(word_of(middle, env, derived) == word_of(before, env, derived));
                    lemma_eval_width(before, env, derived.raw as int);
                    lemma_and_words(
                        word_of(middle, env, passing),
                        middle.ty(passing),
                        word_of(middle, env, derived),
                        middle.ty(derived),
                    );
                }
            }
            both
        },
        None => derived,
    };
    proof {
        assert(module@.ty(transition.data) == before.ty(transition.data));
        let result = Some(Enable { value: enable, active_high: true });
        assert forall|env: Env| #[trigger] enabled(module@, env, result) == (enabled(
            before,
            env,
            existing_enable,
        ) && active(before, env, transition.activity)) by {
            assert(word_of(module@, env, enable) == word_of(module@, env, enable));
        }
        assert forall|env: Env| #[trigger] word_of(module@, env, transition.data) == word_of(
            before,
            env,
            transition.data,
        ) by {}
    }
    Ok((transition.data, Some(Enable { value: enable, active_high: true })))
}

/// The re-encoded register follows the original one: whenever the code of the
/// present state is held, the next code is the code of the next state.
pub open spec fn simulates(
    module: ModuleView,
    plan: &FsmPlan,
    encoded_signal: SignalId,
    encoded_register: RegisterView,
) -> bool {
    forall|env: Env|
        signal_word(module, env, encoded_signal) == code_word(
            plan,
            signal_word(module, env, plan.machine.state_signal),
        ) ==> #[trigger] register_next_word(module, env, encoded_register, encoded_signal)
            == code_word(
            plan,
            register_next_word(module, env, plan.machine.register@, plan.machine.state_signal),
        )
}


/// Values and operations are kept, whatever else changes.
pub open spec fn keeps_words(before: ModuleView, after: ModuleView) -> bool {
    &&& before.widens_to(after)
    &&& forall|env: Env, v: ValueId|
        before.has(v) ==> #[trigger] word_of(after, env, v) == word_of(before, env, v)
}

pub proof fn lemma_keeps_words(before: ModuleView, after: ModuleView)
    requires
        before.wf(),
        before.widens_to(after),
    ensures
        keeps_words(before, after),
{
    assert forall|env: Env, v: ValueId| before.has(v) implies #[trigger] word_of(after, env, v)
        == word_of(before, env, v) by {
        crate::word::semantics::lemma_eval_grows(before, after, env, v.raw as int);
    }
}

proof fn lemma_choices_widen(before: ModuleView, after: ModuleView, v: int)
    requires
        before.wf(),
        before.widens_to(after),
        0 <= v < before.values.len(),
    ensures
        choices(after, v) == choices(before, v),
        forall|i: int|
            0 <= i < choices(before, v).len() ==> (#[trigger] choices(before, v)[i]).raw < v,
{
    assert(before.value_ok(v));
    assert(after.values[v] == before.values[v]);
    if let KindView::Operation(operation) = before.values[v].kind {
        assert(before.operation_ok(operation.raw as int));
        assert(after.operations[operation.raw as int] == before.operations[operation.raw as int]);
        let kind = before.operations[operation.raw as int].kind;
        let inputs = op_inputs(kind);
        if kind is Cast {
            assert(inputs[0].raw < v);
            let operand = kind->Cast_value;
            assert(after.values[operand.raw as int] == before.values[operand.raw as int]);
        } else if kind is Mux {
            assert(inputs[1].raw < v && inputs[2].raw < v);
        }
    }
}

proof fn lemma_cone_widens(before: ModuleView, after: ModuleView, root: int)
    requires
        before.wf(),
        before.widens_to(after),
        0 <= root < before.values.len(),
    ensures
        transition_cone(after, root) == transition_cone(before, root),
    decreases root,
{
    let f = choices_of(before);
    let g = choices_of(after);
    lemma_choices_widen(before, after, root);
    assert(f(root) == g(root));
    assert forall|x: int| #[trigger]
        transition_cone(after, root).contains(x) == transition_cone(before, root).contains(x) by {
        if transition_cone(after, root).contains(x) && x != root {
            let i = choose|i: int|
                0 <= i < g(root).len() && (#[trigger] g(root)[i]).raw < root
                    && super::reachability::descend(g, g(root)[i].raw as int).contains(x);
            lemma_cone_widens(before, after, g(root)[i].raw as int);
            assert(f(root)[i].raw < root);
        }
        if transition_cone(before, root).contains(x) && x != root {
            let i = choose|i: int|
                0 <= i < f(root).len() && (#[trigger] f(root)[i]).raw < root
                    && super::reachability::descend(f, f(root)[i].raw as int).contains(x);
            lemma_cone_widens(before, after, f(root)[i].raw as int);
            assert(g(root)[i].raw < root);
        }
    }
    assert(transition_cone(after, root) =~= transition_cone(before, root));
}

/// A machine stays what it is when a module grows.
pub proof fn lemma_sound_machine_widens(
    before: ModuleView,
    after: ModuleView,
    machine: &DerivedFsm,
)
    requires
        before.wf(),
        before.widens_to(after),
        sound_machine(before, machine),
    ensures
        sound_machine(after, machine),
{
    let root = machine.register.d.raw as int;
    let kind = OpView::Register(machine.register@);
    lemma_keeps_words(before, after);
    assert(op_inputs(kind)[0] == machine.register.d);
    assert(before.has(machine.register.d));
    lemma_cone_widens(before, after, root);
    let all = transition_cone(before, root);
    crate::word::module::lemma_op_typed_stable(
        before,
        after,
        kind,
        before.ty(machine.register.d),
    );
    assert(after.inputs_below(kind, after.values.len() as int)) by {
        assert forall|i: int| 0 <= i < op_inputs(kind).len() implies (
        #[trigger] op_inputs(kind)[i]).raw < after.values.len() by {
            assert(op_inputs(kind)[i].raw < before.values.len());
        }
    }
    let order = machine.transition_order@;
    assert forall|v: int| #[trigger] all.contains(v) implies 0 <= v < before.values.len() by {
        super::reachability::lemma_descend_bound(choices_of(before), root, v);
    }
    assert forall|k: int, i: int|
        0 <= k < order.len() && 0 <= i < choices(after, order[k].raw as int).len() implies precedes(
        order,
        #[trigger] choices(after, order[k].raw as int)[i],
        k,
    ) by {
        assert(all.contains(order[k].raw as int));
        lemma_choices_widen(before, after, order[k].raw as int);
        assert(precedes(order, choices(before, order[k].raw as int)[i], k));
    }
    assert forall|v: int| #[trigger] all.contains(v) implies transition_value(after, machine, v)
        && after.values[v].ty.width == machine.state_type.width by {
        assert(transition_value(before, machine, v));
        assert(after.values[v] == before.values[v]);
        assert(before.value_ok(v));
        if let KindView::Operation(operation) = before.values[v].kind {
            assert(before.operation_ok(operation.raw as int));
            assert(after.operations[operation.raw as int]
                == before.operations[operation.raw as int]);
            let kind = before.operations[operation.raw as int].kind;
            if kind is Cast {
                assert(op_inputs(kind)[0].raw < v);
                let operand = kind->Cast_value;
                assert(after.values[operand.raw as int] == before.values[operand.raw as int]);
            }
        }
    }
    assert forall|k: int| 0 <= k < machine.constant_values@.len() implies constant_sound(
        after,
        machine,
        #[trigger] machine.constant_values@[k],
    ) by {
        let constant = machine.constant_values@[k];
        assert(constant_sound(before, machine, constant));
        assert forall|env: Env| #[trigger] word_of(after, env, constant.value) == known_word(
            constant.bits@,
        ) by {
            assert(word_of(before, env, constant.value) == known_word(constant.bits@));
            if !before.has(constant.value) {
                assert(word_of(before, env, constant.value).len() == 0);
                assert(known_word(constant.bits@).len() == machine.state_type.width);
                assert(before.value_ok(root));
            }
        }
    }
    assert forall|i: int, env: Env|
        0 <= i < machine.register.resets@.len() implies #[trigger] word_of(
        after,
        env,
        machine.register.resets@[i].reset_value,
    ) == known_word(machine.reset_values@[i]@) by {
        lemma_reset_has(before, machine.register@, i);
        assert(word_of(before, env, machine.register.resets@[i].reset_value) == known_word(
            machine.reset_values@[i]@,
        ));
    }
}

pub proof fn lemma_reset_has(module: ModuleView, register: RegisterView, i: int)
    requires
        module.inputs_below(OpView::Register(register), module.values.len() as int),
        0 <= i < register.resets.len(),
    ensures
        module.has(register.resets[i].value),
        module.has(register.resets[i].reset_value),
{
    let kind = OpView::Register(register);
    crate::word::module::lemma_reset_inputs(register.resets);
    let inputs = op_inputs(kind);
    let tail = crate::word::types::reset_inputs(register.resets);
    let head = seq![register.d, register.clock] + crate::word::types::enable_inputs(
        register.enable,
    );
    assert(inputs =~= head + tail);
    assert(tail[2 * i] == register.resets[i].value);
    assert(tail[2 * i + 1] == register.resets[i].reset_value);
    assert(inputs[head.len() + 2 * i] == register.resets[i].value);
    assert(inputs[head.len() + 2 * i + 1] == register.resets[i].reset_value);
}

/// Resets to codes follow resets to states.
pub proof fn lemma_resets_follow(
    module: ModuleView,
    env: Env,
    plan: &FsmPlan,
    resets: Seq<Reset>,
    coded: Seq<Reset>,
    held: Seq<bool>,
    held_code: Seq<bool>,
)
    requires
        resets.len() == coded.len(),
        forall|i: int|
            0 <= i < resets.len() ==> (#[trigger] coded[i]).value == resets[i].value
                && coded[i].active_high == resets[i].active_high && word_of(
                module,
                env,
                coded[i].reset_value,
            ) == code_word(plan, word_of(module, env, resets[i].reset_value)),
        held_code == code_word(plan, held),
    ensures
        after_resets(module, env, coded, held_code) == code_word(
            plan,
            after_resets(module, env, resets, held),
        ),
    decreases resets.len(),
{
    if resets.len() > 0 {
        assert(coded[0].value == resets[0].value);
        assert forall|i: int| 0 <= i < resets.skip(1).len() implies (
        #[trigger] coded.skip(1)[i]).value == resets.skip(1)[i].value
            && coded.skip(1)[i].active_high == resets.skip(1)[i].active_high && word_of(
            module,
            env,
            coded.skip(1)[i].reset_value,
        ) == code_word(plan, word_of(module, env, resets.skip(1)[i].reset_value)) by {
            assert(coded.skip(1)[i] == coded[i + 1]);
        }
        lemma_resets_follow(
            module,
            env,
            plan,
            resets.skip(1),
            coded.skip(1),
            held,
            held_code,
        );
    }
}

/// What a register takes over depends on its operands' words alone.
proof fn lemma_after_resets_keep(
    before: ModuleView,
    after: ModuleView,
    env: Env,
    resets: Seq<Reset>,
    held: Seq<bool>,
)
    requires
        keeps_words(before, after),
        forall|i: int|
            0 <= i < resets.len() ==> before.has((#[trigger] resets[i]).value) && before.has(
                resets[i].reset_value,
            ),
    ensures
        after_resets(after, env, resets, held) == after_resets(before, env, resets, held),
    decreases resets.len(),
{
    if resets.len() > 0 {
        assert(before.has(resets[0].value));
        assert forall|i: int| 0 <= i < resets.skip(1).len() implies before.has(
            (#[trigger] resets.skip(1)[i]).value,
        ) && before.has(resets.skip(1)[i].reset_value) by {
            assert(resets.skip(1)[i] == resets[i + 1]);
        }
        lemma_after_resets_keep(before, after, env, resets.skip(1), held);
        assert(word_of(after, env, resets[0].value) == word_of(before, env, resets[0].value));
        assert(word_of(after, env, resets[0].reset_value) == word_of(
            before,
            env,
            resets[0].reset_value,
        ));
    }
}

pub proof fn lemma_next_word_keeps(
    before: ModuleView,
    after: ModuleView,
    env: Env,
    register: RegisterView,
    signal: SignalId,
)
    requires
        keeps_words(before, after),
        before.inputs_below(OpView::Register(register), before.values.len() as int),
        signal.raw < before.signals.len(),
    ensures
        register_next_word(after, env, register, signal) == register_next_word(
            before,
            env,
            register,
            signal,
        ),
{
    let inputs = op_inputs(OpView::Register(register));
    assert(inputs[0] == register.d);
    assert(before.has(register.d));
    if register.enable is Some {
        assert(inputs[2] == register.enable->0.value);
        assert(before.has(register.enable->0.value));
        assert(word_of(after, env, register.enable->0.value) == word_of(
            before,
            env,
            register.enable->0.value,
        ));
    }
    assert(signal_word(after, env, signal) =~= signal_word(before, env, signal));
    assert forall|i: int| 0 <= i < register.resets.len() implies before.has(
        (#[trigger] register.resets[i]).value,
    ) && before.has(register.resets[i].reset_value) by {
        lemma_reset_has(before, register, i);
    }
    assert(word_of(after, env, register.d) == word_of(before, env, register.d));
    let data = word_of(before, env, register.d);
    let loaded = match register.enable {
        Some(enable) => if active_control(before, env, enable.value, enable.active_high) {
            data
        } else {
            signal_word(before, env, signal)
        },
        None => data,
    };
    lemma_after_resets_keep(before, after, env, register.resets, loaded);
}

pub proof fn lemma_simulates_keeps(
    before: ModuleView,
    after: ModuleView,
    plan: &FsmPlan,
    encoded_signal: SignalId,
    encoded_register: RegisterView,
)
    requires
        keeps_words(before, after),
        simulates(before, plan, encoded_signal, encoded_register),
        before.inputs_below(OpView::Register(encoded_register), before.values.len() as int),
        before.inputs_below(
            OpView::Register(plan.machine.register@),
            before.values.len() as int,
        ),
        encoded_signal.raw < before.signals.len(),
        plan.machine.state_signal.raw < before.signals.len(),
    ensures
        simulates(after, plan, encoded_signal, encoded_register),
{
    assert forall|env: Env|
        signal_word(after, env, encoded_signal) == code_word(
            plan,
            signal_word(after, env, plan.machine.state_signal),
        ) implies #[trigger] register_next_word(after, env, encoded_register, encoded_signal)
        == code_word(
        plan,
        register_next_word(after, env, plan.machine.register@, plan.machine.state_signal),
    ) by {
        lemma_next_word_keeps(before, after, env, encoded_register, encoded_signal);
        lemma_next_word_keeps(
            before,
            after,
            env,
            plan.machine.register@,
            plan.machine.state_signal,
        );
        assert(signal_word(after, env, encoded_signal) =~= signal_word(
            before,
            env,
            encoded_signal,
        ));
        assert(signal_word(after, env, plan.machine.state_signal) =~= signal_word(
            before,
            env,
            plan.machine.state_signal,
        ));
        assert(register_next_word(before, env, encoded_register, encoded_signal) == code_word(
            plan,
            register_next_word(before, env, plan.machine.register@, plan.machine.state_signal),
        ));
    }
}

} // verus!
