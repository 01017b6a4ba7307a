//! The state machines of a module.

use super::encoding::{
    exchanged, find_state, in_order, is_boolean, order_states, push_unique, MAX_STATES,
    MAX_STATE_WIDTH, MAX_TRANSITION_VALUES,
};
use super::observation::{leaves, leaves_module};
use super::reachability::{
    cone, lemma_descend_bound, lemma_descend_least, transition_cone_within_budget,
};
use super::symbolic::selection::states_view;
use super::transition::{
    choices_of, collect_states, constants_ok, facts_sound, facts_view, finite_transition,
    fixed_state, names_state, order_ok, stated, transition_cone, FixedValue,
};
use crate::error::{Resource, SynthError};
use crate::word::drivers::connected_values;
use crate::word::module::{
    Connect, KindView, ModuleView, PortDirection, SignalKind, ValueKind, WordModule,
};
use crate::word::numbers::all_known;
use crate::word::types::{
    op_inputs, BitVal, ConstBits, OpId, OpKind, OpView, RegisterOp, RegisterView, Reset, SignalId,
    SourceSpan, ValueId, WordType,
};
use vstd::prelude::*;

verus! {

/// A register that holds one of finitely many states.
pub struct DerivedFsm {
    pub register_operation: OpId,
    pub register: RegisterOp,
    pub register_result: ValueId,
    pub state_signal: SignalId,
    pub state_type: WordType,
    pub source: SourceSpan,
    pub states: Vec<ConstBits>,
    pub state_classes: Vec<usize>,
    pub representatives: Vec<usize>,
    pub reset_values: Vec<ConstBits>,
    pub transition_order: Vec<ValueId>,
    pub constant_values: Vec<FixedValue>,
}

/// A machine whose states are not analysed yet.
pub struct FsmAnalysisCandidate {
    pub machine: DerivedFsm,
    pub reset_states: Vec<usize>,
    pub allow_state_merging: bool,
}

/// The number of connections to each signal.
pub fn driver_counts(module: &WordModule) -> (result: Result<Vec<u32>, SynthError>)
    requires
        module@.wf(),
    ensures
        result matches Ok(counts) ==> counts@.len() == module@.signals.len() && forall|s: int|
            0 <= s < counts@.len() ==> (#[trigger] counts@[s]) == connected_values(
                module@,
                SignalId { raw: s as u32 },
                module@.connects.len(),
            ).len(),
        result is Err <==> exists|signal: SignalId|
            signal.raw < module@.signals.len() && (#[trigger] connected_values(
                module@,
                signal,
                module@.connects.len(),
            )).len() > u32::MAX,
        result matches Err(error) ==> error == SynthError::Capacity(Resource::Connects),
{
    let ghost view = module@;
    let mut counts: Vec<u32> = Vec::new();
    counts.resize(module.signals.len(), 0);
    let mut i: usize = 0;
    while i < module.connects.len()
        invariant
            view == module@,
            view.wf(),
            i <= view.connects.len(),
            counts@.len() == view.signals.len(),
            forall|s: int|
                0 <= s < counts@.len() ==> (#[trigger] counts@[s]) == connected_values(
                    view,
                    SignalId { raw: s as u32 },
                    i as nat,
                ).len(),
        decreases module.connects.len() - i,
    {
        assert(view.connect_ok(view.connects[i as int]));
        let signal = module.connects[i].target.signal;
        let place: usize = signal.raw as usize;
        assert(SignalId { raw: place as int as u32 } == signal);
        let count: u32 = counts[place];
        if count == u32::MAX {
            proof {
                lemma_connected_grow(view, signal, (i + 1) as nat);
            }
            return Err(SynthError::Capacity(Resource::Connects));
        }
        counts.set(place, count + 1);
        i += 1;
    }
    proof {
        assert forall|signal: SignalId| signal.raw < view.signals.len() implies (
        #[trigger] connected_values(view, signal, view.connects.len())).len() <= u32::MAX by {
            assert(SignalId { raw: signal.raw as int as u32 } == signal);
            assert(counts@[signal.raw as int] == connected_values(
                view,
                signal,
                view.connects.len(),
            ).len());
        }
    }
    Ok(counts)
}

proof fn lemma_connected_grow(module: ModuleView, signal: SignalId, count: nat)
    requires
        count <= module.connects.len(),
    ensures
        connected_values(module, signal, count).len() <= connected_values(
            module,
            signal,
            module.connects.len(),
        ).len(),
    decreases module.connects.len() - count,
{
    if count < module.connects.len() {
        lemma_connected_grow(module, signal, count + 1);
    }
}

/// A signal that may hold the state of a machine: a named wire or register, or
/// an output port.
pub open spec fn holds_state(module: ModuleView, signal: SignalId) -> bool {
    match module.signals[signal.raw as int].kind {
        SignalKind::Wire | SignalKind::Register => module.signals[signal.raw as int].name is Some,
        SignalKind::Port(port) => port.raw < module.ports.len()
            && module.ports[port.raw as int].direction is Output,
        SignalKind::ProcessLocal => false,
    }
}

fn is_state_target(module: &WordModule, signal: SignalId) -> (target: bool)
    requires
        signal.raw < module@.signals.len(),
    ensures
        target == holds_state(module@, signal),
{
    match module.signals[signal.raw as usize].kind {
        SignalKind::Wire | SignalKind::Register => module.signals[signal.raw as usize].name.is_some(),
        SignalKind::Port(port) => {
            if (port.raw as usize) < module.ports.len() {
                match module.ports[port.raw as usize].direction {
                    PortDirection::Output => true,
                    _ => false,
                }
            } else {
                false
            }
        },
        SignalKind::ProcessLocal => false,
    }
}

/// The register behind a connection to a whole signal.
pub open spec fn connected_register(module: ModuleView, connect: Connect) -> Option<RegisterView> {
    if connect.target.range is Some || connect.target.dynamic is Some {
        None
    } else {
        match module.op_of(connect.value) {
            Some(OpView::Register(register)) => Some(register),
            _ => None,
        }
    }
}

pub open spec fn is_reset_state(
    facts: Seq<Option<Seq<BitVal>>>,
    resets: Seq<Reset>,
    state: Seq<BitVal>,
) -> bool {
    exists|i: int|
        0 <= i < resets.len() && facts[(#[trigger] resets[i]).reset_value.raw as int] == Some(state)
}

/// The states that a register may hold: those that its transition function
/// names and those that its resets set.
pub open spec fn register_states(
    module: ModuleView,
    facts: Seq<Option<Seq<BitVal>>>,
    register: RegisterView,
) -> Set<Seq<BitVal>> {
    Set::new(
        |state: Seq<BitVal>|
            names_state(module, facts, register.d.raw as int, state) || is_reset_state(
                facts,
                register.resets,
                state,
            ),
    )
}

/// Every reset sets a known state.
pub open spec fn resets_known(facts: Seq<Option<Seq<BitVal>>>, resets: Seq<Reset>) -> bool {
    forall|i: int|
        0 <= i < resets.len() ==> facts[(#[trigger] resets[i]).reset_value.raw as int] is Some
            && all_known(facts[resets[i].reset_value.raw as int]->0)
}

/// A connection hands the whole word of a signal to the outside as it is.
pub open spec fn hands_out(module: ModuleView, i: int, signal: SignalId) -> bool {
    &&& 0 <= i < module.connects.len()
    &&& leaves(module, module.connects[i].target.signal)
    &&& module.kind(module.connects[i].value) matches KindView::Signal(reference)
    &&& reference.signal == signal
    &&& reference.lsb == 0
    &&& reference.width == module.signals[signal.raw as int].ty.width
}

/// The codes of a state are seen outside, so that they have to stay.
pub open spec fn puts_codes_out(module: ModuleView, signal: SignalId) -> bool {
    exists|i: int| #[trigger] hands_out(module, i, signal)
}

fn codes_are_put_out(module: &WordModule, signal: SignalId) -> (seen: bool)
    requires
        module@.wf(),
        signal.raw < module@.signals.len(),
    ensures
        seen == puts_codes_out(module@, signal),
{
    let mut i: usize = 0;
    while i < module.connects.len()
        invariant
            module@.wf(),
            signal.raw < module@.signals.len(),
            i <= module@.connects.len(),
            forall|j: int| 0 <= j < i ==> !(#[trigger] hands_out(module@, j, signal)),
        decreases module.connects.len() - i,
    {
        let connect = module.connects[i];
        assert(module@.connect_ok(module@.connects[i as int]));
        let value = &module.values[connect.value.raw as usize];
        assert(value@ == module@.values[connect.value.raw as int]);
        let reads = match &value.kind {
            ValueKind::Signal(reference) => reference.signal == signal && reference.lsb == 0
                && reference.width == module.signals[signal.raw as usize].ty.width,
            _ => false,
        };
        if reads && leaves_module(module, connect.target.signal) {
            assert(hands_out(module@, i as int, signal));
            return true;
        }
        i += 1;
    }
    false
}

/// A connection behind which a state machine stands.
pub open spec fn is_machine(
    module: ModuleView,
    uses: Seq<u32>,
    counts: Seq<u32>,
    facts: Seq<Option<Seq<BitVal>>>,
    connect: Connect,
) -> bool {
    &&& connected_register(module, connect) is Some
    &&& ({
        let register = connected_register(module, connect)->0;
        let signal = connect.target.signal;
        &&& holds_state(module, signal)
        &&& module.signals[signal.raw as int].ty == module.ty(connect.value)
        &&& module.ty(connect.value).width <= MAX_STATE_WIDTH
        &&& register.resets.len() > 0
        &&& uses[connect.value.raw as int] == 1
        &&& counts[signal.raw as int] == 1
        &&& !puts_codes_out(module, signal)
        &&& cone(module, register.d.raw as int).len() <= MAX_TRANSITION_VALUES
        &&& finite_transition(module, facts, signal, register.d.raw as int)
        &&& resets_known(facts, register.resets)
        &&& register_states(module, facts, register).len() <= MAX_STATES
    })
}

impl DerivedFsm {
    /// The register, its signal and its transition function.
    pub open spec fn drawn_from(
        &self,
        module: ModuleView,
        facts: Seq<Option<Seq<BitVal>>>,
        connect: Connect,
    ) -> bool {
        &&& connected_register(module, connect) == Some(self.register@)
        &&& module.kind(connect.value) == KindView::Operation(self.register_operation)
        &&& self.register_result == connect.value
        &&& self.state_signal == connect.target.signal
        &&& self.state_type == module.ty(connect.value)
        &&& self.state_type == module.signals[self.state_signal.raw as int].ty
        &&& self.source == module.operations[self.register_operation.raw as int].source
        &&& self.register.resets@.len() > 0
        &&& self.reset_values@.len() == self.register.resets@.len()
        &&& forall|i: int|
            0 <= i < self.reset_values@.len() ==> facts[self.register.resets@[i].reset_value.raw as int]
                == Some((#[trigger] self.reset_values@[i])@)
        &&& order_ok(
            module,
            self.transition_order@,
            transition_cone(module, self.register.d.raw as int),
        )
        &&& self.transition_order@.len() > 0
        &&& self.transition_order@.last() == self.register.d
        &&& constants_ok(
            module,
            facts,
            self.constant_values@,
            transition_cone(module, self.register.d.raw as int),
        )
    }

    /// Different known states of the right width, every reset state among them.
    pub open spec fn states_ok(&self) -> bool {
        &&& states_view(self.states@).no_duplicates()
        &&& 1 <= self.states@.len() <= MAX_STATES
        &&& forall|s: int|
            0 <= s < self.states@.len() ==> (#[trigger] self.states@[s])@.len()
                == self.state_type.width && all_known(self.states@[s]@)
        &&& forall|i: int|
            0 <= i < self.reset_values@.len() ==> states_view(self.states@).contains(
                (#[trigger] self.reset_values@[i])@,
            )
    }
}

impl FsmAnalysisCandidate {
    pub open spec fn drawn_from(
        &self,
        module: ModuleView,
        facts: Seq<Option<Seq<BitVal>>>,
        connect: Connect,
    ) -> bool {
        &&& self.machine.drawn_from(module, facts, connect)
        &&& self.machine.states_ok()
        &&& states_view(self.machine.states@).to_set() == register_states(
            module,
            facts,
            self.machine.register@,
        )
        &&& exists|sorted: Seq<Seq<BitVal>>|
            in_order(sorted) && #[trigger] exchanged(
                sorted,
                self.machine.reset_values@[0]@,
                states_view(self.machine.states@),
            )
        &&& self.reset_states@.len() == self.machine.reset_values@.len()
        &&& forall|i: int|
            0 <= i < self.reset_states@.len() ==> (#[trigger] self.reset_states@[i])
                < self.machine.states@.len()
                && self.machine.states@[self.reset_states@[i] as int]@
                == self.machine.reset_values@[i]@
        &&& self.allow_state_merging == !leaves(module, self.machine.state_signal)
        &&& self.machine.state_classes@.len() == 0
        &&& self.machine.representatives@.len() == 0
    }
}

/// Everything that a transition function selects among is as wide as it is.
pub proof fn lemma_cone_width(module: ModuleView, root: int, v: int)
    requires
        module.wf(),
        0 <= root < module.values.len(),
        transition_cone(module, root).contains(v),
    ensures
        0 <= v <= root,
        module.values[v].ty.width == module.values[root].ty.width,
{
    let wide = Set::new(
        |x: int|
            0 <= x < module.values.len() && module.values[x].ty.width
                == module.values[root].ty.width,
    );
    assert forall|x: int, i: int|
        wide.contains(x) && 0 <= x <= root && 0 <= i < choices_of(module)(x).len() implies
        wide.contains((#[trigger] choices_of(module)(x)[i]).raw as int) by {
        assert(module.value_ok(x));
        if let KindView::Operation(operation) = module.values[x].kind {
            assert(module.operation_ok(operation.raw as int));
            let kind = module.operations[operation.raw as int].kind;
            let inputs = op_inputs(kind);
            if kind is Mux {
                assert(inputs[1].raw < x && inputs[2].raw < x);
            } else if kind is Cast {
                assert(inputs[0].raw < x);
            }
        }
    }
    lemma_descend_least(choices_of(module), root, wide, v);
    lemma_descend_bound(choices_of(module), root, v);
}

/// A state of a register is as wide as its signal, and known.
proof fn lemma_register_state(
    module: ModuleView,
    facts: Seq<Option<Seq<BitVal>>>,
    connect: Connect,
    register: RegisterView,
    state: Seq<BitVal>,
)
    requires
        module.wf(),
        module.connect_ok(connect),
        facts_sound(module, facts),
        connected_register(module, connect) == Some(register),
        finite_transition(module, facts, connect.target.signal, register.d.raw as int),
        resets_known(facts, register.resets),
        register_states(module, facts, register).contains(state),
    ensures
        state.len() == module.ty(connect.value).width,
        all_known(state),
{
    assert(module.value_ok(connect.value.raw as int));
    let operation = module.kind(connect.value)->Operation_0;
    assert(module.operation_ok(operation.raw as int));
    let kind = module.operations[operation.raw as int].kind;
    assert(op_inputs(kind)[0] == register.d);
    assert(register.d.raw < connect.value.raw);
    if names_state(module, facts, register.d.raw as int, state) {
        let v = choose|v: int| #[trigger]
            transition_cone(module, register.d.raw as int).contains(v) && fixed_state(
                module,
                facts,
                v,
            ) == Some(state);
        lemma_cone_width(module, register.d.raw as int, v);
        assert(module.value_ok(v));
    } else {
        let i = choose|i: int|
            0 <= i < register.resets.len() && facts[(
            #[trigger] register.resets[i]).reset_value.raw as int] == Some(state);
        lemma_reset_in_range(module, connect, register, i);
    }
}

proof fn lemma_reset_in_range(
    module: ModuleView,
    connect: Connect,
    register: RegisterView,
    i: int,
)
    requires
        module.wf(),
        module.connect_ok(connect),
        connected_register(module, connect) == Some(register),
        0 <= i < register.resets.len(),
    ensures
        module.has(register.resets[i].reset_value),
        module.has(register.resets[i].value),
        module.ty(register.resets[i].reset_value).width == module.ty(connect.value).width,
{
    assert(module.value_ok(connect.value.raw as int));
    let operation = module.kind(connect.value)->Operation_0;
    assert(module.operation_ok(operation.raw as int));
    let kind = module.operations[operation.raw as int].kind;
    crate::word::module::lemma_reset_inputs(register.resets);
    let inputs = op_inputs(kind);
    let tail = crate::word::types::reset_inputs(register.resets);
    let head = seq![register.d, register.clock] + crate::word::types::enable_inputs(
        register.enable,
    );
    assert(inputs =~= head + tail);
    assert(tail[2 * i] == register.resets[i].value);
    assert(tail[2 * i + 1] == register.resets[i].reset_value);
    assert(inputs[head.len() + 2 * i] == register.resets[i].value);
    assert(inputs[head.len() + 2 * i + 1] == register.resets[i].reset_value);
}

/// Ordering states keeps them.
proof fn lemma_ordered(
    before: Seq<Seq<BitVal>>,
    sorted: Seq<Seq<BitVal>>,
    reset: Seq<BitVal>,
    after: Seq<Seq<BitVal>>,
)
    requires
        before.no_duplicates(),
        sorted.to_multiset() == before.to_multiset(),
        exchanged(sorted, reset, after),
    ensures
        after.no_duplicates(),
        after.len() == before.len(),
        forall|state: Seq<BitVal>| #[trigger] after.contains(state) <==> before.contains(state),
{
    before.lemma_multiset_has_no_duplicates();
    sorted.lemma_multiset_has_no_duplicates_conv();
    before.to_multiset_ensures();
    sorted.to_multiset_ensures();
    sorted.index_of_first_ensures(reset);
    assert forall|state: Seq<BitVal>| #[trigger] after.contains(state) <==> before.contains(
        state,
    ) by {
        assert(sorted.contains(state) <==> before.contains(state)) by {
            assert(sorted.contains(state) <==> sorted.to_multiset().count(state) > 0);
            assert(before.contains(state) <==> before.to_multiset().count(state) > 0);
        }
        if let Some(place) = sorted.index_of_first(reset) {
            if sorted.contains(state) {
                let k = choose|k: int| 0 <= k < sorted.len() && sorted[k] == state;
                if k == 0 {
                    assert(after[place] == state);
                } else if k == place {
                    assert(after[0] == state);
                } else {
                    assert(after[k] == state);
                }
            }
            if after.contains(state) {
                let k = choose|k: int| 0 <= k < after.len() && after[k] == state;
                if k == 0 {
                    assert(sorted[place] == state);
                } else if k == place {
                    assert(sorted[0] == state);
                } else {
                    assert(sorted[k] == state);
                }
            }
        }
    }
}

/// The machine behind a connection, if there is one.
#[verifier::rlimit(80)]
pub fn machine_candidate(
    module: &WordModule,
    uses: &Vec<u32>,
    counts: &Vec<u32>,
    facts: &Vec<Option<ConstBits>>,
    connect: Connect,
) -> (result: Option<FsmAnalysisCandidate>)
    requires
        module@.wf(),
        module@.connect_ok(connect),
        uses@.len() == module@.values.len(),
        counts@.len() == module@.signals.len(),
        facts_sound(module@, facts_view(facts@)),
    ensures
        result is Some <==> is_machine(module@, uses@, counts@, facts_view(facts@), connect),
        result matches Some(candidate) ==> candidate.drawn_from(
            module@,
            facts_view(facts@),
            connect,
        ),
{
    let ghost view = module@;
    let ghost known = facts_view(facts@);
    if connect.target.range.is_some() || connect.target.dynamic.is_some() {
        return None;
    }
    let signal_id = connect.target.signal;
    let value = &module.values[connect.value.raw as usize];
    assert(value@ == view.values[connect.value.raw as int]);
    assert(view.value_ok(connect.value.raw as int));
    let operation_id = match &value.kind {
        ValueKind::Operation(operation) => *operation,
        _ => return None,
    };
    let operation = &module.operations[operation_id.raw as usize];
    assert(operation@ == view.operations[operation_id.raw as int]);
    assert(view.operation_ok(operation_id.raw as int));
    let register = match &operation.kind {
        OpKind::Register(register) => register,
        _ => return None,
    };
    assert(connected_register(view, connect) == Some(register@));
    assert(op_inputs(operation.kind@)[0] == register.d);
    let signal_type = module.signals[signal_id.raw as usize].ty;
    if !is_state_target(module, signal_id) || signal_type != value.ty || signal_type.width
        > MAX_STATE_WIDTH || register.resets.len() == 0 || uses[connect.value.raw as usize] != 1
        || counts[signal_id.raw as usize] != 1 {
        return None;
    }
    if codes_are_put_out(module, signal_id) {
        return None;
    }
    if !transition_cone_within_budget(module, register.d) {
        return None;
    }
    let collection = match collect_states(module, register.d, signal_id, facts) {
        Some(collection) => collection,
        None => return None,
    };
    let ghost all = transition_cone(view, register.d.raw as int);
    let mut states = collection.states;
    let mut reset_values: Vec<ConstBits> = Vec::new();
    let mut i: usize = 0;
    proof {
        assert forall|state: Seq<BitVal>| #[trigger]
            states_view(states@).contains(state) <==> names_state(
                view,
                known,
                register.d.raw as int,
                state,
            ) by {
            if states_view(states@).contains(state) {
                let k = choose|k: int|
                    0 <= k < states_view(states@).len() && states_view(states@)[k] == state;
                assert(stated(view, known, all, states_view(states@)[k]));
                let v = choose|v: int| #[trigger]
                    all.contains(v) && fixed_state(view, known, v) == Some(state);
                assert(all.contains(v));
            }
            if names_state(view, known, register.d.raw as int, state) {
                let v = choose|v: int| #[trigger]
                    all.contains(v) && fixed_state(view, known, v) == Some(state);
                assert(all.contains(v));
            }
        }
    }
    while i < register.resets.len()
        invariant
            view == module@,
            view.wf(),
            view.connect_ok(connect),
            known == facts_view(facts@),
            facts@.len() == view.values.len(),
            connected_register(view, connect) == Some(register@),
            i <= register.resets@.len(),
            states_view(states@).no_duplicates(),
            forall|state: Seq<BitVal>| #[trigger]
                states_view(states@).contains(state) <==> names_state(
                    view,
                    known,
                    register.d.raw as int,
                    state,
                ) || is_reset_state(known, register.resets@.take(i as int), state),
            reset_values@.len() == i,
            forall|k: int|
                0 <= k < i ==> known[register.resets@[k].reset_value.raw as int] == Some(
                    (#[trigger] reset_values@[k])@,
                ),
            resets_known(known, register.resets@.take(i as int)),
        decreases register.resets.len() - i,
    {
        let reset = register.resets[i];
        proof {
            lemma_reset_in_range(view, connect, register@, i as int);
        }
        let ghost before = states_view(states@);
        let bits = match &facts[reset.reset_value.raw as usize] {
            Some(bits) => bits,
            None => {
                assert(known[register.resets@[i as int].reset_value.raw as int] is None);
                return None;
            },
        };
        assert(known[register.resets@[i as int].reset_value.raw as int] == Some(bits@));
        if !is_boolean(bits) {
            assert(!resets_known(known, register.resets@));
            return None;
        }
        push_unique(&mut states, bits.duplicate());
        reset_values.push(bits.duplicate());
        proof {
            let now = register.resets@.take(i + 1);
            let was = register.resets@.take(i as int);
            assert(now =~= was.push(reset));
            assert forall|state: Seq<BitVal>| #[trigger]
                states_view(states@).contains(state) <==> names_state(
                    view,
                    known,
                    register.d.raw as int,
                    state,
                ) || is_reset_state(known, now, state) by {
                super::dependency::lemma_push_contains(before, bits@, state);
                if is_reset_state(known, was, state) {
                    let k = choose|k: int|
                        0 <= k < was.len() && known[(#[trigger] was[k]).reset_value.raw as int]
                            == Some(state);
                    assert(now[k] == was[k]);
                }
                if is_reset_state(known, now, state) {
                    let k = choose|k: int|
                        0 <= k < now.len() && known[(#[trigger] now[k]).reset_value.raw as int]
                            == Some(state);
                    if k < i {
                        assert(was[k] == now[k]);
                    }
                }
                assert(now[i as int] == reset);
                if state == bits@ {
                    assert(known[now[i as int].reset_value.raw as int] == Some(state));
                    assert(is_reset_state(known, now, state));
                }
            }
            assert forall|k: int| 0 <= k < now.len() implies known[(
            #[trigger] now[k]).reset_value.raw as int] is Some && all_known(
                known[now[k].reset_value.raw as int]->0,
            ) by {
                if k < i {
                    assert(was[k] == now[k]);
                }
            }
        }
        i += 1;
    }
    proof {
        assert(register.resets@.take(i as int) =~= register.resets@);
        let set = register_states(view, known, register@);
        assert(states_view(states@).to_set() =~= set) by {
            assert forall|state: Seq<BitVal>| #[trigger]
                states_view(states@).to_set().contains(state) == set.contains(state) by {
                assert(states_view(states@).contains(state) <==> set.contains(state));
            }
        }
        states_view(states@).unique_seq_to_set();
        let first = reset_values@[0]@;
        assert(register.resets@[0].reset_value.raw < known.len()) by {
            lemma_reset_in_range(view, connect, register@, 0);
        }
        assert(is_reset_state(known, register.resets@, first));
        assert(states_view(states@).contains(first));
    }
    if states.len() > MAX_STATES {
        return None;
    }
    let ghost unordered = states_view(states@);
    order_states(&mut states, &reset_values[0]);
    proof {
        let sorted = choose|sorted: Seq<Seq<BitVal>>|
            {
                &&& in_order(sorted)
                &&& sorted.to_multiset() == unordered.to_multiset()
                &&& #[trigger] exchanged(sorted, reset_values@[0]@, states_view(states@))
            };
        lemma_ordered(unordered, sorted, reset_values@[0]@, states_view(states@));
        assert(states_view(states@).to_set() =~= unordered.to_set()) by {
            assert forall|state: Seq<BitVal>| #[trigger]
                states_view(states@).to_set().contains(state) == unordered.to_set().contains(
                    state,
                ) by {
                assert(states_view(states@).contains(state) <==> unordered.contains(state));
            }
        }
        assert forall|s: int| 0 <= s < states@.len() implies (#[trigger] states@[s])@.len()
            == signal_type.width && all_known(states@[s]@) by {
            assert(states_view(states@)[s] == states@[s]@);
            assert(states_view(states@).contains(states@[s]@));
            assert(unordered.to_set().contains(states@[s]@));
            lemma_register_state(view, known, connect, register@, states@[s]@);
        }
        assert forall|k: int| 0 <= k < reset_values@.len() implies states_view(states@).contains(
            (#[trigger] reset_values@[k])@,
        ) by {
            assert(known[register.resets@[k].reset_value.raw as int] == Some(reset_values@[k]@));
            assert(is_reset_state(known, register.resets@, reset_values@[k]@));
            assert(unordered.contains(reset_values@[k]@));
        }
    }
    let mut reset_states: Vec<usize> = Vec::new();
    let mut i: usize = 0;
    while i < reset_values.len()
        invariant
            i <= reset_values@.len(),
            reset_states@.len() == i,
            forall|k: int|
                0 <= k < reset_values@.len() ==> states_view(states@).contains(
                    (#[trigger] reset_values@[k])@,
                ),
            forall|k: int|
                0 <= k < i ==> (#[trigger] reset_states@[k]) < states@.len()
                    && states@[reset_states@[k] as int]@ == reset_values@[k]@,
        decreases reset_values.len() - i,
    {
        assert(states_view(states@).contains(reset_values@[i as int]@));
        match find_state(&states, &reset_values[i]) {
            Some(place) => {
                reset_states.push(place);
            },
            None => {
                return None;
            },
        }
        i += 1;
    }
    let allow_state_merging: bool = !leaves_module(module, signal_id);
    let machine = DerivedFsm {
        register_operation: operation_id,
        register: register.duplicate(),
        register_result: operation.result,
        state_signal: signal_id,
        state_type: signal_type,
        source: operation.source,
        states,
        state_classes: Vec::new(),
        representatives: Vec::new(),
        reset_values,
        transition_order: collection.order,
        constant_values: collection.constants,
    };
    proof {
        assert(machine.register@ == register@);
        assert(machine.drawn_from(view, known, connect));
        assert(machine.states_ok());
    }
    Some(FsmAnalysisCandidate { machine, reset_states, allow_state_merging })
}

pub proof fn lemma_register_ok(module: ModuleView, connect: Connect, register: RegisterView)
    requires
        module.wf(),
        module.connect_ok(connect),
        connected_register(module, connect) == Some(register),
    ensures
        module.inputs_below(OpView::Register(register), module.values.len() as int),
        module.op_typed(OpView::Register(register), module.ty(register.d)),
        module.has(register.d),
        module.ty(register.d).width == module.ty(connect.value).width,
{
    assert(module.value_ok(connect.value.raw as int));
    let operation = module.kind(connect.value)->Operation_0;
    assert(module.operation_ok(operation.raw as int));
    let kind = module.operations[operation.raw as int].kind;
    assert(op_inputs(kind)[0] == register.d);
}

} // verus!
