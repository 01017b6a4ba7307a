//! What a machine shows and where it goes, state by state.

use super::symbolic::cost::{
    behavior_cost, lemma_outstanding_all, module_cost, register_cost,
};
use super::symbolic::encoder::{
    blocked, external_lit, register_next_word, roots_word, signal_key, WordLogicEncoder,
};
use super::symbolic::forms::Setting;
use super::symbolic::gates::{
    lemma_constant_value, lemma_share, SymbolicError, MAX_SYMBOLIC_NODES,
};
use super::symbolic::selection::{
    class_form, class_of, compares, lemma_compares_later, simple_equal, states_view,
};
use crate::error::{Invariant, SynthError};
use crate::logic::{
    constant_row, keeps_values, lemma_keeps_values, lemma_lits_keep, lit_value, lits_ok, lits_value,
    Inputs, Lit, LogicNode,
};
use crate::word::bits::bits_of;
use crate::word::drivers::{driven, SignalDriverIndex};
use crate::word::module::ModuleView;
use crate::word::numbers::{all_known, known_word};
use crate::word::semantics::Env;
use crate::word::types::{op_inputs, BitVal, ConstBits, OpView, RegisterOp, RegisterView, SignalId, ValueId};
use vstd::arithmetic::power2::pow2;
use vstd::prelude::*;

verus! {

/// Turns a symbolic outcome into eligibility: what is merely not supported
/// rules the machine out, anything else stops the work.
pub fn symbolic_eligibility<T>(error: SymbolicError) -> (result: Result<Option<T>, SynthError>)
    ensures
        result == (match error {
            SymbolicError::Unsupported => Ok::<Option<T>, SynthError>(None),
            SymbolicError::Synthesis(error) => Err(error),
        }),
{
    match error {
        SymbolicError::Unsupported => Ok(None),
        SymbolicError::Synthesis(error) => Err(error),
    }
}

pub open spec fn lit_rows(rows: Seq<Vec<Lit>>) -> Seq<Seq<Lit>> {
    rows.map_values(|row: Vec<Lit>| row@)
}

impl<'m> WordLogicEncoder<'m> {
    /// An environment in which a signal holds a word, and the assignment of
    /// the encoder's inputs.
    pub open spec fn admits_state(
        &self,
        signal: SignalId,
        word: Seq<bool>,
        env: Env,
        inputs: Inputs,
    ) -> bool {
        &&& forall|k: int|
            0 <= k < self.external_order@.len() ==> (#[trigger] (inputs.value)(k)) == (env.signal)(
                self.external_order@[k].0.raw as int,
                self.external_order@[k].1 as int,
            )
        &&& forall|i: int|
            0 <= i < word.len() ==> (#[trigger] (env.signal)(signal.raw as int, i)) == word[i]
        &&& self.drivers is Some ==> driven(self.m(), env)
    }

    /// A row that stands for a word whenever a signal holds a state.
    pub open spec fn stands(
        &self,
        signal: SignalId,
        state: Seq<bool>,
        lits: Seq<Lit>,
        word: spec_fn(Env) -> Seq<bool>,
    ) -> bool {
        &&& lits_ok(self.nodes(), lits)
        &&& forall|env: Env, inputs: Inputs| #[trigger]
            self.admits_state(signal, state, env, inputs) ==> lits_value(
                self.nodes(),
                inputs,
                lits,
            ) == word(env)
    }

    /// The graph and the inputs grew.
    pub open spec fn outgrows(&self, earlier: &Self) -> bool {
        &&& self.module == earlier.module
        &&& self.ranges == earlier.ranges
        &&& self.drivers == earlier.drivers
        &&& keeps_values(earlier.nodes(), self.nodes())
        &&& forall|key: u64| #[trigger]
            earlier.external_signals@.dom().contains(key)
                ==> self.external_signals@.dom().contains(key) && self.external_signals@[key]
                == earlier.external_signals@[key]
        &&& self.external_order@.len() >= earlier.external_order@.len()
        &&& forall|k: int|
            0 <= k < earlier.external_order@.len() ==> #[trigger] self.external_order@[k]
                == earlier.external_order@[k]
        &&& self.opened(earlier)
    }

    /// A setting in which a signal holds a state and inputs have the literals that they
    /// have here.
    pub open spec fn places(&self, setting: Setting, signal: SignalId, state: Seq<bool>) -> bool {
        &&& setting.module == self.m()
        &&& self.drivers is Some
        &&& *self.drivers->0 == setting.drivers
        &&& setting.signal == signal
        &&& driven(self.m(), setting.env)
        &&& forall|i: int|
            0 <= i < state.len() ==> (#[trigger] (setting.env.signal)(signal.raw as int, i))
                == state[i]
        &&& forall|signal: SignalId, bit: u32|
            self.external_signals@.dom().contains(#[trigger] signal_key(signal, bit)) ==> (
            setting.input)(signal, bit as int) == external_lit(
                self.external_signals@,
                signal,
                bit as int,
            )
    }

    proof fn lemma_places(&self, earlier: &Self, setting: Setting, signal: SignalId, state: Seq<bool>)
        requires
            self.outgrows(earlier),
            self.places(setting, signal, state),
        ensures
            earlier.places(setting, signal, state),
    {
    }

    /// A setting with the bound state is one that the encoder speaks of.
    proof fn lemma_placed(&self, setting: Setting, signal: SignalId, state: Seq<bool>)
        requires
            self.bound is Some,
            self.bound->0.signal == signal,
            self.bound->0.word@ == state,
            self.places(setting, signal, state),
        ensures
            self.serves(setting),
    {
        let order = self.external_order@;
        let env = setting.env;
        let inputs = Inputs {
            value: |k: int| (env.signal)(order[k].0.raw as int, order[k].1 as int),
        };
        assert(self.admits(env, inputs));
    }

    proof fn lemma_stands_later(
        &self,
        earlier: &Self,
        signal: SignalId,
        state: Seq<bool>,
        lits: Seq<Lit>,
        word: spec_fn(Env) -> Seq<bool>,
    )
        requires
            self.outgrows(earlier),
            earlier.stands(signal, state, lits, word),
        ensures
            self.stands(signal, state, lits, word),
    {
        assert forall|env: Env, inputs: Inputs| #[trigger]
            self.admits_state(signal, state, env, inputs) implies lits_value(
            self.nodes(),
            inputs,
            lits,
        ) == word(env) by {
            assert forall|k: int| 0 <= k < earlier.external_order@.len() implies (
            #[trigger] (inputs.value)(k)) == (env.signal)(
                earlier.external_order@[k].0.raw as int,
                earlier.external_order@[k].1 as int,
            ) by {
                assert(self.external_order@[k] == earlier.external_order@[k]);
            }
            assert(earlier.admits_state(signal, state, env, inputs));
            lemma_lits_keep(earlier.nodes(), self.nodes(), lits, inputs);
        }
    }

    /// A row that means a word while a signal is bound stands for it.
    proof fn lemma_stands_bound(
        &self,
        signal: SignalId,
        state: Seq<bool>,
        lits: Seq<Lit>,
        word: spec_fn(Env) -> Seq<bool>,
    )
        requires
            self.bound is Some,
            self.bound->0.signal == signal,
            self.bound->0.word@ == state,
            self.means(lits, word),
        ensures
            self.stands(signal, state, lits, word),
    {
        assert forall|env: Env, inputs: Inputs| #[trigger]
            self.admits_state(signal, state, env, inputs) implies lits_value(
            self.nodes(),
            inputs,
            lits,
        ) == word(env) by {
            assert(self.admits(env, inputs));
        }
    }
}

pub open spec fn roots_of(module: ModuleView, roots: Seq<ValueId>) -> spec_fn(Env) -> Seq<bool> {
    |env: Env| roots_word(module, env, roots)
}

pub open spec fn next_of(module: ModuleView, register: RegisterView, state: SignalId) -> spec_fn(
    Env,
) -> Seq<bool> {
    |env: Env| register_next_word(module, env, register, state)
}

/// The rows of a machine: what is seen in each state, what the register takes
/// over from it, and which states that may be.
pub struct SymbolicBehavior {
    pub observations: Vec<Vec<Lit>>,
    pub next_values: Vec<Vec<Lit>>,
    pub successors: Vec<Vec<usize>>,
}

/// Whether a state is listed as one that a row may be equal to: it is unless their
/// comparison comes out as the constant that is false.
pub open spec fn lists_target(
    nodes: Seq<LogicNode>,
    next: Seq<Lit>,
    state: Seq<BitVal>,
    listed: bool,
) -> bool {
    exists|lit: Lit| #[trigger]
        compares(nodes, next, state, lit) && (simple_equal(next, state, next.len()) matches Some(
            simple,
        ) ==> lit == simple) && listed == (lit != Lit::constant_spec(false))
}

/// The states that a row may be equal to, in order.
pub open spec fn lists_targets(
    nodes: Seq<LogicNode>,
    next: Seq<Lit>,
    states: Seq<Seq<BitVal>>,
    count: int,
    targets: Seq<usize>,
) -> bool {
    &&& forall|k: int| 0 <= k < targets.len() ==> (#[trigger] targets[k]) < count
    &&& forall|j: int, k: int|
        0 <= j < k < targets.len() ==> (#[trigger] targets[j]) < (#[trigger] targets[k])
    &&& forall|t: int|
        0 <= t < count ==> lists_target(
            nodes,
            next,
            #[trigger] states[t],
            targets.contains(t as usize),
        )
    &&& forall|t: int, inputs: Inputs|
        0 <= t < count && !targets.contains(t as usize) ==> #[trigger] lits_value(
            nodes,
            inputs,
            next,
        ) != #[trigger] known_word(states[t])
}

impl SymbolicBehavior {
    /// The rows stand for the observations and the next word in each state,
    /// and no possible next state is missing.
    pub open spec fn describes(
        &self,
        encoder: &WordLogicEncoder,
        register: RegisterView,
        signal: SignalId,
        states: Seq<Seq<BitVal>>,
        roots: Seq<ValueId>,
    ) -> bool {
        &&& self.observations@.len() == states.len()
        &&& self.next_values@.len() == states.len()
        &&& self.successors@.len() == states.len()
        &&& forall|s: int|
            0 <= s < states.len() ==> (#[trigger] states[s]).len()
                == encoder.m().signals[signal.raw as int].ty.width && all_known(states[s])
        &&& forall|s: int|
            0 <= s < states.len() ==> (#[trigger] self.next_values@[s])@.len()
                == encoder.m().signals[signal.raw as int].ty.width
        &&& forall|s: int|
            0 <= s < states.len() ==> encoder.stands(
                signal,
                known_word(states[s]),
                (#[trigger] self.observations@[s])@,
                roots_of(encoder.m(), roots),
            )
        &&& forall|s: int|
            0 <= s < states.len() ==> encoder.stands(
                signal,
                known_word(states[s]),
                (#[trigger] self.next_values@[s])@,
                next_of(encoder.m(), register, signal),
            )
        &&& forall|s: int|
            0 <= s < states.len() ==> lists_targets(
                encoder.nodes(),
                self.next_values@[s]@,
                states,
                states.len() as int,
                (#[trigger] self.successors@[s])@,
            )
        &&& self.formed(encoder, register, signal, states, roots, states.len() as int)
    }

    /// Rows that follow without a gate from constants, from the state and from the
    /// literals of inputs are those.
    pub open spec fn formed(
        &self,
        encoder: &WordLogicEncoder,
        register: RegisterView,
        signal: SignalId,
        states: Seq<Seq<BitVal>>,
        roots: Seq<ValueId>,
        count: int,
    ) -> bool {
        rows_formed(
            encoder,
            register,
            signal,
            states,
            roots,
            lit_rows(self.observations@),
            lit_rows(self.next_values@),
            count,
        )
    }
}

/// Rows of the first states that follow without a gate are those.
pub open spec fn rows_formed(
    encoder: &WordLogicEncoder,
    register: RegisterView,
    signal: SignalId,
    states: Seq<Seq<BitVal>>,
    roots: Seq<ValueId>,
    observations: Seq<Seq<Lit>>,
    next_values: Seq<Seq<Lit>>,
    count: int,
) -> bool {
    &&& forall|s: int, setting: Setting, depth: nat|
        #![trigger observations[s], setting.forms(roots, depth)]
        0 <= s < count && encoder.places(setting, signal, known_word(states[s])) ==> (setting.forms(
            roots,
            depth,
        ) matches Some(row) ==> observations[s] == row)
    &&& forall|s: int, setting: Setting, depth: nat|
        #![trigger next_values[s], setting.next_form(register, depth)]
        0 <= s < count && encoder.places(setting, signal, known_word(states[s])) ==> (
        setting.next_form(register, depth) matches Some(row) ==> next_values[s] == row)
}

proof fn lemma_rows_formed_later<'m>(
    before: &WordLogicEncoder<'m>,
    after: &WordLogicEncoder<'m>,
    register: RegisterView,
    signal: SignalId,
    states: Seq<Seq<BitVal>>,
    roots: Seq<ValueId>,
    observations: Seq<Seq<Lit>>,
    next_values: Seq<Seq<Lit>>,
    count: int,
)
    requires
        after.outgrows(before),
        rows_formed(before, register, signal, states, roots, observations, next_values, count),
    ensures
        rows_formed(after, register, signal, states, roots, observations, next_values, count),
{
    assert forall|s: int, setting: Setting, depth: nat|
        #![trigger observations[s], setting.forms(roots, depth)]
        0 <= s < count && after.places(setting, signal, known_word(states[s])) implies (
    setting.forms(roots, depth) matches Some(row) ==> observations[s] == row) by {
        after.lemma_places(before, setting, signal, known_word(states[s]));
    }
    assert forall|s: int, setting: Setting, depth: nat|
        #![trigger next_values[s], setting.next_form(register, depth)]
        0 <= s < count && after.places(setting, signal, known_word(states[s])) implies (
    setting.next_form(register, depth) matches Some(row) ==> next_values[s] == row) by {
        after.lemma_places(before, setting, signal, known_word(states[s]));
    }
}

impl SymbolicBehavior {
    /// The behaviour of a machine for some observations.
    pub open spec fn belongs_to(
        &self,
        encoder: &WordLogicEncoder,
        register: RegisterView,
        signal: SignalId,
        states: Seq<Seq<BitVal>>,
    ) -> bool {
        exists|roots: Seq<ValueId>| #[trigger]
            self.describes(encoder, register, signal, states, roots)
    }
}

/// Something that a register or an observation waits for in a state stops the encoding.
pub open spec fn cone_blocked(
    module: ModuleView,
    ranges: Seq<Option<u128>>,
    drivers: Option<&SignalDriverIndex>,
    register: RegisterView,
    signal: SignalId,
    roots: Seq<ValueId>,
    error: SymbolicError,
) -> bool {
    ||| exists|k: int|
        0 <= k < roots.len() && blocked(
            module,
            ranges,
            drivers,
            Some(signal),
            #[trigger] roots[k],
            error,
        )
    ||| exists|i: int|
        0 <= i < op_inputs(OpView::Register(register)).len() && i != 1 && blocked(
            module,
            ranges,
            drivers,
            Some(signal),
            #[trigger] op_inputs(OpView::Register(register))[i],
            error,
        )
}

/// Why the behaviour of a machine is not derived: its rows made the graph outgrow the
/// budget, something in its cone has no encoding, or its states are not words of the
/// signal. `nodes` and `made` are the sizes of the graph before and after.
pub open spec fn hinders(
    module: ModuleView,
    ranges: Seq<Option<u128>>,
    drivers: Option<&SignalDriverIndex>,
    nodes: nat,
    made: nat,
    register: RegisterView,
    signal: SignalId,
    states: Seq<Seq<BitVal>>,
    roots: Seq<ValueId>,
    error: SymbolicError,
) -> bool {
    ||| error is Unsupported && made > MAX_SYMBOLIC_NODES && nodes + behavior_cost(
        module,
        register,
        signal,
        states.len(),
    ) > MAX_SYMBOLIC_NODES
    ||| states.len() > 0 && cone_blocked(module, ranges, drivers, register, signal, roots, error)
    ||| error == SymbolicError::Synthesis(SynthError::Invariant(Invariant::WidthMismatch)) && (
    module.ty(register.d).width != module.signals[signal.raw as int].ty.width || exists|s: int|
        0 <= s < states.len() && (#[trigger] states[s]).len() != module.signals[signal.raw as int].ty.width)
    ||| error is Unsupported && exists|s: int|
        0 <= s < states.len() && !all_known(#[trigger] states[s])
}

impl<'m> WordLogicEncoder<'m> {
    /// The literal that says whether a row is equal to a constant.
    pub fn equals_constant(&mut self, value: &Vec<Lit>, constant: &ConstBits) -> (result: Result<
        Lit,
        SymbolicError,
    >)
        requires
            old(self).wf(),
            lits_ok(old(self).nodes(), value@),
        ensures
            final(self).wf(),
            final(self).continues(old(self)),
            final(self).nodes().len() <= old(self).nodes().len() + value@.len(),
            result matches Ok(lit) ==> compares(final(self).nodes(), value@, constant@, lit) && (simple_equal(
                value@,
                constant@,
                value@.len(),
            ) matches Some(simple) ==> lit == simple),
            final(self).external_order@ == old(self).external_order@,
            constant@.len() != value@.len() ==> result == Err::<Lit, SymbolicError>(
                SymbolicError::Synthesis(SynthError::Invariant(Invariant::WidthMismatch)),
            ),
            result matches Err(error) ==> super::symbolic::gates::exhausted(
                final(self).nodes(),
                error,
            ) || constant@.len() != value@.len() || (error is Unsupported && !all_known(
                constant@,
            )),
            result matches Ok(lit) ==> {
                &&& all_known(constant@)
                &&& final(self).logic.has(lit)
                &&& forall|inputs: Inputs| #[trigger]
                    lit_value(final(self).nodes(), inputs, lit) == (lits_value(
                        old(self).nodes(),
                        inputs,
                        value@,
                    ) == known_word(constant@))
            },
    {
        let ghost before = *self;
        let result = self.logic.equals_constant(value, constant);
        proof {
            self.lemma_wf(&before);
        }
        result
    }

    /// The row that says to which class a row belongs.
    pub fn partition(&mut self, value: &Vec<Lit>, states: &Vec<ConstBits>, classes: &Vec<usize>)
        -> (result: Result<Vec<Lit>, SymbolicError>)
        requires
            old(self).wf(),
            lits_ok(old(self).nodes(), value@),
        ensures
            final(self).wf(),
            final(self).continues(old(self)),
            final(self).nodes().len() <= old(self).nodes().len() + states@.len() * (value@.len() + 192),
            result matches Ok(bits) ==> (constant_row(value@) ==> constant_row(bits@)) && (class_form(
                value@,
                states_view(states@),
                classes@,
                bits@.len(),
                states@.len(),
            ) matches Some(row) ==> bits@ == row) && (bits@.len() > 1 ==> exists|i: int|
                0 <= i < classes@.len() && (#[trigger] classes@[i]) >= pow2((bits@.len() - 1) as nat)),
            final(self).external_order@ == old(self).external_order@,
            (states@.len() == 0 || states@.len() != classes@.len()) ==> result == Err::<
                Vec<Lit>,
                SymbolicError,
            >(SymbolicError::Synthesis(SynthError::Invariant(Invariant::WidthMismatch))),
            result matches Err(error) ==> super::symbolic::gates::exhausted(
                final(self).nodes(),
                error,
            ) || states@.len() == 0 || states@.len() != classes@.len() || exists|i: int|
                0 <= i < states@.len() && ((#[trigger] states@[i])@.len() != value@.len()
                    || !all_known(states@[i]@)),
            result matches Ok(bits) ==> {
                &&& bits@.len() >= 1
                &&& lits_ok(final(self).nodes(), bits@)
                &&& forall|i: int|
                    0 <= i < classes@.len() ==> (#[trigger] classes@[i]) < pow2(bits@.len())
                &&& forall|inputs: Inputs| #[trigger]
                    lits_value(final(self).nodes(), inputs, bits@) == bits_of(
                        class_of(
                            states_view(states@),
                            classes@,
                            lits_value(old(self).nodes(), inputs, value@),
                            states@.len() as int,
                        ) as int,
                        bits@.len(),
                    )
            },
    {
        let ghost before = *self;
        let result = self.logic.partition(value, states, classes);
        proof {
            self.lemma_wf(&before);
        }
        result
    }
}

/// A list of targets for each row, in turn.
#[verifier::rlimit(40)]
fn derive_successors(
    encoder: &mut WordLogicEncoder,
    next_values: &Vec<Vec<Lit>>,
    states: &Vec<ConstBits>,
    Ghost(width): Ghost<nat>,
) -> (result: Result<Vec<Vec<usize>>, SymbolicError>)
    requires
        old(encoder).wf(),
        forall|s: int| 0 <= s < next_values@.len() ==> (#[trigger] next_values@[s])@.len() == width,
        forall|s: int|
            0 <= s < next_values@.len() ==> lits_ok(
                old(encoder).nodes(),
                (#[trigger] next_values@[s])@,
            ),
    ensures
        final(encoder).wf(),
        final(encoder).outgrows(old(encoder)),
        final(encoder).nodes().len() <= old(encoder).nodes().len() + next_values@.len() * (
        states@.len() * width),
        final(encoder).bound == old(encoder).bound,
        result matches Ok(successors) ==> successors@.len() == next_values@.len() && forall|s: int|
            0 <= s < successors@.len() ==> lists_targets(
                final(encoder).nodes(),
                next_values@[s]@,
                states_view(states@),
                states@.len() as int,
                (#[trigger] successors@[s])@,
            ),
        result matches Err(error) ==> super::symbolic::gates::exhausted(
            final(encoder).nodes(),
            error,
        ) || (exists|s: int, t: int|
            0 <= s < next_values@.len() && 0 <= t < states@.len() && #[trigger] states@[t]@.len()
                != #[trigger] next_values@[s]@.len()) || (error is Unsupported && exists|t: int|
            0 <= t < states@.len() && !all_known((#[trigger] states@[t])@)),
        result matches Err(error) ==> error is Unsupported || super::symbolic::gates::exhausted(
            final(encoder).nodes(),
            error,
        ) || error == SymbolicError::Synthesis(SynthError::Invariant(Invariant::WidthMismatch)),
{
    let ghost known = states_view(states@);
    let ghost start = *encoder;
    let mut successors: Vec<Vec<usize>> = Vec::new();
    let mut s: usize = 0;
    proof {
        lemma_keeps_values(encoder.nodes(), encoder.nodes());
    }
    while s < next_values.len()
        invariant
            known == states_view(states@),
            encoder.wf(),
            start == *old(encoder),
            encoder.outgrows(&start),
            forall|s: int| 0 <= s < next_values@.len() ==> (#[trigger] next_values@[s])@.len() == width,
            encoder.nodes().len() <= start.nodes().len() + s * (states@.len() * width),
            encoder.bound == start.bound,
            s <= next_values@.len(),
            successors@.len() == s,
            forall|s: int|
                0 <= s < next_values@.len() ==> lits_ok(
                    encoder.nodes(),
                    (#[trigger] next_values@[s])@,
                ),
            forall|r: int|
                0 <= r < s ==> lists_targets(
                    encoder.nodes(),
                    next_values@[r]@,
                    known,
                    known.len() as int,
                    (#[trigger] successors@[r])@,
                ),
        decreases next_values.len() - s,
    {
        let next = &next_values[s];
        proof {
            lemma_share(s as nat, next_values@.len(), states@.len() * width);
        }
        let mut targets: Vec<usize> = Vec::new();
        let mut t: usize = 0;
        assert(lits_ok(encoder.nodes(), next_values@[s as int]@));
        while t < states.len()
            invariant
                known == states_view(states@),
                encoder.wf(),
                start == *old(encoder),
            encoder.outgrows(&start),
            forall|s: int| 0 <= s < next_values@.len() ==> (#[trigger] next_values@[s])@.len() == width,
            encoder.nodes().len() <= start.nodes().len() + s * (states@.len() * width) + t * width,
            s * (states@.len() * width) + states@.len() * width <= next_values@.len() * (states@.len()
                * width),
                encoder.bound == start.bound,
                t <= states@.len(),
                s < next_values@.len(),
                successors@.len() == s,
                next@ == next_values@[s as int]@,
                forall|s: int|
                    0 <= s < next_values@.len() ==> lits_ok(
                        encoder.nodes(),
                        (#[trigger] next_values@[s])@,
                    ),
                forall|r: int|
                    0 <= r < s ==> lists_targets(
                        encoder.nodes(),
                        next_values@[r]@,
                        known,
                        known.len() as int,
                        (#[trigger] successors@[r])@,
                    ),
                lists_targets(encoder.nodes(), next@, known, t as int, targets@),
            decreases states.len() - t,
        {
            let ghost before = *encoder;
            let ghost was = targets@;
            proof {
                lemma_share(t as nat, states@.len(), width);
            }
            assert(lits_ok(before.nodes(), next_values@[s as int]@));
            let lit = match encoder.equals_constant(next, &states[t]) {
                Ok(lit) => lit,
                Err(error) => {
                    return Err(error);
                },
            };
            let impossible: bool = lit == Lit::constant(false);
            if !impossible {
                targets.push(t);
            }
            proof {
                assert forall|r: int| 0 <= r < next_values@.len() implies lits_ok(
                    encoder.nodes(),
                    (#[trigger] next_values@[r])@,
                ) by {
                    assert(lits_ok(before.nodes(), next_values@[r]@));
                }
                assert forall|r: int| 0 <= r < s implies lists_targets(
                    encoder.nodes(),
                    next_values@[r]@,
                    known,
                    known.len() as int,
                    (#[trigger] successors@[r])@,
                ) by {
                    lemma_targets_keep(
                        before.nodes(),
                        encoder.nodes(),
                        next_values@[r]@,
                        known,
                        known.len() as int,
                        successors@[r]@,
                    );
                }
                lemma_targets_keep(
                    before.nodes(),
                    encoder.nodes(),
                    next@,
                    known,
                    t as int,
                    was,
                );
                assert forall|u: int| 0 <= u < t + 1 implies lists_target(
                    encoder.nodes(),
                    next@,
                    #[trigger] known[u],
                    targets@.contains(u as usize),
                ) by {
                    super::dependency::lemma_push_contains(was, t, u as usize);
                    if u < t {
                        assert(lists_target(
                            encoder.nodes(),
                            next@,
                            known[u],
                            was.contains(u as usize),
                        ));
                    } else {
                        assert(known[u] == states@[u]@);
                        assert(!was.contains(t));
                        assert(targets@.contains(t) == !impossible);
                        assert(compares(encoder.nodes(), next@, known[u], lit));
                    }
                }
                assert forall|u: int, inputs: Inputs|
                    0 <= u < t + 1 && !targets@.contains(u as usize) implies #[trigger] lits_value(
                    encoder.nodes(),
                    inputs,
                    next@,
                ) != #[trigger] known_word(known[u]) by {
                    super::dependency::lemma_push_contains(was, t, u as usize);
                    lemma_lits_keep(before.nodes(), encoder.nodes(), next@, inputs);
                    if u < t {
                        assert(!was.contains(u as usize));
                    } else {
                        assert(impossible);
                        assert(encoder.logic.wf());
                        lemma_constant_value(encoder.nodes(), inputs, false);
                        assert(known[u] == states@[u]@);
                        assert(!lit_value(encoder.nodes(), inputs, lit));
                    }
                }
            }
            t += 1;
        }
        successors.push(targets);
        s += 1;
    }
    Ok(successors)
}

proof fn lemma_targets_keep(
    before: Seq<LogicNode>,
    after: Seq<LogicNode>,
    next: Seq<Lit>,
    states: Seq<Seq<BitVal>>,
    count: int,
    targets: Seq<usize>,
)
    requires
        lists_targets(before, next, states, count, targets),
        keeps_values(before, after),
        lits_ok(before, next),
    ensures
        lists_targets(after, next, states, count, targets),
{
    assert forall|t: int| 0 <= t < count implies lists_target(
        after,
        next,
        #[trigger] states[t],
        targets.contains(t as usize),
    ) by {
        assert(lists_target(before, next, states[t], targets.contains(t as usize)));
        let lit = choose|lit: Lit| #[trigger]
            compares(before, next, states[t], lit) && (simple_equal(
                next,
                states[t],
                next.len(),
            ) matches Some(simple) ==> lit == simple) && targets.contains(t as usize) == (lit
                != Lit::constant_spec(false));
        lemma_compares_later(before, after, next, states[t], lit);
    }
    assert forall|t: int, inputs: Inputs|
        0 <= t < count && !targets.contains(t as usize) implies #[trigger] lits_value(
        after,
        inputs,
        next,
    ) != #[trigger] known_word(states[t]) by {
        lemma_lits_keep(before, after, next, inputs);
        assert(lits_value(before, inputs, next) != known_word(states[t]));
    }
}

/// The rows of some states are paid for.
proof fn lemma_behavior_cost(
    module: ModuleView,
    register: RegisterView,
    signal: SignalId,
    states: nat,
    done: nat,
    each: nat,
)
    requires
        done <= states,
        each == module_cost(module, module.values.len()) + register_cost(module, register, signal),
    ensures
        done * each <= behavior_cost(module, register, signal, states),
        done == states ==> behavior_cost(module, register, signal, states) == done * each + states
            * (states * (module.signals[signal.raw as int].ty.width as nat)),
{
    let width = module.signals[signal.raw as int].ty.width as nat;
    assert(done * each <= states * each) by (nonlinear_arith)
        requires
            done <= states,
    ;
    assert(states * (states * width) >= 0) by (nonlinear_arith);
}

/// The rows of one more state that follow without a gate are those.
proof fn lemma_rows_formed_more<'m>(
    looked: &WordLogicEncoder<'m>,
    encoder: &WordLogicEncoder<'m>,
    register: RegisterView,
    signal: SignalId,
    states: Seq<Seq<BitVal>>,
    roots: Seq<ValueId>,
    observations: Seq<Seq<Lit>>,
    next_values: Seq<Seq<Lit>>,
    seen: Seq<Lit>,
    next: Seq<Lit>,
)
    requires
        rows_formed(
            encoder,
            register,
            signal,
            states,
            roots,
            observations,
            next_values,
            observations.len() as int,
        ),
        observations.len() == next_values.len(),
        observations.len() < states.len(),
        encoder.continues(looked),
        encoder.bound is Some,
        encoder.bound->0.signal == signal,
        encoder.bound->0.word@ == known_word(states[observations.len() as int]),
        forall|setting: Setting, depth: nat| #![trigger setting.forms(roots, depth)]
            looked.serves(setting) ==> (setting.forms(roots, depth) matches Some(row) ==> seen
                == row),
        forall|setting: Setting, depth: nat| #![trigger setting.next_form(register, depth)]
            encoder.serves(setting) ==> (setting.next_form(register, depth) matches Some(row)
                ==> next == row),
    ensures
        rows_formed(
            encoder,
            register,
            signal,
            states,
            roots,
            observations.push(seen),
            next_values.push(next),
            (observations.len() + 1) as int,
        ),
{
    let count = observations.len() as int;
    let more = observations.push(seen);
    let more_next = next_values.push(next);
    assert forall|s: int, setting: Setting, depth: nat|
        #![trigger more[s], setting.forms(roots, depth)]
        0 <= s < count + 1 && encoder.places(setting, signal, known_word(states[s])) implies (
    setting.forms(roots, depth) matches Some(row) ==> more[s] == row) by {
        if s < count {
            assert(more[s] == observations[s]);
        } else {
            encoder.lemma_placed(setting, signal, known_word(states[s]));
            encoder.lemma_serves(looked, setting);
        }
    }
    assert forall|s: int, setting: Setting, depth: nat|
        #![trigger more_next[s], setting.next_form(register, depth)]
        0 <= s < count + 1 && encoder.places(setting, signal, known_word(states[s])) implies (
    setting.next_form(register, depth) matches Some(row) ==> more_next[s] == row) by {
        if s < count {
            assert(more_next[s] == next_values[s]);
        } else {
            encoder.lemma_placed(setting, signal, known_word(states[s]));
        }
    }
}

/// The behaviour of a machine, worked out for each of its states.
#[verifier::rlimit(60)]
pub fn derive_symbolic_behavior(
    encoder: &mut WordLogicEncoder,
    register: &RegisterOp,
    signal: SignalId,
    states: &Vec<ConstBits>,
    observations: &Vec<ValueId>,
) -> (result: Result<SymbolicBehavior, SymbolicError>)
    requires
        old(encoder).wf(),
        signal.raw < old(encoder).m().signals.len(),
        forall|i: int|
            0 <= i < observations@.len() ==> old(encoder).m().has(#[trigger] observations@[i]),
        old(encoder).m().inputs_below(
            OpView::Register(register@),
            old(encoder).m().values.len() as int,
        ),
        old(encoder).m().op_typed(OpView::Register(register@), old(encoder).m().ty(register.d)),
    ensures
        final(encoder).wf(),
        final(encoder).outgrows(old(encoder)),
        final(encoder).nodes().len() <= old(encoder).nodes().len() + behavior_cost(
            old(encoder).m(),
            register@,
            signal,
            states@.len(),
        ),
        result matches Ok(behavior) ==> behavior.describes(
            final(encoder),
            register@,
            signal,
            states_view(states@),
            observations@,
        ),
        result matches Err(error) ==> hinders(
            old(encoder).m(),
            old(encoder).ranges@,
            old(encoder).drivers,
            old(encoder).nodes().len(),
            final(encoder).nodes().len(),
            register@,
            signal,
            states_view(states@),
            observations@,
            error,
        ),
{
    let ghost known = states_view(states@);
    let ghost start = *encoder;
    let ghost each = module_cost(start.m(), start.m().values.len()) + register_cost(
        start.m(),
        register@,
        signal,
    );
    let ghost shown = roots_of(start.m(), observations@);
    let ghost taken = next_of(start.m(), register@, signal);
    let mut observation_values: Vec<Vec<Lit>> = Vec::new();
    let mut next_values: Vec<Vec<Lit>> = Vec::new();
    let mut s: usize = 0;
    proof {
        lemma_keeps_values(encoder.nodes(), encoder.nodes());
    }
    while s < states.len()
        invariant
            known == states_view(states@),
            shown == roots_of(start.m(), observations@),
            taken == next_of(start.m(), register@, signal),
            encoder.wf(),
            start == *old(encoder),
            encoder.outgrows(&start),
            encoder.nodes().len() <= start.nodes().len() + s * each,
            each == module_cost(start.m(), start.m().values.len()) + register_cost(
                start.m(),
                register@,
                signal,
            ),
            rows_formed(
                encoder,
                register@,
                signal,
                known,
                observations@,
                lit_rows(observation_values@),
                lit_rows(next_values@),
                s as int,
            ),
            s <= states@.len(),
            signal.raw < start.m().signals.len(),
            forall|i: int|
                0 <= i < observations@.len() ==> start.m().has(#[trigger] observations@[i]),
            start.m().inputs_below(OpView::Register(register@), start.m().values.len() as int),
            start.m().op_typed(OpView::Register(register@), start.m().ty(register.d)),
            observation_values@.len() == s,
            next_values@.len() == s,
            forall|r: int|
                0 <= r < s ==> (#[trigger] states@[r])@.len()
                    == start.m().signals[signal.raw as int].ty.width && all_known(states@[r]@),
            forall|r: int|
                0 <= r < s ==> (#[trigger] next_values@[r])@.len()
                    == start.m().signals[signal.raw as int].ty.width,
            forall|r: int|
                0 <= r < s ==> encoder.stands(
                    signal,
                    known_word(known[r]),
                    (#[trigger] observation_values@[r])@,
                    shown,
                ),
            forall|r: int|
                0 <= r < s ==> encoder.stands(
                    signal,
                    known_word(known[r]),
                    (#[trigger] next_values@[r])@,
                    taken,
                ),
        decreases states.len() - s,
    {
        let ghost before = *encoder;
        assert(known[s as int] == states@[s as int]@);
        proof {
            lemma_share(s as nat, states@.len(), each);
            lemma_behavior_cost(start.m(), register@, signal, states@.len(), s as nat, each);
        }
        if let Err(error) = encoder.begin_state(signal, &states[s]) {
            return Err(error);
        }
        let ghost bound = *encoder;
        proof {
            lemma_keeps_values(before.nodes(), before.nodes());
            assert(bound.outgrows(&before));
            lemma_outstanding_all(bound.m(), bound.values@, bound.values@.len());
            assert(bound.due() == module_cost(start.m(), start.m().values.len()));
        }
        let seen = match encoder.values(observations) {
            Ok(seen) => seen,
            Err(error) => {
                return Err(error);
            },
        };
        let ghost looked = *encoder;
        proof {
            assert(looked.means(seen@, |env: Env| roots_word(bound.m(), env, observations@)));
            assert((|env: Env| roots_word(bound.m(), env, observations@)) =~= shown);
            looked.lemma_stands_bound(signal, known_word(known[s as int]), seen@, shown);
        }
        let next = match encoder.register_next(register, signal) {
            Ok(next) => next,
            Err(error) => {
                return Err(error);
            },
        };
        proof {
            assert(encoder.means(
                next@,
                |env: Env| register_next_word(looked.m(), env, register@, signal),
            ));
            assert((|env: Env| register_next_word(looked.m(), env, register@, signal)) =~= taken);
            encoder.lemma_stands_bound(signal, known_word(known[s as int]), next@, taken);
            encoder.lemma_stands_later(
                &looked,
                signal,
                known_word(known[s as int]),
                seen@,
                shown,
            );
            assert(encoder.outgrows(&before));
            assert forall|r: int| 0 <= r < s implies encoder.stands(
                signal,
                known_word(known[r]),
                (#[trigger] observation_values@[r])@,
                shown,
            ) by {
                encoder.lemma_stands_later(
                    &before,
                    signal,
                    known_word(known[r]),
                    observation_values@[r]@,
                    shown,
                );
            }
            assert forall|r: int| 0 <= r < s implies encoder.stands(
                signal,
                known_word(known[r]),
                (#[trigger] next_values@[r])@,
                taken,
            ) by {
                encoder.lemma_stands_later(
                    &before,
                    signal,
                    known_word(known[r]),
                    next_values@[r]@,
                    taken,
                );
            }
        }
        let ghost old_observations = lit_rows(observation_values@);
        let ghost old_next = lit_rows(next_values@);
        let ghost seen_row = seen@;
        let ghost next_row = next@;
        observation_values.push(seen);
        next_values.push(next);
        proof {
            assert(lit_rows(observation_values@) =~= old_observations.push(seen_row));
            assert(lit_rows(next_values@) =~= old_next.push(next_row));
            lemma_rows_formed_later(
                &before,
                encoder,
                register@,
                signal,
                known,
                observations@,
                old_observations,
                old_next,
                s as int,
            );
            lemma_rows_formed_more(
                &looked,
                encoder,
                register@,
                signal,
                known,
                observations@,
                old_observations,
                old_next,
                seen_row,
                next_row,
            );
        }
        s += 1;
    }
    let ghost before = *encoder;
    proof {
        lemma_behavior_cost(start.m(), register@, signal, states@.len(), s as nat, each);
        assert forall|r: int| 0 <= r < next_values@.len() implies lits_ok(
            encoder.nodes(),
            (#[trigger] next_values@[r])@,
        ) by {
            assert(encoder.stands(signal, known_word(known[r]), next_values@[r]@, taken));
        }
    }
    let successors = match derive_successors(
        encoder,
        &next_values,
        states,
        Ghost(start.m().signals[signal.raw as int].ty.width as nat),
    ) {
        Ok(successors) => successors,
        Err(error) => {
            return Err(error);
        },
    };
    proof {
        assert forall|r: int| 0 <= r < s implies encoder.stands(
            signal,
            known_word(known[r]),
            (#[trigger] observation_values@[r])@,
            shown,
        ) by {
            encoder.lemma_stands_later(
                &before,
                signal,
                known_word(known[r]),
                observation_values@[r]@,
                shown,
            );
        }
        assert forall|r: int| 0 <= r < s implies encoder.stands(
            signal,
            known_word(known[r]),
            (#[trigger] next_values@[r])@,
            taken,
        ) by {
            encoder.lemma_stands_later(
                &before,
                signal,
                known_word(known[r]),
                next_values@[r]@,
                taken,
            );
        }
    }
    proof {
        lemma_rows_formed_later(
            &before,
            encoder,
            register@,
            signal,
            known,
            observations@,
            lit_rows(observation_values@),
            lit_rows(next_values@),
            s as int,
        );
    }
    Ok(SymbolicBehavior { observations: observation_values, next_values, successors })
}

/// A behaviour stays right when the graph and the inputs grow.
pub proof fn lemma_describes_later<'m>(
    before: &WordLogicEncoder<'m>,
    after: &WordLogicEncoder<'m>,
    behavior: &SymbolicBehavior,
    register: RegisterView,
    signal: SignalId,
    states: Seq<Seq<BitVal>>,
    roots: Seq<ValueId>,
)
    requires
        after.outgrows(before),
        behavior.describes(before, register, signal, states, roots),
    ensures
        behavior.describes(after, register, signal, states, roots),
{
    lemma_rows_formed_later(
        before,
        after,
        register,
        signal,
        states,
        roots,
        lit_rows(behavior.observations@),
        lit_rows(behavior.next_values@),
        states.len() as int,
    );
    let shown = roots_of(before.m(), roots);
    let taken = next_of(before.m(), register, signal);
    assert forall|s: int| 0 <= s < states.len() implies after.stands(
        signal,
        known_word(states[s]),
        (#[trigger] behavior.observations@[s])@,
        shown,
    ) by {
        after.lemma_stands_later(
            before,
            signal,
            known_word(states[s]),
            behavior.observations@[s]@,
            shown,
        );
    }
    assert forall|s: int| 0 <= s < states.len() implies after.stands(
        signal,
        known_word(states[s]),
        (#[trigger] behavior.next_values@[s])@,
        taken,
    ) by {
        after.lemma_stands_later(
            before,
            signal,
            known_word(states[s]),
            behavior.next_values@[s]@,
            taken,
        );
    }
    assert forall|s: int| 0 <= s < states.len() implies lists_targets(
        after.nodes(),
        behavior.next_values@[s]@,
        states,
        states.len() as int,
        (#[trigger] behavior.successors@[s])@,
    ) by {
        assert(before.stands(signal, known_word(states[s]), behavior.next_values@[s]@, taken));
        lemma_targets_keep(
            before.nodes(),
            after.nodes(),
            behavior.next_values@[s]@,
            states,
            states.len() as int,
            behavior.successors@[s]@,
        );
    }
}

} // verus!
