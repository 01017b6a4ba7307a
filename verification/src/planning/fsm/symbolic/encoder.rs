//! The encoder of a module's combinational words.

use super::gates::{exhausted, lemma_constant_value, lemma_resize, resize, SymbolicError, SymbolicLogic};
use super::cost::{
    lemma_outstanding_holds, lemma_outstanding_less, outstanding, register_cost, value_cost,
};
use super::forms::{inverse_row, simple_choice, word_row, Setting};
use super::selection::MAX_OFFSET_BITS;
use crate::collections::{IdMap, IdSet};
use crate::error::{Invariant, Resource, SynthError};
use crate::logic::{
    constant_row, keeps_values, lemma_keeps_values, lemma_lits_keep, lit_value, lits_ok, lits_value,
    simple_and, simple_or, simple_select, Inputs, Lit, LogicNode,
};
use crate::word::bits::{any_bit, nat_of};
use crate::word::drivers::{bit_driver, driven, lemma_folded_driver, SignalDriverIndex, ValueBit};
use crate::word::module::{KindView, ModuleView, SignalRef, ValueKind, WordModule};
use crate::word::numbers::{all_known, known_word};
use crate::word::semantics::{
    binary_bits, cast_bits, compare_type, concat_bits, constant_value, eval, extract_bits,
    lemma_eval_operation, result_bits, unary_bits, word_of, Env,
};
use crate::word::types::{
    bit_lsb, op_inputs, operation_inputs, BinaryOp, BitVal, CastKind, ConstBits, OpKind, OpView,
    RegisterOp, RegisterView, Reset, SignalId, UnaryOp, ValueId, WordType,
};
use vstd::arithmetic::power2::pow2;
use vstd::prelude::*;

verus! {

/// A signal whose word is fixed for the present encoding.
pub struct BoundSignal {
    pub signal: SignalId,
    pub word: Vec<bool>,
}

/// Greatest unsigned values, per value of a module, where one is known.
pub open spec fn ranges_sound(module: ModuleView, ranges: Seq<Option<u128>>) -> bool {
    &&& ranges.len() == module.values.len()
    &&& forall|v: int, env: Env|
        0 <= v < module.values.len() && ranges[v] is Some ==> nat_of(
            #[trigger] eval(module, env, v),
        ) <= ranges[v]->0
    &&& forall|v: int|
        0 <= v < module.values.len() && (#[trigger] ranges[v]) is Some ==> ranges[v]->0 < pow2(
            module.values[v].ty.width as nat,
        )
}

/// A value that has no encoding: an unknown constant bit, a stored state, an
/// offset without a known range, or a division too wide for its partial
/// remainder.
pub open spec fn unsupported(module: ModuleView, ranges: Seq<Option<u128>>, value: int) -> bool {
    match module.values[value].kind {
        KindView::Signal(_) => false,
        KindView::Constant(bits) => !all_known(bits),
        KindView::Operation(operation) => match module.operations[operation.raw as int].kind {
            OpView::TriState { .. } | OpView::Register(_) | OpView::Latch(_) => true,
            OpView::DynamicExtract { value: word, offset, width } => ranges[offset.raw as int]
                is None,
            OpView::Binary { op, left, right } => (op is Div || op is Mod)
                && module.values[value].ty.width == u32::MAX,
            _ => false,
        },
    }
}

/// Whether the encoding of a value waits for that of another, while a signal holds a
/// state.
pub open spec fn reads(
    module: ModuleView,
    drivers: Option<&SignalDriverIndex>,
    bound: Option<SignalId>,
    value: ValueId,
    operand: ValueId,
) -> bool {
    &&& module.has(value)
    &&& match module.kind(value) {
        KindView::Signal(reference) => bound != Some(reference.signal) && drivers is Some
            && drivers->0.resolves(reference) && drivers->0.drives(reference, operand),
        KindView::Constant(_) => false,
        KindView::Operation(operation) => {
            let kind = module.operations[operation.raw as int].kind;
            !(kind is Register) && !(kind is Latch) && op_inputs(kind).contains(operand)
        },
    }
}

/// A walk from values to those that their encoding waits for.
pub open spec fn reads_along(
    module: ModuleView,
    drivers: Option<&SignalDriverIndex>,
    bound: Option<SignalId>,
    walk: Seq<ValueId>,
) -> bool {
    &&& walk.len() >= 1
    &&& forall|i: int|
        0 <= i < walk.len() - 1 ==> reads(module, drivers, bound, #[trigger] walk[i], walk[i + 1])
}

/// Why a value is not encoded although its operands are.
pub open spec fn balks(
    module: ModuleView,
    ranges: Seq<Option<u128>>,
    value: ValueId,
    error: SymbolicError,
) -> bool {
    &&& module.has(value)
    &&& {
        ||| error is Unsupported && unsupported(module, ranges, value.raw as int)
        ||| error == SymbolicError::Synthesis(SynthError::Capacity(Resource::Offset))
            && wide_offset(module, value.raw as int)
    }
}

/// A walk ends where it was before.
pub open spec fn turns_back(walk: Seq<ValueId>) -> bool {
    exists|i: int| 0 <= i < walk.len() - 1 && #[trigger] walk[i] == walk.last()
}

/// Why the encoding of a value fails on the way to what it waits for: something there
/// has no encoding, or waits for itself.
pub open spec fn blocked(
    module: ModuleView,
    ranges: Seq<Option<u128>>,
    drivers: Option<&SignalDriverIndex>,
    bound: Option<SignalId>,
    root: ValueId,
    error: SymbolicError,
) -> bool {
    exists|walk: Seq<ValueId>| #[trigger]
        reads_along(module, drivers, bound, walk) && walk[0] == root && (balks(
            module,
            ranges,
            walk.last(),
            error,
        ) || (error == SymbolicError::Synthesis(SynthError::Invariant(Invariant::CombinationalCycle))
            && drivers is Some && turns_back(walk)))
}

/// A selection whose offset is wider than any machine distance.
pub open spec fn wide_offset(module: ModuleView, value: int) -> bool {
    match module.values[value].kind {
        KindView::Operation(operation) => match module.operations[operation.raw as int].kind {
            OpView::DynamicExtract { value: word, offset, width } => module.ty(offset).width
                > MAX_OFFSET_BITS,
            OpView::DynamicInsert { value: word, offset, replacement } => module.ty(offset).width
                > MAX_OFFSET_BITS,
            _ => false,
        },
        _ => false,
    }
}

/// The literal of a bit that nothing drives.
pub open spec fn external_lit(externals: Map<u64, u64>, signal: SignalId, bit: int) -> Lit {
    Lit { node: externals[signal_key(signal, bit as u32)] as u32, inverted: false }
}

/// Whether all operands of a value have rows of constants.
pub open spec fn constant_operands(rows: Seq<Option<Vec<Lit>>>, kind: OpView) -> bool {
    forall|i: int|
        0 <= i < op_inputs(kind).len() ==> constant_row(
            rows[(#[trigger] op_inputs(kind)[i]).raw as int]->0@,
        )
}

/// What is fixed of the row of an operation: it is constant where its operands are,
/// and a choice, a conjunction or a disjunction that needs no gate has none.
pub open spec fn operation_steady(
    module: ModuleView,
    rows: Seq<Option<Vec<Lit>>>,
    kind: OpView,
    lits: Seq<Lit>,
    value: ValueId,
) -> bool {
    match kind {
        OpView::Mux { cond, then_value, else_value } => {
            let condition = rows[cond.raw as int]->0@[0];
            let when_true = rows[then_value.raw as int]->0@;
            let when_false = rows[else_value.raw as int]->0@;
            &&& condition.node == 0 ==> lits == (if condition.inverted {
                when_true
            } else {
                when_false
            })
            &&& forall|i: int|
                0 <= i < lits.len() ==> (#[trigger] simple_select(
                    condition,
                    when_true[i],
                    when_false[i],
                ) matches Some(simple) ==> lits[i] == simple)
        },
        OpView::Unary { op: UnaryOp::BitNot, arg } => lits == inverse_row(
            rows[arg.raw as int]->0@,
        ),
        OpView::Binary { op, left, right } => {
            let l = rows[left.raw as int]->0@;
            let r = rows[right.raw as int]->0@;
            let even = module.ty(left).width == module.ty(value).width && module.ty(right).width
                == module.ty(value).width;
            &&& constant_operands(rows, kind) ==> constant_row(lits)
            &&& op is BitAnd && even ==> forall|i: int|
                0 <= i < lits.len() ==> (#[trigger] simple_and(l[i], r[i]) matches Some(simple)
                    ==> lits[i] == simple)
            &&& op is BitOr && even ==> forall|i: int|
                0 <= i < lits.len() ==> (#[trigger] simple_or(l[i], r[i]) matches Some(simple)
                    ==> lits[i] == simple)
        },
        _ => constant_operands(rows, kind) ==> constant_row(lits),
    }
}

/// What is fixed of the row of a value, given the rows of what it depends on.
pub open spec fn steady(
    module: ModuleView,
    drivers: Option<&SignalDriverIndex>,
    bound: Option<SignalId>,
    rows: Seq<Option<Vec<Lit>>>,
    externals: Map<u64, u64>,
    lits: Seq<Lit>,
    value: ValueId,
) -> bool {
    match module.kind(value) {
        KindView::Constant(bits) => lits == word_row(known_word(bits)),
        KindView::Signal(reference) => if bound == Some(reference.signal) {
            constant_row(lits)
        } else if drivers is Some && drivers->0.resolves(reference) {
            forall|i: int|
                0 <= i < reference.width ==> #[trigger] lits[i] == rows[drivers->0.driver_at(
                    reference,
                    i,
                )->0.value.raw as int]->0@[drivers->0.driver_at(reference, i)->0.bit as int]
        } else {
            forall|i: int|
                0 <= i < reference.width ==> #[trigger] lits[i] == external_lit(
                    externals,
                    reference.signal,
                    reference.lsb + i,
                ) && externals.dom().contains(
                    signal_key(reference.signal, (reference.lsb + i) as u32),
                )
        },
        KindView::Operation(operation) => operation_steady(
            module,
            rows,
            module.operations[operation.raw as int].kind,
            lits,
            value,
        ),
    }
}

pub open spec fn signal_key(signal: SignalId, bit: u32) -> u64 {
    (signal.raw as int * 0x1_0000_0000 + bit) as u64
}

fn key_of(signal: SignalId, bit: u32) -> (key: u64)
    ensures
        key == signal_key(signal, bit),
{
    (signal.raw as u64) * 0x1_0000_0000 + bit as u64
}

proof fn lemma_signal_key(a: SignalId, i: u32, b: SignalId, j: u32)
    requires
        signal_key(a, i) == signal_key(b, j),
    ensures
        a == b && i == j,
{
}

pub fn copy_lits(lits: &Vec<Lit>) -> (copy: Vec<Lit>)
    ensures
        copy@ == lits@,
{
    let mut copy: Vec<Lit> = Vec::new();
    let mut index: usize = 0;
    while index < lits.len()
        invariant
            index <= lits@.len(),
            copy@ =~= lits@.take(index as int),
        decreases lits.len() - index,
    {
        copy.push(lits[index]);
        index += 1;
    }
    copy
}

/// Turns the combinational words of a module into logic over the bits of its
/// undriven signals.
pub struct WordLogicEncoder<'m> {
    pub module: &'m WordModule,
    pub ranges: &'m Vec<Option<u128>>,
    pub drivers: Option<&'m SignalDriverIndex>,
    pub logic: SymbolicLogic,
    pub values: Vec<Option<Vec<Lit>>>,
    pub external_signals: IdMap,
    pub external_order: Vec<(SignalId, u32)>,
    pub bound: Option<BoundSignal>,
}

/// A bit of a signal is read where not all of the read is driven.
pub open spec fn open_bit(
    module: ModuleView,
    drivers: Option<&SignalDriverIndex>,
    signal: SignalId,
    bit: int,
) -> bool {
    exists|v: int| #[trigger] open_read(module, drivers, v, signal, bit)
}

/// A value reads a bit of a signal, and not all that it reads is driven.
pub open spec fn open_read(
    module: ModuleView,
    drivers: Option<&SignalDriverIndex>,
    v: int,
    signal: SignalId,
    bit: int,
) -> bool {
    &&& 0 <= v < module.values.len()
    &&& module.values[v].kind matches KindView::Signal(reference) && reference.signal == signal
        && reference.lsb <= bit < reference.lsb + reference.width && !(drivers matches Some(index)
        && index.resolves(reference))
}

impl<'m> WordLogicEncoder<'m> {
    pub open spec fn m(&self) -> ModuleView {
        self.module@
    }

    pub open spec fn nodes(&self) -> Seq<LogicNode> {
        self.logic.nodes()
    }

    /// An environment that the encoding speaks of, and the assignment of its
    /// inputs.
    pub open spec fn admits(&self, env: Env, inputs: Inputs) -> bool {
        &&& forall|k: int|
            0 <= k < self.external_order@.len() ==> (#[trigger] (inputs.value)(k)) == (env.signal)(
                self.external_order@[k].0.raw as int,
                self.external_order@[k].1 as int,
            )
        &&& self.bound matches Some(bound) ==> forall|i: int|
            0 <= i < bound.word@.len() ==> (#[trigger] (env.signal)(bound.signal.raw as int, i))
                == bound.word@[i]
        &&& self.drivers is Some ==> driven(self.m(), env)
    }

    /// A row of literals that stands for a value in every such environment.
    pub open spec fn encodes(&self, lits: Seq<Lit>, value: int) -> bool {
        &&& lits_ok(self.nodes(), lits)
        &&& lits.len() == self.m().values[value].ty.width
        &&& forall|env: Env, inputs: Inputs| #[trigger]
            self.admits(env, inputs) ==> lits_value(self.nodes(), inputs, lits) == eval(
                self.m(),
                env,
                value,
            )
    }

    /// A literal that stands for a bit of a signal.
    pub open spec fn carries(&self, lit: Lit, signal: SignalId, bit: int) -> bool {
        &&& self.logic.has(lit)
        &&& forall|env: Env, inputs: Inputs| #[trigger]
            self.admits(env, inputs) ==> lit_value(self.nodes(), inputs, lit) == (env.signal)(
                signal.raw as int,
                bit,
            )
    }

    /// Everything but the cache of encoded values.
    pub open spec fn wf_context(&self) -> bool {
        &&& self.m().wf()
        &&& ranges_sound(self.m(), self.ranges@)
        &&& self.drivers matches Some(drivers) ==> drivers.describes(self.m())
        &&& self.logic.wf()
        &&& self.values@.len() == self.m().values.len()
        &&& self.external_order@.len() <= self.nodes().len()
        &&& self.bound matches Some(bound) ==> {
            &&& bound.signal.raw < self.m().signals.len()
            &&& bound.word@.len() == self.m().signals[bound.signal.raw as int].ty.width
        }
        &&& forall|key: u64| #[trigger]
            self.external_signals@.dom().contains(key) ==> {
                &&& self.external_signals@[key] < self.nodes().len()
                &&& self.nodes()[self.external_signals@[key] as int] is Input
                &&& ({
                    let origin = self.nodes()[self.external_signals@[key] as int]->Input_0;
                    &&& origin < self.external_order@.len()
                    &&& key == signal_key(
                        self.external_order@[origin as int].0,
                        self.external_order@[origin as int].1,
                    )
                })
            }
    }

    pub open spec fn bound_signal(&self) -> Option<SignalId> {
        match self.bound {
            Some(bound) => Some(bound.signal),
            None => None,
        }
    }

    /// What is fixed of the row of a value here.
    pub open spec fn keeps_steady(&self, lits: Seq<Lit>, value: ValueId) -> bool {
        steady(
            self.m(),
            self.drivers,
            self.bound_signal(),
            self.values@,
            self.external_signals@,
            lits,
            value,
        )
    }

    /// Rows are there only with those that they come from, and as these fix them.
    pub open spec fn cache_steady(&self) -> bool {
        forall|v: ValueId| #[trigger]
            self.holds(v) ==> self.deps_cached(v) && self.keeps_steady(
                self.values@[v.raw as int]->0@,
                v,
            )
    }

    pub open spec fn holds(&self, value: ValueId) -> bool {
        value.raw < self.values@.len() && self.values@[value.raw as int] is Some
    }

    pub open spec fn wf(&self) -> bool {
        &&& self.wf_context()
        &&& self.cache_steady()
        &&& forall|v: int|
            0 <= v < self.values@.len() ==> ((#[trigger] self.values@[v]) matches Some(lits)
                ==> self.encodes(lits@, v))
    }

    /// The graph and the inputs grew; the rest of the context is the same.
    pub open spec fn continues(&self, earlier: &Self) -> bool {
        &&& self.module == earlier.module
        &&& self.ranges == earlier.ranges
        &&& self.drivers == earlier.drivers
        &&& self.bound == earlier.bound
        &&& keeps_values(earlier.nodes(), self.nodes())
        &&& forall|key: u64| #[trigger]
            earlier.external_signals@.dom().contains(key)
                ==> self.external_signals@.dom().contains(key) && self.external_signals@[key]
                == earlier.external_signals@[key]
        &&& self.external_order@.len() >= earlier.external_order@.len()
        &&& forall|k: int|
            0 <= k < earlier.external_order@.len() ==> #[trigger] self.external_order@[k]
                == earlier.external_order@[k]
    }

    /// Every input that came later is a bit that is read where not all of the read is driven.
    pub open spec fn opened(&self, earlier: &Self) -> bool {
        forall|k: int|
            earlier.external_order@.len() <= k < self.external_order@.len() ==> open_bit(
                self.m(),
                self.drivers,
                (#[trigger] self.external_order@[k]).0,
                self.external_order@[k].1 as int,
            )
    }

    pub proof fn lemma_admits(&self, earlier: &Self, env: Env, inputs: Inputs)
        requires
            self.continues(earlier),
            self.admits(env, inputs),
        ensures
            earlier.admits(env, inputs),
    {
        assert forall|k: int| 0 <= k < earlier.external_order@.len() implies (
        #[trigger] (inputs.value)(k)) == (env.signal)(
            earlier.external_order@[k].0.raw as int,
            earlier.external_order@[k].1 as int,
        ) by {
            assert(self.external_order@[k] == earlier.external_order@[k]);
        }
    }

    pub proof fn lemma_encodes(&self, earlier: &Self, lits: Seq<Lit>, value: int)
        requires
            self.continues(earlier),
            earlier.encodes(lits, value),
        ensures
            self.encodes(lits, value),
    {
        assert forall|i: int| 0 <= i < lits.len() implies (#[trigger] lits[i]).node
            < self.nodes().len() by {
            assert(lits[i].node < earlier.nodes().len());
        }
        assert forall|env: Env, inputs: Inputs| #[trigger]
            self.admits(env, inputs) implies lits_value(self.nodes(), inputs, lits) == eval(
            self.m(),
            env,
            value,
        ) by {
            self.lemma_admits(earlier, env, inputs);
            lemma_lits_keep(earlier.nodes(), self.nodes(), lits, inputs);
            assert(earlier.admits(env, inputs));
        }
    }

    pub proof fn lemma_carries(&self, earlier: &Self, lit: Lit, signal: SignalId, bit: int)
        requires
            self.continues(earlier),
            earlier.carries(lit, signal, bit),
        ensures
            self.carries(lit, signal, bit),
    {
        assert forall|env: Env, inputs: Inputs| #[trigger]
            self.admits(env, inputs) implies lit_value(self.nodes(), inputs, lit) == (env.signal)(
            signal.raw as int,
            bit,
        ) by {
            self.lemma_admits(earlier, env, inputs);
            assert(earlier.admits(env, inputs));
        }
    }

    /// More inputs leave what is fixed of a row.
    proof fn lemma_steady(&self, earlier: &Self, lits: Seq<Lit>, value: ValueId)
        requires
            self.continues(earlier),
            earlier.keeps_steady(lits, value),
            self.values@ == earlier.values@,
        ensures
            self.keeps_steady(lits, value),
    {
        if let KindView::Signal(reference) = self.m().kind(value) {
            if self.bound_signal() != Some(reference.signal) && !(self.drivers is Some
                && self.drivers->0.resolves(reference)) {
                assert forall|i: int| 0 <= i < reference.width implies #[trigger] lits[i]
                    == external_lit(
                    self.external_signals@,
                    reference.signal,
                    reference.lsb + i,
                ) && self.external_signals@.dom().contains(
                    signal_key(reference.signal, (reference.lsb + i) as u32),
                ) by {
                    let lit = lits[i];
                    let key = signal_key(reference.signal, (reference.lsb + i) as u32);
                    assert(earlier.external_signals@.dom().contains(key));
                    assert(self.external_signals@.dom().contains(key));
                }
            }
        }
    }

    /// What was encoded before a value still is.
    proof fn lemma_deps_cached(&self, earlier: &Self, value: ValueId)
        requires
            self.continues(earlier),
            earlier.deps_cached(value),
            self.values@ == earlier.values@,
        ensures
            self.deps_cached(value),
    {
        assert forall|dep: ValueId| #[trigger] self.is_dep(value, dep) implies self.m().has(dep)
            && self.cached_spec(dep) by {
            assert(earlier.is_dep(value, dep));
        }
    }

    /// The cache stays right when only graph and inputs grow.
    pub proof fn lemma_wf(&self, earlier: &Self)
        requires
            self.continues(earlier),
            earlier.wf(),
            self.wf_context(),
            self.values@ == earlier.values@,
        ensures
            self.wf(),
    {
        assert forall|v: ValueId| #[trigger] self.holds(v) implies self.deps_cached(v)
            && self.keeps_steady(self.values@[v.raw as int]->0@, v) by {
            assert(earlier.holds(v));
            self.lemma_deps_cached(earlier, v);
            self.lemma_steady(earlier, self.values@[v.raw as int]->0@, v);
        }
        assert forall|v: int| 0 <= v < self.values@.len() implies ((
        #[trigger] self.values@[v]) matches Some(lits) ==> self.encodes(lits@, v)) by {
            if let Some(lits) = self.values@[v] {
                assert(earlier.encodes(lits@, v));
                self.lemma_encodes(earlier, lits@, v);
            }
        }
    }

    pub open spec fn cached_spec(&self, value: ValueId) -> bool {
        self.values@[value.raw as int] is Some
    }

    /// Whether a reference is read through its drivers.
    pub open spec fn follows(&self, reference: SignalRef) -> bool {
        &&& !(self.bound matches Some(bound) && bound.signal == reference.signal)
        &&& self.drivers matches Some(drivers) && drivers.resolves(reference)
    }

    /// The values that must be encoded before a value.
    pub open spec fn is_dep(&self, value: ValueId, dep: ValueId) -> bool {
        match self.m().kind(value) {
            KindView::Signal(reference) => self.follows(reference) && self.drivers->0.drives(
                reference,
                dep,
            ),
            KindView::Constant(_) => false,
            KindView::Operation(operation) => op_inputs(
                self.m().operations[operation.raw as int].kind,
            ).contains(dep),
        }
    }

    pub fn new(module: &'m WordModule, ranges: &'m Vec<Option<u128>>) -> (encoder: Self)
        requires
            module@.wf(),
            ranges_sound(module@, ranges@),
        ensures
            encoder.wf(),
            encoder.module == module,
            encoder.ranges == ranges,
            encoder.drivers is None,
            encoder.bound is None,
            encoder.nodes().len() == 1,
            encoder.external_order@.len() == 0,
    {
        WordLogicEncoder {
            module,
            ranges,
            drivers: None,
            logic: SymbolicLogic::new(),
            values: empty_cache(module.values.len()),
            external_signals: IdMap::new(),
            external_order: Vec::new(),
            bound: None,
        }
    }

    pub fn with_signal_drivers(
        module: &'m WordModule,
        ranges: &'m Vec<Option<u128>>,
        drivers: &'m SignalDriverIndex,
    ) -> (encoder: Self)
        requires
            module@.wf(),
            ranges_sound(module@, ranges@),
            drivers.describes(module@),
        ensures
            encoder.wf(),
            encoder.module == module,
            encoder.ranges == ranges,
            encoder.drivers == Some(drivers),
            encoder.bound is None,
            encoder.nodes().len() == 1,
            encoder.external_order@.len() == 0,
    {
        WordLogicEncoder {
            module,
            ranges,
            drivers: Some(drivers),
            logic: SymbolicLogic::new(),
            values: empty_cache(module.values.len()),
            external_signals: IdMap::new(),
            external_order: Vec::new(),
            bound: None,
        }
    }

    /// Forgets what was encoded and unbinds the bound signal.
    pub fn begin_unbound(&mut self)
        requires
            old(self).wf(),
        ensures
            final(self).wf(),
            final(self).module == old(self).module,
            final(self).ranges == old(self).ranges,
            final(self).drivers == old(self).drivers,
            final(self).nodes() == old(self).nodes(),
            final(self).external_order@ == old(self).external_order@,
            final(self).external_signals == old(self).external_signals,
            final(self).bound is None,
            forall|v: int|
                0 <= v < final(self).values@.len() ==> (#[trigger] final(self).values@[v]) is None,
    {
        self.values = empty_cache(self.module.values.len());
        self.bound = None;
    }

    /// Forgets what was encoded and binds a signal to a state.
    pub fn begin_state(&mut self, signal: SignalId, state: &ConstBits) -> (result: Result<
        (),
        SymbolicError,
    >)
        requires
            old(self).wf(),
            signal.raw < old(self).m().signals.len(),
        ensures
            final(self).wf(),
            final(self).module == old(self).module,
            final(self).ranges == old(self).ranges,
            final(self).drivers == old(self).drivers,
            final(self).nodes() == old(self).nodes(),
            final(self).external_order@ == old(self).external_order@,
            final(self).external_signals == old(self).external_signals,
            forall|v: int|
                0 <= v < final(self).values@.len() ==> (#[trigger] final(self).values@[v]) is None,
            result is Ok <==> state@.len() == old(self).m().signals[signal.raw as int].ty.width
                && all_known(state@),
            result matches Err(error) ==> error == (if state@.len() != old(self).m().signals[signal.raw as int].ty.width {
                SymbolicError::Synthesis(SynthError::Invariant(Invariant::WidthMismatch))
            } else {
                SymbolicError::Unsupported
            }),
            result is Err ==> final(self).bound is None,
            result is Ok ==> final(self).bound is Some && final(self).bound->0.signal == signal
                && final(self).bound->0.word@ == known_word(state@),
    {
        self.begin_unbound();
        let width: u32 = self.module.signals[signal.raw as usize].ty.width;
        if state.bits.len() != width as usize {
            return Err(SymbolicError::Synthesis(SynthError::Invariant(Invariant::WidthMismatch)));
        }
        let mut word: Vec<bool> = Vec::new();
        while word.len() < state.bits.len()
            invariant
                word@.len() <= state@.len(),
                forall|i: int|
                    0 <= i < word@.len() ==> (#[trigger] bit_lsb(state@, i)).known() && word@[i]
                        == (bit_lsb(state@, i) is One),
                self.wf(),
                self.bound is None,
                forall|v: int|
                    0 <= v < self.values@.len() ==> (#[trigger] self.values@[v]) is None,
                signal.raw < self.m().signals.len(),
                self.module == old(self).module,
                self.ranges == old(self).ranges,
                self.drivers == old(self).drivers,
                self.nodes() == old(self).nodes(),
                self.external_order@ == old(self).external_order@,
                self.external_signals == old(self).external_signals,
                state@.len() == old(self).m().signals[signal.raw as int].ty.width,
            decreases state.bits.len() - word.len(),
        {
            let bit = state.bits[state.bits.len() - 1 - word.len()];
            assert(bit == bit_lsb(state@, word@.len() as int));
            match bit {
                BitVal::Zero => {
                    word.push(false);
                },
                BitVal::One => {
                    word.push(true);
                },
                _ => {
                    assert(!state@[state@.len() - 1 - word@.len()].known());
                    return Err(SymbolicError::Unsupported);
                },
            }
        }
        proof {
            assert(word@ =~= known_word(state@));
            assert forall|i: int| 0 <= i < state@.len() implies (#[trigger] state@[i]).known() by {
                assert(bit_lsb(state@, state@.len() - 1 - i).known());
            }
        }
        self.bound = Some(BoundSignal { signal, word });
        Ok(())
    }

    /// The literal of a bit of a signal.
    fn signal(&mut self, signal: SignalId, bit: u32) -> (result: Result<Lit, SymbolicError>)
        requires
            old(self).wf(),
            signal.raw < old(self).m().signals.len(),
            bit < old(self).m().signals[signal.raw as int].ty.width,
        ensures
            final(self).wf(),
            final(self).continues(old(self)),
            final(self).external_order@ == old(self).external_order@ || (final(self).external_order@
                == old(self).external_order@.push((signal, bit)) && final(self).bound_signal() != Some(
                signal,
            )),
            final(self).nodes().len() <= old(self).nodes().len() + 1,
            result matches Ok(lit) ==> (if final(self).bound_signal() == Some(signal) {
                lit.node == 0
            } else {
                lit == external_lit(final(self).external_signals@, signal, bit as int)
                    && final(self).external_signals@.dom().contains(signal_key(signal, bit))
            }),
            final(self).values@ == old(self).values@,
            result matches Err(error) ==> exhausted(final(self).nodes(), error),
            result matches Ok(lit) ==> final(self).carries(lit, signal, bit as int),
    {
        proof {
            lemma_keeps_values(self.nodes(), self.nodes());
        }
        let mut fixed: Option<bool> = None;
        if let Some(bound) = &self.bound {
            if bound.signal == signal {
                fixed = Some(bound.word[bit as usize]);
            }
        }
        if let Some(value) = fixed {
            let lit = Lit::constant(value);
            proof {
                assert forall|env: Env, inputs: Inputs| #[trigger]
                    self.admits(env, inputs) implies lit_value(self.nodes(), inputs, lit) == (
                env.signal)(signal.raw as int, bit as int) by {
                    lemma_constant_value(self.nodes(), inputs, value);
                }
            }
            return Ok(lit);
        }
        let key: u64 = key_of(signal, bit);
        if let Some(node) = self.external_signals.get(key) {
            let lit = Lit { node: node as u32, inverted: false };
            proof {
                let origin = self.nodes()[node as int]->Input_0;
                let named = self.external_order@[origin as int];
                lemma_signal_key(signal, bit, named.0, named.1);
                assert forall|env: Env, inputs: Inputs| #[trigger]
                    self.admits(env, inputs) implies lit_value(self.nodes(), inputs, lit) == (
                env.signal)(signal.raw as int, bit as int) by {
                    assert((inputs.value)(origin as int) == (env.signal)(
                        named.0.raw as int,
                        named.1 as int,
                    ));
                }
            }
            return Ok(lit);
        }
        if self.external_order.len() >= u32::MAX as usize {
            assert(false);
            return Err(SymbolicError::Synthesis(SynthError::Capacity(Resource::Inputs)));
        }
        let origin: u32 = self.external_order.len() as u32;
        let literal = match self.logic.input(origin) {
            Ok(lit) => lit,
            Err(error) => {
                proof {
                    self.lemma_context(old(self));
                    self.lemma_wf(old(self));
                }
                return Err(error);
            },
        };
        self.external_order.push((signal, bit));
        proof {
            self.lemma_context(old(self));
        }
        self.external_signals.insert(key, literal.node as u64);
        proof {
            assert forall|env: Env, inputs: Inputs| #[trigger]
                self.admits(env, inputs) implies lit_value(self.nodes(), inputs, literal) == (
            env.signal)(signal.raw as int, bit as int) by {
                assert((inputs.value)(origin as int) == (env.signal)(
                    self.external_order@[origin as int].0.raw as int,
                    self.external_order@[origin as int].1 as int,
                ));
            }
            assert(self.continues(old(self)));
            assert(self.wf_context());
            self.lemma_wf(old(self));
        }
        Ok(literal)
    }

    /// A grown graph keeps the context.
    proof fn lemma_context(&self, earlier: &Self)
        requires
            self.continues(earlier),
            earlier.wf_context(),
            self.logic.wf(),
            self.values@.len() == earlier.values@.len(),
            self.external_signals == earlier.external_signals,
            self.external_order@.len() <= self.nodes().len(),
        ensures
            self.wf_context(),
    {
        assert forall|key: u64| #[trigger]
            self.external_signals@.dom().contains(key) implies {
            &&& self.external_signals@[key] < self.nodes().len()
            &&& self.nodes()[self.external_signals@[key] as int] is Input
            &&& ({
                let origin = self.nodes()[self.external_signals@[key] as int]->Input_0;
                &&& origin < self.external_order@.len()
                &&& key == signal_key(
                    self.external_order@[origin as int].0,
                    self.external_order@[origin as int].1,
                )
            })
        } by {
            assert(earlier.external_signals@.dom().contains(key));
            let node = earlier.external_signals@[key] as int;
            assert(self.nodes()[node] == earlier.nodes()[node]);
            let origin = self.nodes()[node]->Input_0;
            assert(self.external_order@[origin as int] == earlier.external_order@[origin as int]);
        }
    }
}

fn empty_cache(length: usize) -> (cache: Vec<Option<Vec<Lit>>>)
    ensures
        cache@.len() == length,
        forall|i: int| 0 <= i < length ==> (#[trigger] cache@[i]) is None,
{
    let mut cache: Vec<Option<Vec<Lit>>> = Vec::new();
    while cache.len() < length
        invariant
            cache@.len() <= length,
            forall|i: int| 0 <= i < cache@.len() ==> (#[trigger] cache@[i]) is None,
        decreases length - cache.len(),
    {
        cache.push(None);
    }
    cache
}

/// The width of a binary operation's word.
proof fn lemma_binary_width(
    op: BinaryOp,
    left: Seq<bool>,
    left_ty: WordType,
    right: Seq<bool>,
    right_ty: WordType,
    ty: WordType,
)
    ensures
        binary_bits(op, left, left_ty, right, right_ty, ty).len() == (
        if crate::word::module::is_predicate(op) {
            1
        } else {
            ty.width as int
        }),
{
}

/// Pointwise combination of two rows.
pub open spec fn bitwise(op: BinaryOp, a: bool, b: bool) -> bool {
    match op {
        BinaryOp::BitAnd => a && b,
        BinaryOp::BitOr => a || b,
        _ => a != b,
    }
}

/// Bits that need no gate have none.
pub open spec fn joined(op: BinaryOp, left: Seq<Lit>, right: Seq<Lit>, bits: Seq<Lit>) -> bool {
    &&& op is BitAnd ==> forall|i: int|
        0 <= i < bits.len() ==> (#[trigger] simple_and(left[i], right[i]) matches Some(simple)
            ==> bits[i] == simple)
    &&& op is BitOr ==> forall|i: int|
        0 <= i < bits.len() ==> (#[trigger] simple_or(left[i], right[i]) matches Some(simple)
            ==> bits[i] == simple)
    &&& constant_row(left) && constant_row(right) ==> constant_row(bits)
}

/// The parts of a concatenation from `index` on.
pub open spec fn parts_from(
    module: ModuleView,
    env: Env,
    parts: Seq<ValueId>,
    index: int,
) -> Seq<bool> {
    concat_bits(Seq::new((parts.len() - index) as nat, |i: int| word_of(module, env, parts[index + i])))
}

impl<'m> WordLogicEncoder<'m> {
    pub open spec fn defines(&self, value: ValueId, kind: OpView) -> bool {
        &&& self.m().has(value)
        &&& self.m().kind(value) is Operation
        &&& self.m().operations[self.m().kind(value)->Operation_0.raw as int].kind == kind
    }

    /// Every value that must come first has been encoded.
    pub open spec fn deps_cached(&self, value: ValueId) -> bool {
        forall|dep: ValueId| #[trigger]
            self.is_dep(value, dep) ==> self.m().has(dep) && self.cached_spec(dep)
    }

    /// The reasons for which a value is not encoded.
    pub open spec fn refuses(&self, value: ValueId, error: SymbolicError) -> bool {
        ||| exhausted(self.nodes(), error)
        ||| error is Unsupported && unsupported(self.m(), self.ranges@, value.raw as int)
        ||| error == SymbolicError::Synthesis(SynthError::Capacity(Resource::Offset))
            && wide_offset(self.m(), value.raw as int)
    }

    /// What an encoding step owes.
    pub open spec fn step(
        &self,
        earlier: &Self,
        value: ValueId,
        result: Result<Vec<Lit>, SymbolicError>,
    ) -> bool {
        &&& self.wf()
        &&& self.continues(earlier)
        &&& self.opened(earlier)
        &&& self.values@ == earlier.values@
        &&& self.nodes().len() <= earlier.nodes().len() + value_cost(self.m(), value.raw as int)
        &&& match result {
            Ok(bits) => self.encodes(bits@, value.raw as int) && self.keeps_steady(bits@, value),
            Err(error) => self.refuses(value, error),
        }
    }

    /// The row of a value that was encoded.
    fn cached(&self, value: ValueId) -> (result: Result<Vec<Lit>, SymbolicError>)
        requires
            self.wf(),
            self.m().has(value),
        ensures
            result is Ok <==> self.cached_spec(value),
            result matches Ok(bits) ==> self.encodes(bits@, value.raw as int),
            result matches Ok(bits) ==> bits@ == self.values@[value.raw as int]->0@,
            result matches Err(error) ==> error == SymbolicError::Synthesis(
                SynthError::Invariant(Invariant::NotEncoded),
            ),
    {
        match &self.values[value.raw as usize] {
            Some(bits) => {
                assert(self.values@[value.raw as int] == Some(*bits));
                Ok(copy_lits(bits))
            },
            None => Err(SymbolicError::Synthesis(SynthError::Invariant(Invariant::NotEncoded))),
        }
    }

    /// The word of a defined value in terms of its operands.
    proof fn lemma_defined(&self, env: Env, value: ValueId, kind: OpView)
        requires
            self.m().wf(),
            self.defines(value, kind),
        ensures
            eval(self.m(), env, value.raw as int) == result_bits(
                self.m(),
                env,
                value.raw as int,
                kind,
                self.m().ty(value),
            ),
            self.m().op_typed(kind, self.m().ty(value)),
            self.m().inputs_below(kind, value.raw as int),
            self.m().ty(value).width >= 1,
    {
        lemma_eval_operation(self.m(), env, value.raw as int);
        assert(self.m().value_ok(value.raw as int));
        assert(self.m().operation_ok(self.m().kind(value)->Operation_0.raw as int));
    }

    /// What is known when an operation is reached.
    proof fn lemma_ready(&self, value: ValueId, kind: OpView)
        requires
            self.wf(),
            self.defines(value, kind),
            self.deps_cached(value),
        ensures
            self.m().op_typed(kind, self.m().ty(value)),
            self.m().ty(value).width >= 1,
            forall|i: int|
                0 <= i < op_inputs(kind).len() ==> self.m().has(#[trigger] op_inputs(kind)[i])
                    && self.cached_spec(op_inputs(kind)[i]) && self.m().ty(
                    op_inputs(kind)[i],
                ).width >= 1,
    {
        assert(self.m().value_ok(value.raw as int));
        assert(self.m().operation_ok(self.m().kind(value)->Operation_0.raw as int));
        let inputs = op_inputs(kind);
        assert forall|i: int| 0 <= i < inputs.len() implies self.m().has(#[trigger] inputs[i])
            && self.cached_spec(inputs[i]) && self.m().ty(inputs[i]).width >= 1 by {
            assert(inputs.contains(inputs[i]));
            assert(self.is_dep(value, inputs[i]));
            assert(self.m().value_ok(inputs[i].raw as int));
        }
    }

    /// A graph that grew under the same inputs keeps the encoder well formed.
    proof fn lemma_grown(&self, earlier: &Self)
        requires
            earlier.wf(),
            self.module == earlier.module,
            self.ranges == earlier.ranges,
            self.drivers == earlier.drivers,
            self.bound == earlier.bound,
            self.values == earlier.values,
            self.external_signals == earlier.external_signals,
            self.external_order == earlier.external_order,
            self.logic.wf(),
            keeps_values(earlier.nodes(), self.nodes()),
        ensures
            self.wf(),
            self.continues(earlier),
            self.opened(earlier),
            forall|env: Env, inputs: Inputs| #[trigger]
                self.admits(env, inputs) == earlier.admits(env, inputs),
    {
        self.lemma_context(earlier);
        self.lemma_wf(earlier);
    }

    fn unary(&mut self, value: ValueId, op: UnaryOp, arg: ValueId) -> (result: Result<
        Vec<Lit>,
        SymbolicError,
    >)
        requires
            old(self).wf(),
            old(self).defines(value, OpView::Unary { op, arg }),
            old(self).deps_cached(value),
        ensures
            final(self).step(old(self), value, result),
    {
        let ghost kind = OpView::Unary { op, arg };
        proof {
            lemma_keeps_values(self.nodes(), self.nodes());
            self.lemma_ready(value, kind);
            assert(op_inputs(kind)[0] == arg);
        }
        let bits = match self.cached(arg) {
            Ok(bits) => bits,
            Err(error) => return Err(error),
        };
        let ghost start = self.nodes();
        let reduced: Result<Lit, SymbolicError> = match op {
            UnaryOp::BitNot => {
                let result = super::arithmetic::invert(&bits);
                proof {
                    assert forall|i: int| 0 <= i < result@.len() implies (
                    #[trigger] result@[i]).node < start.len() by {
                        assert(bits@[i].node < start.len());
                    }
                    assert forall|env: Env, inputs: Inputs| #[trigger]
                        self.admits(env, inputs) implies lits_value(
                        self.nodes(),
                        inputs,
                        result@,
                    ) == eval(self.m(), env, value.raw as int) by {
                        self.lemma_defined(env, value, kind);
                        let word = lits_value(self.nodes(), inputs, bits@);
                        assert(word == word_of(self.m(), env, arg));
                        assert(lits_value(self.nodes(), inputs, result@) =~= unary_bits(op, word));
                    }
                }
                assert(result@ =~= inverse_row(bits@));
                return Ok(result);
            },
            UnaryOp::LogicalNot => match self.logic.reduce_or(&bits) {
                Ok(lit) => Ok(lit.inverted()),
                Err(error) => Err(error),
            },
            UnaryOp::ReductionAnd => self.logic.reduce_and(&bits),
            UnaryOp::ReductionOr => self.logic.reduce_or(&bits),
            UnaryOp::ReductionXor => self.logic.reduce_xor(&bits),
        };
        proof {
            self.lemma_grown(old(self));
        }
        let lit = match reduced {
            Ok(lit) => lit,
            Err(error) => return Err(error),
        };
        let mut result: Vec<Lit> = Vec::new();
        result.push(lit);
        proof {
            assert forall|env: Env, inputs: Inputs| #[trigger]
                self.admits(env, inputs) implies lits_value(self.nodes(), inputs, result@) == eval(
                self.m(),
                env,
                value.raw as int,
            ) by {
                self.lemma_defined(env, value, kind);
                assert(old(self).admits(env, inputs));
                let word = lits_value(start, inputs, bits@);
                assert(word == word_of(self.m(), env, arg));
                if op is LogicalNot {
                    assert(lit_value(self.nodes(), inputs, lit.inverse()) == any_bit(word));
                }
                assert(lits_value(self.nodes(), inputs, result@) =~= unary_bits(op, word));
            }
        }
        Ok(result)
    }

    /// Pointwise combination of two rows in the result's type.
    fn bitwise(&mut self, op: BinaryOp, left: &Vec<Lit>, right: &Vec<Lit>) -> (result: Result<
        Vec<Lit>,
        SymbolicError,
    >)
        requires
            old(self).wf(),
            op is BitAnd || op is BitOr || op is BitXor,
            lits_ok(old(self).nodes(), left@),
            lits_ok(old(self).nodes(), right@),
            left@.len() == right@.len(),
        ensures
            final(self).wf(),
            final(self).continues(old(self)),
            final(self).opened(old(self)),
            final(self).nodes().len() <= old(self).nodes().len() + 3 * left@.len(),
            result matches Ok(bits) ==> joined(op, left@, right@, bits@),
            final(self).values == old(self).values,
            final(self).external_order == old(self).external_order,
            final(self).external_signals == old(self).external_signals,
            forall|env: Env, inputs: Inputs| #[trigger]
                final(self).admits(env, inputs) == old(self).admits(env, inputs),
            result matches Err(error) ==> exhausted(final(self).nodes(), error),
            result matches Ok(bits) ==> {
                &&& bits@.len() == left@.len()
                &&& lits_ok(final(self).nodes(), bits@)
                &&& forall|inputs: Inputs, i: int|
                    0 <= i < bits@.len() ==> #[trigger] lit_value(
                        final(self).nodes(),
                        inputs,
                        bits@[i],
                    ) == bitwise(
                        op,
                        lit_value(old(self).nodes(), inputs, left@[i]),
                        lit_value(old(self).nodes(), inputs, right@[i]),
                    )
            },
    {
        let ghost start = self.nodes();
        proof {
            lemma_keeps_values(start, start);
        }
        let mut bits: Vec<Lit> = Vec::new();
        while bits.len() < left.len()
            invariant
                bits@.len() <= left@.len(),
                left@.len() == right@.len(),
                op is BitAnd || op is BitOr || op is BitXor,
                start == old(self).nodes(),
                self.wf(),
                self.continues(old(self)),
                self.opened(old(self)),
                self.nodes().len() <= start.len() + 3 * bits@.len(),
                joined(op, left@, right@, bits@),
                self.values == old(self).values,
                self.external_order == old(self).external_order,
                self.external_signals == old(self).external_signals,
                lits_ok(start, left@),
                lits_ok(start, right@),
                lits_ok(self.nodes(), bits@),
                forall|env: Env, inputs: Inputs| #[trigger]
                    self.admits(env, inputs) == old(self).admits(env, inputs),
                forall|inputs: Inputs, i: int|
                    0 <= i < bits@.len() ==> #[trigger] lit_value(self.nodes(), inputs, bits@[i])
                        == bitwise(
                        op,
                        lit_value(start, inputs, left@[i]),
                        lit_value(start, inputs, right@[i]),
                    ),
            decreases left.len() - bits.len(),
        {
            let ghost earlier = *self;
            let ghost previous = bits@;
            let index: usize = bits.len();
            assert(left@[index as int].node < start.len());
            assert(right@[index as int].node < start.len());
            let combined: Result<Lit, SymbolicError> = match op {
                BinaryOp::BitAnd => self.logic.and(left[index], right[index]),
                BinaryOp::BitOr => self.logic.or(left[index], right[index]),
                _ => self.logic.xor(left[index], right[index]),
            };
            proof {
                self.lemma_grown(&earlier);
            }
            let bit = match combined {
                Ok(lit) => lit,
                Err(error) => return Err(error),
            };
            bits.push(bit);
            proof {
                assert forall|inputs: Inputs, i: int|
                    0 <= i < bits@.len() implies #[trigger] lit_value(
                    self.nodes(),
                    inputs,
                    bits@[i],
                ) == bitwise(
                    op,
                    lit_value(start, inputs, left@[i]),
                    lit_value(start, inputs, right@[i]),
                ) by {
                    if i < index {
                        assert(bits@[i] == previous[i]);
                        assert(previous[i].node < earlier.nodes().len());
                    }
                }
            }
        }
        Ok(bits)
    }

    fn binary(&mut self, value: ValueId, op: BinaryOp, left: ValueId, right: ValueId, ty: WordType)
        -> (result: Result<Vec<Lit>, SymbolicError>)
        requires
            old(self).wf(),
            old(self).defines(value, OpView::Binary { op, left, right }),
            old(self).deps_cached(value),
            ty == old(self).m().ty(value),
        ensures
            final(self).step(old(self), value, result),
    {
        let ghost kind = OpView::Binary { op, left, right };
        proof {
            lemma_keeps_values(self.nodes(), self.nodes());
            self.lemma_ready(value, kind);
            assert(op_inputs(kind)[0] == left && op_inputs(kind)[1] == right);
        }
        let left_ty = self.module.values[left.raw as usize].ty;
        let right_ty = self.module.values[right.raw as usize].ty;
        let l = match self.cached(left) {
            Ok(bits) => bits,
            Err(error) => return Err(error),
        };
        let r = match self.cached(right) {
            Ok(bits) => bits,
            Err(error) => return Err(error),
        };
        let ghost start = self.nodes();
        let bits = match op {
            BinaryOp::Add | BinaryOp::Sub => {
                let subtract: bool = op == BinaryOp::Sub;
                let outcome = self.logic.add_sub(&l, left_ty, &r, right_ty, ty, subtract);
                proof {
                    self.lemma_grown(old(self));
                }
                match outcome {
                    Ok(bits) => bits,
                    Err(error) => return Err(error),
                }
            },
            BinaryOp::Mul => {
                let outcome = self.logic.multiply(&l, left_ty, &r, right_ty, ty);
                proof {
                    self.lemma_grown(old(self));
                }
                match outcome {
                    Ok(bits) => bits,
                    Err(error) => return Err(error),
                }
            },
            BinaryOp::Div | BinaryOp::Mod => {
                if ty.width == u32::MAX {
                    return Err(SymbolicError::Unsupported);
                }
                let remainder: bool = op == BinaryOp::Mod;
                let outcome = self.logic.divide(&l, left_ty, &r, right_ty, ty, remainder);
                proof {
                    self.lemma_grown(old(self));
                }
                match outcome {
                    Ok(bits) => bits,
                    Err(error) => return Err(error),
                }
            },
            BinaryOp::Lt | BinaryOp::Le | BinaryOp::Gt | BinaryOp::Ge => {
                let outcome = self.logic.compare(op, &l, left_ty, &r, right_ty, ty);
                proof {
                    self.lemma_grown(old(self));
                }
                match outcome {
                    Ok(bits) => bits,
                    Err(error) => return Err(error),
                }
            },
            BinaryOp::Shl | BinaryOp::Shr | BinaryOp::Ashr => {
                let outcome = self.logic.shift(op, &l, left_ty, &r, right_ty, ty);
                proof {
                    self.lemma_grown(old(self));
                }
                match outcome {
                    Ok(bits) => bits,
                    Err(error) => return Err(error),
                }
            },
            BinaryOp::BitAnd | BinaryOp::BitOr | BinaryOp::BitXor => {
                let lr = resize(&l, left_ty, ty);
                let rr = resize(&r, right_ty, ty);
                proof {
                    lemma_resize(start, l@, left_ty, ty, lr@);
                    lemma_resize(start, r@, right_ty, ty, rr@);
                    if left_ty.width == ty.width {
                        assert(lr@ =~= l@);
                    }
                    if right_ty.width == ty.width {
                        assert(rr@ =~= r@);
                    }
                }
                let bits = match self.bitwise(op, &lr, &rr) {
                    Ok(bits) => bits,
                    Err(error) => return Err(error),
                };
                proof {
                    assert forall|inputs: Inputs| #[trigger]
                        lits_value(self.nodes(), inputs, bits@) == binary_bits(
                            op,
                            lits_value(start, inputs, l@),
                            left_ty,
                            lits_value(start, inputs, r@),
                            right_ty,
                            ty,
                        ) by {
                        let lb = lits_value(start, inputs, lr@);
                        let rb = lits_value(start, inputs, rr@);
                        let row = lits_value(self.nodes(), inputs, bits@);
                        assert forall|i: int| 0 <= i < row.len() implies row[i] == bitwise(
                            op,
                            lb[i],
                            rb[i],
                        ) by {
                            assert(row[i] == lit_value(self.nodes(), inputs, bits@[i]));
                        }
                        assert(row =~= binary_bits(
                            op,
                            lits_value(start, inputs, l@),
                            left_ty,
                            lits_value(start, inputs, r@),
                            right_ty,
                            ty,
                        ));
                    }
                }
                bits
            },
            BinaryOp::LogicalAnd | BinaryOp::LogicalOr => {
                let outcome = self.logical(op, &l, &r);
                proof {
                    self.lemma_grown(old(self));
                }
                match outcome {
                    Ok(bits) => {
                        proof {
                            assert forall|inputs: Inputs| #[trigger]
                                lits_value(self.nodes(), inputs, bits@) == binary_bits(
                                    op,
                                    lits_value(start, inputs, l@),
                                    left_ty,
                                    lits_value(start, inputs, r@),
                                    right_ty,
                                    ty,
                                ) by {}
                        }
                        bits
                    },
                    Err(error) => return Err(error),
                }
            },
            BinaryOp::Eq | BinaryOp::Ne => {
                let compare_ty = WordType {
                    width: if left_ty.width >= right_ty.width {
                        left_ty.width
                    } else {
                        right_ty.width
                    },
                    signed: left_ty.signed && right_ty.signed,
                    state: ty.state,
                };
                assert(compare_ty == compare_type(left_ty, right_ty, ty));
                let lr = resize(&l, left_ty, compare_ty);
                let rr = resize(&r, right_ty, compare_ty);
                proof {
                    lemma_resize(start, l@, left_ty, compare_ty, lr@);
                    lemma_resize(start, r@, right_ty, compare_ty, rr@);
                }
                let differences = match self.bitwise(BinaryOp::BitXor, &lr, &rr) {
                    Ok(bits) => bits,
                    Err(error) => return Err(error),
                };
                let ghost middle = self.nodes();
                let ghost between = *self;
                let outcome = self.logic.reduce_or(&differences);
                proof {
                    self.lemma_grown(&between);
                }
                let different = match outcome {
                    Ok(lit) => lit,
                    Err(error) => return Err(error),
                };
                let answer = if op == BinaryOp::Ne {
                    different
                } else {
                    different.inverted()
                };
                let mut bits: Vec<Lit> = Vec::new();
                bits.push(answer);
                proof {
                    assert forall|inputs: Inputs| #[trigger]
                        lits_value(self.nodes(), inputs, bits@) == binary_bits(
                            op,
                            lits_value(start, inputs, l@),
                            left_ty,
                            lits_value(start, inputs, r@),
                            right_ty,
                            ty,
                        ) by {
                        let lb = lits_value(start, inputs, lr@);
                        let rb = lits_value(start, inputs, rr@);
                        let row = lits_value(middle, inputs, differences@);
                        assert forall|i: int| 0 <= i < row.len() implies row[i] == (lb[i]
                            != rb[i]) by {
                            assert(row[i] == lit_value(middle, inputs, differences@[i]));
                        }
                        assert(any_bit(row) == (lb != rb)) by {
                            if any_bit(row) {
                                let i = choose|i: int| 0 <= i < row.len() && row[i];
                                assert(lb[i] != rb[i]);
                            } else {
                                assert forall|i: int| 0 <= i < lb.len() implies lb[i] == rb[i] by {
                                    assert(!row[i]);
                                }
                                assert(lb =~= rb);
                            }
                        }
                        assert(lit_value(self.nodes(), inputs, different) == any_bit(row));
                        assert(lits_value(self.nodes(), inputs, bits@) =~= seq![
                            lit_value(self.nodes(), inputs, answer),
                        ]);
                    }
                }
                bits
            },
        };
        proof {
            let inputs = Inputs { value: |k: int| false };
            lemma_binary_width(
                op,
                lits_value(start, inputs, l@),
                left_ty,
                lits_value(start, inputs, r@),
                right_ty,
                ty,
            );
            assert(lits_value(self.nodes(), inputs, bits@).len() == bits@.len());
            assert forall|env: Env, inputs: Inputs| #[trigger]
                self.admits(env, inputs) implies lits_value(self.nodes(), inputs, bits@) == eval(
                self.m(),
                env,
                value.raw as int,
            ) by {
                self.lemma_defined(env, value, kind);
                assert(old(self).admits(env, inputs));
                assert(lits_value(start, inputs, l@) == word_of(self.m(), env, left));
                assert(lits_value(start, inputs, r@) == word_of(self.m(), env, right));
            }
        }
        Ok(bits)
    }

    fn logical(&mut self, op: BinaryOp, left: &Vec<Lit>, right: &Vec<Lit>) -> (result: Result<
        Vec<Lit>,
        SymbolicError,
    >)
        requires
            old(self).wf(),
            op is LogicalAnd || op is LogicalOr,
            lits_ok(old(self).nodes(), left@),
            lits_ok(old(self).nodes(), right@),
        ensures
            final(self).logic.wf(),
            keeps_values(old(self).nodes(), final(self).nodes()),
            final(self).nodes().len() <= old(self).nodes().len() + left@.len() + right@.len() + 1,
            result matches Ok(bits) ==> (constant_row(left@) && constant_row(right@) ==> constant_row(bits@)),
            *final(self) == (WordLogicEncoder { logic: final(self).logic, ..*old(self) }),
            result matches Err(error) ==> exhausted(final(self).nodes(), error),
            result matches Ok(bits) ==> {
                &&& bits@.len() == 1
                &&& lits_ok(final(self).nodes(), bits@)
                &&& forall|inputs: Inputs| #[trigger]
                    lits_value(final(self).nodes(), inputs, bits@) == seq![
                        if op is LogicalAnd {
                            any_bit(lits_value(old(self).nodes(), inputs, left@)) && any_bit(
                                lits_value(old(self).nodes(), inputs, right@),
                            )
                        } else {
                            any_bit(lits_value(old(self).nodes(), inputs, left@)) || any_bit(
                                lits_value(old(self).nodes(), inputs, right@),
                            )
                        },
                    ]
            },
    {
        let ghost start = self.nodes();
        let l = match self.logic.reduce_or(left) {
            Ok(lit) => lit,
            Err(error) => return Err(error),
        };
        let ghost middle = self.nodes();
        proof {
            assert forall|i: int| 0 <= i < right@.len() implies (#[trigger] right@[i]).node
                < middle.len() by {
                assert(right@[i].node < start.len());
            }
        }
        let r = match self.logic.reduce_or(right) {
            Ok(lit) => lit,
            Err(error) => return Err(error),
        };
        let ghost late = self.nodes();
        let combined: Result<Lit, SymbolicError> = if op == BinaryOp::LogicalAnd {
            self.logic.and(l, r)
        } else {
            self.logic.or(l, r)
        };
        let bit = match combined {
            Ok(lit) => lit,
            Err(error) => return Err(error),
        };
        let mut bits: Vec<Lit> = Vec::new();
        bits.push(bit);
        proof {
            assert forall|inputs: Inputs| #[trigger]
                lits_value(self.nodes(), inputs, bits@) == seq![
                    if op is LogicalAnd {
                        any_bit(lits_value(start, inputs, left@)) && any_bit(
                            lits_value(start, inputs, right@),
                        )
                    } else {
                        any_bit(lits_value(start, inputs, left@)) || any_bit(
                            lits_value(start, inputs, right@),
                        )
                    },
                ] by {
                lemma_lits_keep(start, middle, right@, inputs);
                assert(lit_value(late, inputs, l) == any_bit(lits_value(start, inputs, left@)));
                assert(lit_value(late, inputs, r) == any_bit(lits_value(start, inputs, right@)));
                assert(lits_value(self.nodes(), inputs, bits@) =~= seq![
                    lit_value(self.nodes(), inputs, bit),
                ]);
            }
        }
        Ok(bits)
    }

    fn mux(&mut self, value: ValueId, cond: ValueId, then_value: ValueId, else_value: ValueId)
        -> (result: Result<Vec<Lit>, SymbolicError>)
        requires
            old(self).wf(),
            old(self).defines(value, OpView::Mux { cond, then_value, else_value }),
            old(self).deps_cached(value),
        ensures
            final(self).step(old(self), value, result),
    {
        let ghost kind = OpView::Mux { cond, then_value, else_value };
        proof {
            lemma_keeps_values(self.nodes(), self.nodes());
            self.lemma_ready(value, kind);
            let inputs = op_inputs(kind);
            assert(inputs[0] == cond && inputs[1] == then_value && inputs[2] == else_value);
        }
        let c = match self.cached(cond) {
            Ok(bits) => bits,
            Err(error) => return Err(error),
        };
        let t = match self.cached(then_value) {
            Ok(bits) => bits,
            Err(error) => return Err(error),
        };
        let e = match self.cached(else_value) {
            Ok(bits) => bits,
            Err(error) => return Err(error),
        };
        let ghost start = self.nodes();
        assert(c@[0].node < start.len());
        let outcome = self.logic.select_rows(c[0], &t, &e);
        proof {
            self.lemma_grown(old(self));
        }
        let bits = match outcome {
            Ok(bits) => bits,
            Err(error) => return Err(error),
        };
        proof {
            assert forall|env: Env, inputs: Inputs| #[trigger]
                self.admits(env, inputs) implies lits_value(self.nodes(), inputs, bits@) == eval(
                self.m(),
                env,
                value.raw as int,
            ) by {
                self.lemma_defined(env, value, kind);
                assert(old(self).admits(env, inputs));
                assert(lits_value(start, inputs, c@) == word_of(self.m(), env, cond));
                assert(lits_value(start, inputs, t@) == word_of(self.m(), env, then_value));
                assert(lits_value(start, inputs, e@) == word_of(self.m(), env, else_value));
                assert(lits_value(start, inputs, c@)[0] == lit_value(start, inputs, c@[0]));
            }
        }
        Ok(bits)
    }

    fn concat(&mut self, value: ValueId, parts: &Vec<ValueId>) -> (result: Result<
        Vec<Lit>,
        SymbolicError,
    >)
        requires
            old(self).wf(),
            old(self).defines(value, OpView::Concat { parts: parts@ }),
            old(self).deps_cached(value),
        ensures
            final(self).step(old(self), value, result),
    {
        let ghost kind = OpView::Concat { parts: parts@ };
        proof {
            lemma_keeps_values(self.nodes(), self.nodes());
            self.lemma_ready(value, kind);
            assert(op_inputs(kind) == parts@);
        }
        let mut bits: Vec<Lit> = Vec::new();
        let mut index: usize = parts.len();
        proof {
            assert forall|env: Env, inputs: Inputs| #[trigger]
                self.admits(env, inputs) implies lits_value(self.nodes(), inputs, bits@)
                == parts_from(self.m(), env, parts@, index as int) by {
                assert(lits_value(self.nodes(), inputs, bits@) =~= seq![]);
            }
            assert(parts@.skip(index as int).len() == 0);
        }
        while index > 0
            invariant
                index <= parts@.len(),
                *self == *old(self),
                self.wf(),
                self.defines(value, kind),
                kind == (OpView::Concat { parts: parts@ }),
                op_inputs(kind) == parts@,
                forall|i: int|
                    0 <= i < op_inputs(kind).len() ==> self.m().has(#[trigger] op_inputs(kind)[i])
                        && self.cached_spec(op_inputs(kind)[i]) && self.m().ty(
                        op_inputs(kind)[i],
                    ).width >= 1,
                lits_ok(self.nodes(), bits@),
                constant_operands(self.values@, kind) ==> constant_row(bits@),
                bits@.len() == crate::word::module::parts_width(
                    self.m(),
                    parts@.skip(index as int),
                ),
                forall|env: Env, inputs: Inputs| #[trigger]
                    self.admits(env, inputs) ==> lits_value(self.nodes(), inputs, bits@)
                        == parts_from(self.m(), env, parts@, index as int),
            decreases index,
        {
            index -= 1;
            let ghost previous = bits@;
            assert(op_inputs(kind)[index as int] == parts@[index as int]);
            let mut part = match self.cached(parts[index]) {
                Ok(bits) => bits,
                Err(error) => return Err(error),
            };
            let ghost added = part@;
            bits.append(&mut part);
            proof {
                assert(bits@ =~= previous + added);
                let rest = parts@.skip(index as int);
                assert(rest.skip(1) =~= parts@.skip(index + 1));
                assert(rest[0] == parts@[index as int]);
                crate::word::semantics::lemma_parts_width_first(self.m(), rest);
                assert forall|i: int| 0 <= i < bits@.len() implies (#[trigger] bits@[i]).node
                    < self.nodes().len() by {
                    if i < previous.len() {
                        assert(previous[i].node < self.nodes().len());
                    } else {
                        assert(added[i - previous.len()].node < self.nodes().len());
                    }
                }
                assert forall|env: Env, inputs: Inputs| #[trigger]
                    self.admits(env, inputs) implies lits_value(self.nodes(), inputs, bits@)
                    == parts_from(self.m(), env, parts@, index as int) by {
                    let words = Seq::new(
                        (parts@.len() - index) as nat,
                        |i: int| word_of(self.m(), env, parts@[index + i]),
                    );
                    let later = Seq::new(
                        (parts@.len() - (index + 1)) as nat,
                        |i: int| word_of(self.m(), env, parts@[index + 1 + i]),
                    );
                    assert(words.skip(1) =~= later);
                    assert(lits_value(self.nodes(), inputs, previous) == concat_bits(later));
                    assert(lits_value(self.nodes(), inputs, added) == words[0]);
                    assert(lits_value(self.nodes(), inputs, bits@) =~= lits_value(
                        self.nodes(),
                        inputs,
                        previous,
                    ) + lits_value(self.nodes(), inputs, added));
                }
            }
        }
        proof {
            assert(parts@.skip(0) =~= parts@);
            assert forall|env: Env, inputs: Inputs| #[trigger]
                self.admits(env, inputs) implies lits_value(self.nodes(), inputs, bits@) == eval(
                self.m(),
                env,
                value.raw as int,
            ) by {
                self.lemma_defined(env, value, kind);
                let f = |operand: ValueId| word_of(self.m(), env, operand);
                assert(Seq::new(parts@.len(), |i: int| f(parts@[i])) =~= Seq::new(
                    (parts@.len() - 0) as nat,
                    |i: int| word_of(self.m(), env, parts@[0 + i]),
                ));
            }
        }
        Ok(bits)
    }

    fn extract(&mut self, value: ValueId, word: ValueId, lsb: u32, width: u32) -> (result: Result<
        Vec<Lit>,
        SymbolicError,
    >)
        requires
            old(self).wf(),
            old(self).defines(value, OpView::Extract { value: word, lsb, width }),
            old(self).deps_cached(value),
        ensures
            final(self).step(old(self), value, result),
    {
        let ghost kind = OpView::Extract { value: word, lsb, width };
        proof {
            lemma_keeps_values(self.nodes(), self.nodes());
            self.lemma_ready(value, kind);
            assert(op_inputs(kind)[0] == word);
        }
        let source = match self.cached(word) {
            Ok(bits) => bits,
            Err(error) => return Err(error),
        };
        let mut bits: Vec<Lit> = Vec::new();
        while bits.len() < width as usize
            invariant
                bits@.len() <= width,
                lsb + width <= source@.len(),
                source@.len() <= u32::MAX,
                forall|i: int| 0 <= i < bits@.len() ==> #[trigger] bits@[i] == source@[lsb + i],
            decreases width - bits.len(),
        {
            bits.push(source[lsb as usize + bits.len()]);
        }
        proof {
            assert forall|i: int| 0 <= i < bits@.len() implies (#[trigger] bits@[i]).node
                < self.nodes().len() by {
                assert(source@[lsb + i].node < self.nodes().len());
            }
            assert forall|env: Env, inputs: Inputs| #[trigger]
                self.admits(env, inputs) implies lits_value(self.nodes(), inputs, bits@) == eval(
                self.m(),
                env,
                value.raw as int,
            ) by {
                self.lemma_defined(env, value, kind);
                let whole = lits_value(self.nodes(), inputs, source@);
                assert(whole == word_of(self.m(), env, word));
                assert(lits_value(self.nodes(), inputs, bits@) =~= extract_bits(
                    whole,
                    lsb as int,
                    width as nat,
                ));
            }
        }
        Ok(bits)
    }

    fn cast(&mut self, value: ValueId, kind: CastKind, word: ValueId, target: WordType) -> (result:
        Result<Vec<Lit>, SymbolicError>)
        requires
            old(self).wf(),
            old(self).defines(value, OpView::Cast { kind, value: word, target }),
            old(self).deps_cached(value),
        ensures
            final(self).step(old(self), value, result),
    {
        let ghost view = OpView::Cast { kind, value: word, target };
        proof {
            lemma_keeps_values(self.nodes(), self.nodes());
            self.lemma_ready(value, view);
            assert(op_inputs(view)[0] == word);
        }
        let source = match self.cached(word) {
            Ok(bits) => bits,
            Err(error) => return Err(error),
        };
        let extension = if kind == CastKind::SignExtend {
            source[source.len() - 1]
        } else {
            Lit::constant(false)
        };
        let mut bits: Vec<Lit> = Vec::new();
        while bits.len() < target.width as usize
            invariant
                bits@.len() <= target.width,
                forall|i: int|
                    0 <= i < bits@.len() ==> #[trigger] bits@[i] == (if i < source@.len() {
                        source@[i]
                    } else {
                        extension
                    }),
            decreases target.width - bits.len(),
        {
            if bits.len() < source.len() {
                bits.push(source[bits.len()]);
            } else {
                bits.push(extension);
            }
        }
        proof {
            assert(source@[source@.len() - 1].node < self.nodes().len());
            assert forall|i: int| 0 <= i < bits@.len() implies (#[trigger] bits@[i]).node
                < self.nodes().len() by {
                if i < source@.len() {
                    assert(source@[i].node < self.nodes().len());
                }
            }
            assert forall|env: Env, inputs: Inputs| #[trigger]
                self.admits(env, inputs) implies lits_value(self.nodes(), inputs, bits@) == eval(
                self.m(),
                env,
                value.raw as int,
            ) by {
                self.lemma_defined(env, value, view);
                let whole = lits_value(self.nodes(), inputs, source@);
                assert(whole == word_of(self.m(), env, word));
                lemma_constant_value(self.nodes(), inputs, false);
                assert(lits_value(self.nodes(), inputs, bits@) =~= cast_bits(kind, whole, target));
            }
        }
        Ok(bits)
    }

    fn dynamic_extract(&mut self, value: ValueId, word: ValueId, offset: ValueId, width: u32)
        -> (result: Result<Vec<Lit>, SymbolicError>)
        requires
            old(self).wf(),
            old(self).defines(value, OpView::DynamicExtract { value: word, offset, width }),
            old(self).deps_cached(value),
        ensures
            final(self).step(old(self), value, result),
    {
        let ghost kind = OpView::DynamicExtract { value: word, offset, width };
        proof {
            lemma_keeps_values(self.nodes(), self.nodes());
            self.lemma_ready(value, kind);
            assert(op_inputs(kind)[0] == word && op_inputs(kind)[1] == offset);
        }
        let max_offset: u128 = match self.ranges[offset.raw as usize] {
            Some(max_offset) => max_offset,
            None => return Err(SymbolicError::Unsupported),
        };
        let source = match self.cached(word) {
            Ok(bits) => bits,
            Err(error) => return Err(error),
        };
        let amount = match self.cached(offset) {
            Ok(bits) => bits,
            Err(error) => return Err(error),
        };
        let ghost start = self.nodes();
        assert(self.ranges@[offset.raw as int] is Some);
        let outcome = self.logic.dynamic_extract(&source, &amount, width as usize, max_offset);
        proof {
            self.lemma_grown(old(self));
        }
        let bits = match outcome {
            Ok(bits) => bits,
            Err(error) => return Err(error),
        };
        proof {
            assert forall|env: Env, inputs: Inputs| #[trigger]
                self.admits(env, inputs) implies lits_value(self.nodes(), inputs, bits@) == eval(
                self.m(),
                env,
                value.raw as int,
            ) by {
                self.lemma_defined(env, value, kind);
                assert(old(self).admits(env, inputs));
                assert(lits_value(start, inputs, source@) == word_of(self.m(), env, word));
                assert(lits_value(start, inputs, amount@) == word_of(self.m(), env, offset));
                assert(nat_of(eval(self.m(), env, offset.raw as int)) <= max_offset);
            }
        }
        Ok(bits)
    }

    fn dynamic_insert(
        &mut self,
        value: ValueId,
        word: ValueId,
        offset: ValueId,
        replacement: ValueId,
    ) -> (result: Result<Vec<Lit>, SymbolicError>)
        requires
            old(self).wf(),
            old(self).defines(value, OpView::DynamicInsert { value: word, offset, replacement }),
            old(self).deps_cached(value),
        ensures
            final(self).step(old(self), value, result),
    {
        let ghost kind = OpView::DynamicInsert { value: word, offset, replacement };
        proof {
            lemma_keeps_values(self.nodes(), self.nodes());
            self.lemma_ready(value, kind);
            let inputs = op_inputs(kind);
            assert(inputs[0] == word && inputs[1] == offset && inputs[2] == replacement);
        }
        let source = match self.cached(word) {
            Ok(bits) => bits,
            Err(error) => return Err(error),
        };
        let amount = match self.cached(offset) {
            Ok(bits) => bits,
            Err(error) => return Err(error),
        };
        let inserted = match self.cached(replacement) {
            Ok(bits) => bits,
            Err(error) => return Err(error),
        };
        let ghost start = self.nodes();
        let outcome = self.logic.dynamic_insert(&source, &amount, &inserted);
        proof {
            self.lemma_grown(old(self));
        }
        let bits = match outcome {
            Ok(bits) => bits,
            Err(error) => return Err(error),
        };
        proof {
            let inputs = Inputs { value: |k: int| false };
            assert(lits_value(self.nodes(), inputs, bits@).len() == bits@.len());
            assert forall|env: Env, inputs: Inputs| #[trigger]
                self.admits(env, inputs) implies lits_value(self.nodes(), inputs, bits@) == eval(
                self.m(),
                env,
                value.raw as int,
            ) by {
                self.lemma_defined(env, value, kind);
                assert(old(self).admits(env, inputs));
                assert(lits_value(start, inputs, source@) == word_of(self.m(), env, word));
                assert(lits_value(start, inputs, amount@) == word_of(self.m(), env, offset));
                assert(lits_value(start, inputs, inserted@) == word_of(self.m(), env, replacement));
            }
        }
        Ok(bits)
    }
}

/// The work list of the encoder: values to encode, and values whose operands
/// have been listed above them.
pub struct Pending {
    pub value: ValueId,
    pub exiting: bool,
}

impl<'m> WordLogicEncoder<'m> {
    fn is_bound(&self, signal: SignalId) -> (bound: bool)
        ensures
            bound == (self.bound matches Some(b) && b.signal == signal),
    {
        match &self.bound {
            Some(bound) => bound.signal == signal,
            None => false,
        }
    }

    /// The value bits through which a reference is read, if it is.
    fn reference_bits(&self, reference: SignalRef) -> (bits: Option<Vec<ValueBit>>)
        requires
            self.wf(),
            self.m().signal_ref_ok(reference),
        ensures
            bits is Some <==> self.follows(reference),
            bits matches Some(found) ==> found@.len() == reference.width && forall|i: int|
                0 <= i < found@.len() ==> Some(#[trigger] found@[i]) == self.drivers->0.driver_at(
                    reference,
                    i,
                ),
    {
        if self.is_bound(reference.signal) {
            return None;
        }
        match self.drivers {
            Some(drivers) => {
                assert(drivers.bits@[reference.signal.raw as int]@.len()
                    == self.m().signals[reference.signal.raw as int].ty.width);
                drivers.resolve_reference(reference)
            },
            None => None,
        }
    }

    /// The values through which a reference is read, if it is.
    fn reference_drivers(&self, reference: SignalRef) -> (values: Option<Vec<ValueId>>)
        requires
            self.wf(),
            self.m().signal_ref_ok(reference),
        ensures
            values is Some <==> self.follows(reference),
            values matches Some(found) ==> forall|dep: ValueId|
                self.drivers->0.drives(reference, dep) == #[trigger] found@.contains(dep),
    {
        if self.is_bound(reference.signal) {
            return None;
        }
        match self.drivers {
            Some(drivers) => {
                assert(drivers.bits@[reference.signal.raw as int]@.len()
                    == self.m().signals[reference.signal.raw as int].ty.width);
                let found = drivers.reference_drivers(reference);
                proof {
                    if found is Some {
                        let values = found->0;
                        assert forall|dep: ValueId|
                            drivers.drives(reference, dep) == #[trigger] values@.contains(dep) by {
                            if values@.contains(dep) {
                                let k = choose|k: int| 0 <= k < values@.len() && values@[k] == dep;
                                assert(drivers.drives(reference, values@[k]));
                            }
                        }
                    }
                }
                found
            },
            None => None,
        }
    }

    /// A driver of a reference is a bit of an existing value.
    proof fn lemma_driver(&self, reference: SignalRef, i: int)
        requires
            self.wf(),
            self.m().signal_ref_ok(reference),
            self.drivers is Some,
            0 <= i < reference.width,
        ensures
            self.drivers->0.driver_at(reference, i) == bit_driver(
                self.m(),
                reference.signal,
                reference.lsb + i,
            ),
            self.drivers->0.driver_at(reference, i) matches Some(driver) ==> self.m().has(
                driver.value,
            ) && driver.bit < self.m().ty(driver.value).width,
    {
        let drivers = self.drivers->0;
        let s = reference.signal.raw as int;
        assert(drivers.bits@[s]@[reference.lsb + i] == bit_driver(
            self.m(),
            SignalId { raw: s as u32 },
            reference.lsb + i,
        ));
        lemma_folded_driver(
            self.m(),
            reference.signal,
            reference.lsb + i,
            self.m().connects.len(),
        );
    }

    /// Encodes a value whose operands have been encoded.
    fn encode_value(&mut self, id: ValueId) -> (result: Result<Vec<Lit>, SymbolicError>)
        requires
            old(self).wf(),
            old(self).m().has(id),
            old(self).deps_cached(id),
        ensures
            final(self).step(old(self), id, result),
    {
        proof {
            lemma_keeps_values(self.nodes(), self.nodes());
            assert(self.m().value_ok(id.raw as int));
        }
        let module: &'m WordModule = self.module;
        let stored = &module.values[id.raw as usize];
        assert(stored@ == self.m().values[id.raw as int]);
        let ty = stored.ty;
        match &stored.kind {
            ValueKind::Signal(reference) => self.encode_signal(id, *reference),
            ValueKind::Constant(constant) => self.encode_constant(id, constant),
            ValueKind::Operation(operation) => {
                let kind = &module.operations[operation.raw as usize].kind;
                assert(kind@ == self.m().operations[operation.raw as int].kind);
                assert(self.defines(id, kind@));
                match kind {
                    OpKind::Unary { op, arg } => self.unary(id, *op, *arg),
                    OpKind::Binary { op, left, right } => self.binary(id, *op, *left, *right, ty),
                    OpKind::Mux { cond, then_value, else_value } => self.mux(
                        id,
                        *cond,
                        *then_value,
                        *else_value,
                    ),
                    OpKind::Concat { parts } => self.concat(id, parts),
                    OpKind::Extract { value, lsb, width } => self.extract(id, *value, *lsb, *width),
                    OpKind::DynamicExtract { value, offset, width } => self.dynamic_extract(
                        id,
                        *value,
                        *offset,
                        *width,
                    ),
                    OpKind::DynamicInsert { value, offset, replacement } => self.dynamic_insert(
                        id,
                        *value,
                        *offset,
                        *replacement,
                    ),
                    OpKind::Cast { kind: cast, value, target } => self.cast(
                        id,
                        *cast,
                        *value,
                        *target,
                    ),
                    OpKind::TriState { .. } => Err(SymbolicError::Unsupported),
                    OpKind::Register(_) => Err(SymbolicError::Unsupported),
                    OpKind::Latch(_) => Err(SymbolicError::Unsupported),
                }
            },
        }
    }

    fn encode_constant(&mut self, id: ValueId, constant: &ConstBits) -> (result: Result<
        Vec<Lit>,
        SymbolicError,
    >)
        requires
            old(self).wf(),
            old(self).m().has(id),
            old(self).m().kind(id) == KindView::Constant(constant@),
        ensures
            final(self).step(old(self), id, result),
    {
        proof {
            lemma_keeps_values(self.nodes(), self.nodes());
            assert(self.m().value_ok(id.raw as int));
        }
        let mut bits: Vec<Lit> = Vec::new();
        while bits.len() < constant.bits.len()
            invariant
                bits@.len() <= constant@.len(),
                *self == *old(self),
                self.wf(),
                self.continues(old(self)),
                self.opened(old(self)),
                self.m().kind(id) == KindView::Constant(constant@),
                forall|i: int|
                    0 <= i < bits@.len() ==> bit_lsb(constant@, i).known() && #[trigger] bits@[i]
                        == Lit::constant_spec(bit_lsb(constant@, i) is One),
            decreases constant.bits.len() - bits.len(),
        {
            let ghost previous = bits@;
            let bit = constant.bits[constant.bits.len() - 1 - bits.len()];
            assert(bit == bit_lsb(constant@, previous.len() as int));
            match bit {
                BitVal::Zero => {
                    bits.push(Lit::constant(false));
                },
                BitVal::One => {
                    bits.push(Lit::constant(true));
                },
                _ => {
                    assert(!constant@[constant@.len() - 1 - bits@.len()].known());
                    return Err(SymbolicError::Unsupported);
                },
            }
            assert forall|i: int| 0 <= i < bits@.len() implies bit_lsb(constant@, i).known()
                && #[trigger] bits@[i] == Lit::constant_spec(bit_lsb(constant@, i) is One) by {
                if i < previous.len() {
                    assert(bits@[i] == previous[i]);
                }
            }
        }
        proof {
            assert forall|env: Env, inputs: Inputs| #[trigger]
                self.admits(env, inputs) implies lits_value(self.nodes(), inputs, bits@) == eval(
                self.m(),
                env,
                id.raw as int,
            ) by {
                lemma_constant_value(self.nodes(), inputs, true);
                lemma_constant_value(self.nodes(), inputs, false);
                assert(lits_value(self.nodes(), inputs, bits@) =~= constant_value(
                    constant@,
                    env,
                    id.raw as int,
                ));
            }
        }
        assert(bits@ =~= word_row(known_word(constant@)));
        Ok(bits)
    }

    fn encode_signal(&mut self, id: ValueId, reference: SignalRef) -> (result: Result<
        Vec<Lit>,
        SymbolicError,
    >)
        requires
            old(self).wf(),
            old(self).m().has(id),
            old(self).m().kind(id) == KindView::Signal(reference),
            old(self).deps_cached(id),
        ensures
            final(self).step(old(self), id, result),
    {
        proof {
            lemma_keeps_values(self.nodes(), self.nodes());
            assert(self.m().value_ok(id.raw as int));
        }
        if let Some(driver_bits) = self.reference_bits(reference) {
            let mut bits: Vec<Lit> = Vec::new();
            while bits.len() < driver_bits.len()
                invariant
                    bits@.len() <= driver_bits@.len(),
                    driver_bits@.len() == reference.width,
                    *self == *old(self),
                    self.wf(),
                    self.continues(old(self)),
                    self.opened(old(self)),
                    self.m().has(id),
                    self.m().kind(id) == KindView::Signal(reference),
                    self.m().signal_ref_ok(reference),
                    self.deps_cached(id),
                    self.follows(reference),
                    forall|i: int|
                        0 <= i < driver_bits@.len() ==> Some(#[trigger] driver_bits@[i])
                            == self.drivers->0.driver_at(reference, i),
                    lits_ok(self.nodes(), bits@),
                    forall|i: int|
                        0 <= i < bits@.len() ==> #[trigger] bits@[i]
                            == self.values@[self.drivers->0.driver_at(
                            reference,
                            i,
                        )->0.value.raw as int]->0@[self.drivers->0.driver_at(
                            reference,
                            i,
                        )->0.bit as int],
                    forall|i: int|
                        0 <= i < bits@.len() ==> self.carries(
                            #[trigger] bits@[i],
                            reference.signal,
                            reference.lsb + i,
                        ),
                decreases driver_bits.len() - bits.len(),
            {
                let index: usize = bits.len();
                let driver = driver_bits[index];
                proof {
                    self.lemma_driver(reference, index as int);
                    assert(Some(driver_bits@[index as int]) == self.drivers->0.driver_at(
                        reference,
                        index as int,
                    ));
                    assert(self.drivers->0.drives(reference, driver.value));
                    assert(self.is_dep(id, driver.value));
                }
                let cached = match self.cached(driver.value) {
                    Ok(bits) => bits,
                    Err(error) => return Err(error),
                };
                let literal = cached[driver.bit as usize];
                proof {
                    assert(cached@[driver.bit as int].node < self.nodes().len());
                    assert forall|env: Env, inputs: Inputs| #[trigger]
                        self.admits(env, inputs) implies lit_value(self.nodes(), inputs, literal)
                        == (env.signal)(
                        reference.signal.raw as int,
                        reference.lsb + index,
                    ) by {
                        assert(driven(self.m(), env));
                        assert(bit_driver(
                            self.m(),
                            reference.signal,
                            reference.lsb + index,
                        ) == Some(driver));
                        let word = lits_value(self.nodes(), inputs, cached@);
                        assert(word == eval(self.m(), env, driver.value.raw as int));
                        assert(word[driver.bit as int] == lit_value(
                            self.nodes(),
                            inputs,
                            cached@[driver.bit as int],
                        ));
                    }
                    assert(self.carries(literal, reference.signal, reference.lsb + index));
                }
                bits.push(literal);
            }
            proof {
                self.lemma_reference(id, reference, bits@);
            }
            return Ok(bits);
        }
        let mut bits: Vec<Lit> = Vec::new();
        while bits.len() < reference.width as usize
            invariant
                bits@.len() <= reference.width,
                self.wf(),
                self.continues(old(self)),
                self.opened(old(self)),
                self.values@ == old(self).values@,
                self.m().has(id),
                self.m().kind(id) == KindView::Signal(reference),
                self.m().signal_ref_ok(reference),
                lits_ok(self.nodes(), bits@),
                self.nodes().len() <= old(self).nodes().len() + bits@.len(),
                !old(self).follows(reference),
                self.bound_signal() == Some(reference.signal) ==> constant_row(bits@),
                self.bound_signal() != Some(reference.signal) ==> forall|i: int|
                    0 <= i < bits@.len() ==> #[trigger] bits@[i] == external_lit(
                        self.external_signals@,
                        reference.signal,
                        reference.lsb + i,
                    ) && self.external_signals@.dom().contains(
                        signal_key(reference.signal, (reference.lsb + i) as u32),
                    ),
                forall|i: int|
                    0 <= i < bits@.len() ==> self.carries(
                        #[trigger] bits@[i],
                        reference.signal,
                        reference.lsb + i,
                    ),
            decreases reference.width - bits.len(),
        {
            let ghost earlier = *self;
            let ghost previous = bits@;
            let index: u32 = bits.len() as u32;
            proof {
                assert(self.bound_signal() != Some(reference.signal) ==> open_read(
                    self.m(),
                    self.drivers,
                    id.raw as int,
                    reference.signal,
                    reference.lsb + index,
                ));
            }
            let literal = match self.signal(reference.signal, reference.lsb + index) {
                Ok(lit) => lit,
                Err(error) => return Err(error),
            };
            bits.push(literal);
            proof {
                assert forall|i: int| 0 <= i < bits@.len() implies self.carries(
                    #[trigger] bits@[i],
                    reference.signal,
                    reference.lsb + i,
                ) by {
                    if i < index {
                        assert(bits@[i] == previous[i]);
                        assert(earlier.carries(
                            previous[i],
                            reference.signal,
                            reference.lsb + i,
                        ));
                        self.lemma_carries(
                            &earlier,
                            previous[i],
                            reference.signal,
                            reference.lsb + i,
                        );
                    }
                }
                assert(lits_ok(self.nodes(), bits@));
            }
        }
        proof {
            self.lemma_reference(id, reference, bits@);
        }
        Ok(bits)
    }

    /// Literals that carry the bits of a reference encode its value.
    proof fn lemma_reference(&self, id: ValueId, reference: SignalRef, bits: Seq<Lit>)
        requires
            self.wf(),
            self.m().has(id),
            self.m().kind(id) == KindView::Signal(reference),
            bits.len() == reference.width,
            forall|i: int|
                0 <= i < bits.len() ==> self.carries(
                    #[trigger] bits[i],
                    reference.signal,
                    reference.lsb + i,
                ),
        ensures
            self.encodes(bits, id.raw as int),
    {
        assert(self.m().value_ok(id.raw as int));
        assert forall|env: Env, inputs: Inputs| #[trigger]
            self.admits(env, inputs) implies lits_value(self.nodes(), inputs, bits) == eval(
            self.m(),
            env,
            id.raw as int,
        ) by {
            assert forall|i: int| 0 <= i < bits.len() implies lit_value(
                self.nodes(),
                inputs,
                bits[i],
            ) == (env.signal)(reference.signal.raw as int, reference.lsb + i) by {
                assert(self.carries(bits[i], reference.signal, reference.lsb + i));
            }
            assert(lits_value(self.nodes(), inputs, bits) =~= eval(self.m(), env, id.raw as int));
        }
    }

    /// Reasons for which a value is not encoded: the graph is full, or something that it
    /// waits for stops it.
    pub open spec fn stops(&self, root: ValueId, error: SymbolicError) -> bool {
        ||| exhausted(self.nodes(), error)
        ||| blocked(self.m(), self.ranges@, self.drivers, self.bound_signal(), root, error)
    }

    /// An entry of the work list was put there as an operand of the nearest waiting
    /// one below it.
    pub open spec fn hangs_on(&self, pending: Seq<Pending>, p: int, q: int) -> bool {
        &&& 0 <= p < q
        &&& pending[p].exiting
        &&& forall|r: int| p < r < q ==> !(#[trigger] pending[r]).exiting
        &&& self.plain(pending[p].value)
        &&& self.is_dep(pending[p].value, pending[q].value)
    }

    /// A value that keeps no state.
    pub open spec fn plain(&self, value: ValueId) -> bool {
        &&& self.m().has(value)
        &&& match self.m().kind(value) {
            KindView::Operation(operation) => {
                let kind = self.m().operations[operation.raw as int].kind;
                !(kind is Register) && !(kind is Latch)
            },
            _ => true,
        }
    }

    /// The waiting entries of the work list are a walk along operands.
    pub open spec fn chained(&self, pending: Seq<Pending>) -> bool {
        forall|q: int| 0 < q < pending.len() ==> #[trigger] self.hangs(pending, q)
    }

    pub open spec fn hangs(&self, pending: Seq<Pending>, q: int) -> bool {
        exists|p: int| #[trigger] self.hangs_on(pending, p, q)
    }

    proof fn lemma_chained_less(&self, pending: Seq<Pending>)
        requires
            self.chained(pending),
            pending.len() > 0,
        ensures
            self.chained(pending.drop_last()),
    {
        let rest = pending.drop_last();
        assert forall|q: int| 0 < q < rest.len() implies #[trigger] self.hangs(rest, q) by {
            assert(self.hangs(pending, q));
            let p = choose|p: int| #[trigger] self.hangs_on(pending, p, q);
            assert(self.hangs_on(rest, p, q));
        }
    }

    proof fn lemma_chained_later(&self, earlier: &Self, pending: Seq<Pending>)
        requires
            self.continues(earlier),
            earlier.chained(pending),
        ensures
            self.chained(pending),
    {
        assert forall|q: int| 0 < q < pending.len() implies #[trigger] self.hangs(pending, q) by {
            assert(earlier.hangs(pending, q));
            let p = choose|p: int| #[trigger] earlier.hangs_on(pending, p, q);
            assert(self.hangs_on(pending, p, q));
        }
    }

    proof fn lemma_chained_more(&self, pending: Seq<Pending>, next: Seq<Pending>)
        requires
            self.chained(pending),
            pending.len() > 0,
            self.plain(pending.last().value),
            next.len() >= pending.len(),
            forall|i: int| 0 <= i < pending.len() - 1 ==> #[trigger] next[i] == pending[i],
            next[pending.len() - 1] == (Pending { value: pending.last().value, exiting: true }),
            forall|i: int|
                pending.len() <= i < next.len() ==> !(#[trigger] next[i]).exiting && self.is_dep(
                    pending.last().value,
                    next[i].value,
                ),
        ensures
            self.chained(next),
    {
        let last = pending.len() - 1;
        assert forall|q: int| 0 < q < next.len() implies #[trigger] self.hangs(next, q) by {
            if q <= last {
                assert(self.hangs(pending, q));
                let p = choose|p: int| #[trigger] self.hangs_on(pending, p, q);
                assert forall|r: int| p < r < q implies !(#[trigger] next[r]).exiting by {
                    assert(next[r] == pending[r]);
                }
                assert(next[p] == pending[p]);
                assert(next[q].value == pending[q].value);
                assert(self.hangs_on(next, p, q));
            } else {
                assert(self.is_dep(pending.last().value, next[q].value));
                assert(self.hangs_on(next, last, q));
            }
        }
    }

    /// The walk from a waiting entry of the work list to one above it.
    proof fn lemma_chain_walk(&self, pending: Seq<Pending>, from: int, to: int) -> (walk: Seq<
        ValueId,
    >)
        requires
            self.chained(pending),
            0 <= from < to < pending.len(),
            pending[from].exiting,
        ensures
            reads_along(self.m(), self.drivers, self.bound_signal(), walk),
            walk.len() >= 2,
            walk[0] == pending[from].value,
            walk.last() == pending[to].value,
        decreases to,
    {
        assert(self.hangs(pending, to));
        let p = choose|p: int| #[trigger] self.hangs_on(pending, p, to);
        if p < from {
            assert(!pending[from].exiting);
        }
        assert(reads(
            self.m(),
            self.drivers,
            self.bound_signal(),
            pending[p].value,
            pending[to].value,
        ));
        if p == from {
            seq![pending[from].value, pending[to].value]
        } else {
            let below = self.lemma_chain_walk(pending, from, p);
            lemma_walk_on(
                self.m(),
                self.drivers,
                self.bound_signal(),
                below,
                seq![pending[p].value, pending[to].value],
            );
            let walk = below + seq![pending[p].value, pending[to].value].skip(1);
            walk
        }
    }

    /// The walk from the bottom of the work list to an entry.
    proof fn lemma_root_walk(&self, pending: Seq<Pending>, to: int) -> (walk: Seq<ValueId>)
        requires
            self.chained(pending),
            0 <= to < pending.len(),
        ensures
            reads_along(self.m(), self.drivers, self.bound_signal(), walk),
            walk[0] == pending[0].value,
            walk.last() == pending[to].value,
        decreases to,
    {
        if to == 0 {
            seq![pending[0].value]
        } else {
            assert(self.hangs(pending, to));
            let p = choose|p: int| #[trigger] self.hangs_on(pending, p, to);
            let below = self.lemma_root_walk(pending, p);
            let step = seq![pending[p].value, pending[to].value];
            assert(reads(
                self.m(),
                self.drivers,
                self.bound_signal(),
                pending[p].value,
                pending[to].value,
            ));
            lemma_walk_on(self.m(), self.drivers, self.bound_signal(), below, step);
            below + step.skip(1)
        }
    }

    /// What stops the top of the work list stops its bottom.
    proof fn lemma_blocked(&self, pending: Seq<Pending>, value: ValueId, error: SymbolicError)
        requires
            self.chained(pending),
            pending.len() > 0,
            pending.last().value == value,
            self.m().has(value),
            self.refuses(value, error),
        ensures
            self.stops(pending[0].value, error),
    {
        if !exhausted(self.nodes(), error) {
            let walk = self.lemma_root_walk(pending, pending.len() - 1);
            assert(balks(self.m(), self.ranges@, walk.last(), error));
        }
    }

    pub open spec fn listed(&self, pending: Seq<Pending>, root: ValueId) -> bool {
        self.cached_spec(root) || exists|p: int|
            0 <= p < pending.len() && (#[trigger] pending[p]).value == root
    }

    /// Operands of a value on the work list are encoded or listed above it.
    pub open spec fn covered(&self, pending: Seq<Pending>, p: int) -> bool {
        forall|dep: ValueId| #[trigger]
            self.is_dep(pending[p].value, dep) ==> self.m().has(dep) && (self.cached_spec(dep)
                || exists|q: int| p < q < pending.len() && (#[trigger] pending[q]).value == dep)
    }

    /// A value that is encoded after its operands.
    pub open spec fn expands(&self, value: ValueId) -> bool {
        match self.m().kind(value) {
            KindView::Signal(reference) => self.follows(reference),
            KindView::Constant(_) => false,
            KindView::Operation(_) => true,
        }
    }

    pub open spec fn work_ok(
        &self,
        pending: Seq<Pending>,
        active: Set<u64>,
        touched: Set<int>,
    ) -> bool {
        &&& forall|p: int| 0 <= p < pending.len() ==> self.m().has((#[trigger] pending[p]).value)
        &&& forall|p: int|
            0 <= p < pending.len() && (#[trigger] pending[p]).exiting ==> active.contains(
                pending[p].value.raw as u64,
            ) && self.covered(pending, p)
        &&& forall|x: u64| #[trigger]
            active.contains(x) ==> x < self.m().values.len() && self.values@[x as int] is None
                && self.expands(ValueId { raw: x as u32 }) && exists|p: int|
                0 <= p < pending.len() && (#[trigger] pending[p]).exiting && pending[p].value.raw
                    == x
        &&& forall|p: int, q: int|
            0 <= p < q < pending.len() && (#[trigger] pending[p]).exiting && (
            #[trigger] pending[q]).exiting ==> pending[p].value != pending[q].value
        &&& forall|p: int, q: int|
            0 <= p < q < pending.len() && (#[trigger] pending[p]).exiting && self.drivers is None
                ==> (#[trigger] pending[q]).value.raw < pending[p].value.raw
        &&& forall|x: int| #[trigger]
            touched.contains(x) ==> 0 <= x < self.m().values.len() && (self.values@[x] is Some
                || active.contains(x as u64))
        &&& touched.finite()
    }
}

impl<'m> WordLogicEncoder<'m> {
    /// The top of the work list has been encoded and goes.
    proof fn lemma_work_done(
        &self,
        earlier: &Self,
        pending: Seq<Pending>,
        active: Set<u64>,
        left: Set<u64>,
        touched: Set<int>,
        root: ValueId,
    )
        requires
            earlier.work_ok(pending, active, touched),
            earlier.listed(pending, root),
            pending.len() > 0,
            self.continues(earlier),
            self.values@.len() == earlier.values@.len(),
            earlier.m().has(root),
            earlier.values@.len() == earlier.m().values.len(),
            earlier.m().values.len() <= u32::MAX,
            self.values@[pending.last().value.raw as int] is Some,
            forall|x: int|
                0 <= x < self.values@.len() && x != pending.last().value.raw
                    ==> #[trigger] self.values@[x] == earlier.values@[x],
            pending.last().exiting ==> left == active.remove(pending.last().value.raw as u64),
            !pending.last().exiting ==> left == active && !active.contains(
                pending.last().value.raw as u64,
            ),
        ensures
            self.work_ok(pending.drop_last(), left, touched),
            self.listed(pending.drop_last(), root),
    {
        let rest = pending.drop_last();
        let top = pending.last();
        let last = pending.len() - 1;
        assert forall|p: int| 0 <= p < rest.len() implies self.m().has(
            (#[trigger] rest[p]).value,
        ) by {
            assert(rest[p] == pending[p]);
        }
        assert forall|p: int|
            0 <= p < rest.len() && (#[trigger] rest[p]).exiting implies left.contains(
            rest[p].value.raw as u64,
        ) && self.covered(rest, p) by {
            assert(rest[p] == pending[p]);
            assert(pending[p].exiting);
            assert(earlier.covered(pending, p));
            if top.exiting {
                assert(pending[last].exiting);
                assert(pending[p].value != pending[last].value);
            }
            assert forall|dep: ValueId| #[trigger]
                self.is_dep(rest[p].value, dep) implies self.m().has(dep) && (self.cached_spec(dep)
                || exists|q: int| p < q < rest.len() && (#[trigger] rest[q]).value == dep) by {
                assert(earlier.is_dep(pending[p].value, dep));
                if !self.cached_spec(dep) {
                    assert(dep != top.value);
                    assert(!earlier.cached_spec(dep));
                    let q = choose|q: int|
                        p < q < pending.len() && (#[trigger] pending[q]).value == dep;
                    assert(q != last);
                    assert(rest[q] == pending[q]);
                }
            }
        }
        assert forall|x: u64| #[trigger] left.contains(x) implies x < self.m().values.len()
            && self.values@[x as int] is None && self.expands(ValueId { raw: x as u32 }) && exists|
            p: int,
        |
            0 <= p < rest.len() && (#[trigger] rest[p]).exiting && rest[p].value.raw == x by {
            assert(active.contains(x));
            let p = choose|p: int|
                0 <= p < pending.len() && (#[trigger] pending[p]).exiting && pending[p].value.raw
                    == x;
            assert(p != last);
            assert(rest[p] == pending[p]);
            assert(self.values@[x as int] == earlier.values@[x as int]);
            assert(earlier.expands(ValueId { raw: x as u32 }));
        }
        assert forall|p: int, q: int|
            0 <= p < q < rest.len() && (#[trigger] rest[p]).exiting && (
            #[trigger] rest[q]).exiting implies rest[p].value != rest[q].value by {
            assert(rest[p] == pending[p] && rest[q] == pending[q]);
            assert(pending[p].exiting && pending[q].exiting);
        }
        assert forall|p: int, q: int|
            0 <= p < q < rest.len() && (#[trigger] rest[p]).exiting && self.drivers is None implies (
        #[trigger] rest[q]).value.raw < rest[p].value.raw by {
            assert(rest[p] == pending[p] && rest[q] == pending[q]);
            assert(pending[p].exiting);
        }
        assert forall|x: int| #[trigger] touched.contains(x) implies 0 <= x
            < self.m().values.len() && (self.values@[x] is Some || left.contains(x as u64)) by {
            if x != top.value.raw {
                assert(self.values@[x] == earlier.values@[x]);
            }
        }
        if !self.cached_spec(root) {
            assert(root != top.value);
            assert(!earlier.cached_spec(root));
            let p = choose|p: int|
                0 <= p < pending.len() && (#[trigger] pending[p]).value == root;
            assert(p != last);
            assert(rest[p] == pending[p]);
        }
    }

    /// The top of the work list waits below its operands.
    proof fn lemma_work_expand(
        &self,
        pending: Seq<Pending>,
        active: Set<u64>,
        touched: Set<int>,
        root: ValueId,
        next: Seq<Pending>,
    )
        requires
            self.wf(),
            self.work_ok(pending, active, touched),
            self.listed(pending, root),
            pending.len() > 0,
            !pending.last().exiting,
            !active.contains(pending.last().value.raw as u64),
            !self.cached_spec(pending.last().value),
            self.expands(pending.last().value),
            next.len() >= pending.len(),
            forall|i: int| 0 <= i < pending.len() - 1 ==> #[trigger] next[i] == pending[i],
            next[pending.len() - 1] == (Pending { value: pending.last().value, exiting: true }),
            forall|i: int|
                pending.len() <= i < next.len() ==> !(#[trigger] next[i]).exiting && self.is_dep(
                    pending.last().value,
                    next[i].value,
                ) && self.m().has(next[i].value),
            forall|dep: ValueId| #[trigger]
                self.is_dep(pending.last().value, dep) ==> self.m().has(dep) && exists|i: int|
                    pending.len() <= i < next.len() && (#[trigger] next[i]).value == dep,
        ensures
            self.work_ok(
                next,
                active.insert(pending.last().value.raw as u64),
                touched.insert(pending.last().value.raw as int),
            ),
            self.listed(next, root),
            !touched.contains(pending.last().value.raw as int),
    {
        let top = pending.last();
        let last = pending.len() - 1;
        let now = active.insert(top.value.raw as u64);
        assert(pending[last] == top);
        assert(self.m().has(pending[last].value));
        assert forall|p: int| 0 <= p < next.len() implies self.m().has(
            (#[trigger] next[p]).value,
        ) by {
            if p < last {
                assert(next[p] == pending[p]);
            }
        }
        assert forall|p: int|
            0 <= p < next.len() && (#[trigger] next[p]).exiting implies now.contains(
            next[p].value.raw as u64,
        ) && self.covered(next, p) by {
            if p < last {
                assert(next[p] == pending[p]);
                assert(pending[p].exiting);
                assert(self.covered(pending, p));
                assert forall|dep: ValueId| #[trigger]
                    self.is_dep(next[p].value, dep) implies self.m().has(dep) && (
                self.cached_spec(dep) || exists|q: int|
                    p < q < next.len() && (#[trigger] next[q]).value == dep) by {
                    assert(self.is_dep(pending[p].value, dep));
                    if !self.cached_spec(dep) {
                        let q = choose|q: int|
                            p < q < pending.len() && (#[trigger] pending[q]).value == dep;
                        assert(next[q].value == dep);
                    }
                }
            } else {
                assert(p == last);
                assert forall|dep: ValueId| #[trigger]
                    self.is_dep(next[p].value, dep) implies self.m().has(dep) && (
                self.cached_spec(dep) || exists|q: int|
                    p < q < next.len() && (#[trigger] next[q]).value == dep) by {
                    assert(self.is_dep(top.value, dep));
                    let i = choose|i: int|
                        pending.len() <= i < next.len() && (#[trigger] next[i]).value == dep;
                    assert(next[i].value == dep);
                }
            }
        }
        assert forall|x: u64| #[trigger] now.contains(x) implies x < self.m().values.len()
            && self.values@[x as int] is None && self.expands(ValueId { raw: x as u32 }) && exists|
            p: int,
        |
            0 <= p < next.len() && (#[trigger] next[p]).exiting && next[p].value.raw == x by {
            if x == top.value.raw {
                assert(next[last].exiting);
                assert(ValueId { raw: x as u32 } == top.value);
            } else {
                assert(active.contains(x));
                let p = choose|p: int|
                    0 <= p < pending.len() && (#[trigger] pending[p]).exiting
                        && pending[p].value.raw == x;
                assert(p != last);
                assert(next[p] == pending[p]);
            }
        }
        assert forall|p: int, q: int|
            0 <= p < q < next.len() && (#[trigger] next[p]).exiting && (
            #[trigger] next[q]).exiting implies next[p].value != next[q].value by {
            assert(q <= last);
            assert(next[p] == pending[p]);
            assert(pending[p].exiting);
            if q < last {
                assert(next[q] == pending[q]);
                assert(pending[q].exiting);
            } else {
                assert(active.contains(pending[p].value.raw as u64));
            }
        }
        assert forall|p: int, q: int|
            0 <= p < q < next.len() && (#[trigger] next[p]).exiting && self.drivers is None implies (
        #[trigger] next[q]).value.raw < next[p].value.raw by {
            assert(p <= last);
            if q > last {
                assert(self.is_dep(top.value, next[q].value));
                self.lemma_dep_below(top.value, next[q].value);
            }
            if p < last {
                assert(next[p] == pending[p]);
                assert(pending[p].exiting);
                if q < last {
                    assert(next[q] == pending[q]);
                } else {
                    assert(pending[last].value.raw < pending[p].value.raw);
                }
            }
        }
        if self.cached_spec(root) {
        } else {
            let p = choose|p: int|
                0 <= p < pending.len() && (#[trigger] pending[p]).value == root;
            assert(next[p].value == root);
        }
    }

    /// Without drivers to follow, operands precede the values that use them.
    proof fn lemma_dep_below(&self, value: ValueId, dep: ValueId)
        requires
            self.wf(),
            self.m().has(value),
            self.is_dep(value, dep),
            self.drivers is None,
        ensures
            dep.raw < value.raw,
    {
        assert(self.m().value_ok(value.raw as int));
        if let KindView::Operation(operation) = self.m().kind(value) {
            assert(self.m().operation_ok(operation.raw as int));
            let inputs = op_inputs(self.m().operations[operation.raw as int].kind);
            let i = choose|i: int| 0 <= i < inputs.len() && inputs[i] == dep;
            assert(inputs[i].raw < value.raw);
        }
    }

    /// A further row leaves what is fixed of others.
    proof fn lemma_stored(&self, earlier: &Self, v: ValueId, value: ValueId, lits: Seq<Lit>)
        requires
            earlier.wf_context(),
            self.continues(earlier),
            self.external_signals == earlier.external_signals,
            self.values@.len() == earlier.values@.len(),
            earlier.m().has(v),
            earlier.values@[value.raw as int] is None,
            forall|x: int|
                0 <= x < self.values@.len() && x != value.raw ==> #[trigger] self.values@[x]
                    == earlier.values@[x],
            self.values@[value.raw as int] is Some,
            earlier.deps_cached(v),
            earlier.keeps_steady(lits, v),
        ensures
            self.deps_cached(v),
            self.keeps_steady(lits, v),
    {
        assert forall|dep: ValueId| #[trigger] self.is_dep(v, dep) implies self.m().has(dep)
            && self.cached_spec(dep) && self.values@[dep.raw as int]
            == earlier.values@[dep.raw as int] by {
            assert(earlier.is_dep(v, dep));
            assert(earlier.cached_spec(dep));
        }
        match self.m().kind(v) {
            KindView::Signal(reference) => {
                if self.follows(reference) {
                    assert forall|i: int| 0 <= i < reference.width implies #[trigger] lits[i]
                        == self.values@[self.drivers->0.driver_at(
                        reference,
                        i,
                    )->0.value.raw as int]->0@[self.drivers->0.driver_at(
                        reference,
                        i,
                    )->0.bit as int] by {
                        let driver = self.drivers->0.driver_at(reference, i)->0;
                        assert(self.drivers->0.drives(reference, driver.value));
                        assert(self.is_dep(v, driver.value));
                    }
                }
            },
            KindView::Constant(_) => {},
            KindView::Operation(operation) => {
                let kind = self.m().operations[operation.raw as int].kind;
                let inputs = op_inputs(kind);
                assert forall|i: int| 0 <= i < inputs.len() implies self.values@[(
                #[trigger] inputs[i]).raw as int] == earlier.values@[inputs[i].raw as int] by {
                    assert(inputs.contains(inputs[i]));
                    assert(self.is_dep(v, inputs[i]));
                }
                match kind {
                    OpView::Mux { cond, then_value, else_value } => {
                        assert(inputs[0] == cond && inputs[1] == then_value && inputs[2]
                            == else_value);
                    },
                    OpView::Unary { op, arg } => {
                        assert(inputs[0] == arg);
                    },
                    OpView::Binary { op, left, right } => {
                        assert(inputs[0] == left && inputs[1] == right);
                    },
                    _ => {},
                }
            },
        }
    }

    /// Stores an encoded value.
    fn store(&mut self, value: ValueId, bits: Vec<Lit>)
        requires
            old(self).wf(),
            old(self).m().has(value),
            old(self).values@[value.raw as int] is None,
            old(self).deps_cached(value),
            old(self).keeps_steady(bits@, value),
            old(self).encodes(bits@, value.raw as int),
        ensures
            final(self).wf(),
            final(self).continues(old(self)),
            final(self).opened(old(self)),
            final(self).external_signals == old(self).external_signals,
            final(self).nodes().len() + outstanding(
                final(self).m(),
                final(self).values@,
                final(self).values@.len(),
            ) + value_cost(final(self).m(), value.raw as int) == old(self).nodes().len() + outstanding(
                old(self).m(),
                old(self).values@,
                old(self).values@.len(),
            ),
            final(self).nodes() == old(self).nodes(),
            final(self).values@.len() == old(self).values@.len(),
            final(self).values@[value.raw as int] == Some(bits),
            forall|x: int|
                0 <= x < final(self).values@.len() && x != value.raw ==> #[trigger] final(self).values@[x] == old(self).values@[x],
    {
        proof {
            lemma_keeps_values(self.nodes(), self.nodes());
        }
        self.values.set(value.raw as usize, Some(bits));
        proof {
            assert(self.continues(old(self)));
            lemma_outstanding_less(
                self.m(),
                old(self).values@,
                self.values@,
                value.raw as int,
                self.values@.len(),
            );
            assert forall|v: ValueId| #[trigger] self.holds(v) implies self.deps_cached(v)
                && self.keeps_steady(self.values@[v.raw as int]->0@, v) by {
                if v != value {
                    assert(old(self).holds(v));
                }
                self.lemma_stored(old(self), v, value, self.values@[v.raw as int]->0@);
            }
            assert forall|v: int| 0 <= v < self.values@.len() implies ((
            #[trigger] self.values@[v]) matches Some(lits) ==> self.encodes(lits@, v)) by {
                if self.values@[v] is Some {
                    let lits = self.values@[v]->0;
                    if v != value.raw {
                        assert(old(self).values@[v] == Some(lits));
                    }
                    assert(old(self).encodes(lits@, v));
                    self.lemma_encodes(old(self), lits@, v);
                }
            }
        }
    }

    /// The most nodes that what is not encoded yet takes.
    pub open spec fn due(&self) -> nat {
        outstanding(self.m(), self.values@, self.values@.len())
    }

    /// The row of a value, encoding what it depends on first.
    pub fn value(&mut self, root: ValueId) -> (result: Result<Vec<Lit>, SymbolicError>)
        requires
            old(self).wf(),
            old(self).m().has(root),
        ensures
            final(self).wf(),
            final(self).continues(old(self)),
            final(self).opened(old(self)),
            result matches Ok(bits) ==> forall|setting: Setting, depth: nat| #![trigger setting.form(root, depth)]
                final(self).serves(setting) ==> (setting.form(root, depth) matches Some(row) ==> bits@ == row),
            final(self).nodes().len() <= old(self).nodes().len() + old(self).due(),
            result is Ok ==> final(self).nodes().len() + final(self).due() <= old(self).nodes().len()
                + old(self).due(),
            result matches Ok(bits) ==> final(self).holds(root) && bits@ == final(self).values@[root.raw as int]->0@,
            result matches Ok(bits) ==> final(self).encodes(bits@, root.raw as int),
            result matches Err(error) ==> final(self).stops(root, error),
    {
        proof {
            lemma_keeps_values(self.nodes(), self.nodes());
        }
        let count: usize = self.module.values.len();
        let mut active = IdSet::new();
        let mut pending: Vec<Pending> = Vec::new();
        pending.push(Pending { value: root, exiting: false });
        let ghost mut touched: Set<int> = Set::empty();
        proof {
            assert(pending@[0].value == root);
        }
        while pending.len() > 0
            invariant
                self.wf(),
                self.continues(old(self)),
                self.opened(old(self)),
                self.nodes().len() + self.due() <= old(self).nodes().len() + old(self).due(),
                self.m().has(root),
                count == self.m().values.len(),
                self.work_ok(pending@, active@, touched),
                self.listed(pending@, root),
                pending@.len() > 0 ==> pending@[0].value == root,
                self.chained(pending@),
            decreases count - touched.len(), pending.len(),
        {
            let ghost before = pending@;
            let ghost start = *self;
            let item = match pending.pop() {
                Some(item) => item,
                None => return Err(
                    SymbolicError::Synthesis(SynthError::Invariant(Invariant::NotEncoded)),
                ),
            };
            let value = item.value;
            proof {
                self.lemma_chained_less(before);
                lemma_keeps_values(self.nodes(), self.nodes());
                assert(before.last() == item);
                assert(before[before.len() - 1] == item);
                assert(pending@ =~= before.drop_last());
                assert(self.m().has(before[before.len() - 1].value));
                assert(self.m().value_ok(value.raw as int));
            }
            if self.values[value.raw as usize].is_some() {
                proof {
                    assert(!active@.contains(value.raw as u64));
                    if item.exiting {
                        assert(before[before.len() - 1].exiting);
                    }
                    self.lemma_work_done(&start, before, active@, active@, touched, root);
                }
                continue ;
            }
            if item.exiting {
                assert(before[before.len() - 1].exiting);
                assert(self.covered(before, before.len() - 1));
                let ghost was = active@;
                let present: bool = active.remove(value.raw as u64);
                assert(present);
                proof {
                    assert forall|dep: ValueId| #[trigger] self.is_dep(value, dep) implies
                        self.m().has(dep) && self.cached_spec(dep) by {}
                }
                let bits = match self.encode_value(value) {
                    Ok(bits) => bits,
                    Err(error) => {
                        proof {
                            lemma_outstanding_holds(
                                start.m(),
                                start.values@,
                                value.raw as int,
                                start.values@.len(),
                            );
                            self.lemma_chained_later(&start, before);
                            self.lemma_blocked(before, value, error);
                        }
                        return Err(error);
                    },
                };
                proof {
                    self.lemma_deps_cached(&start, value);
                }
                self.store(value, bits);
                proof {
                    self.lemma_chained_later(&start, pending@);
                    self.lemma_work_done(&start, before, was, active@, touched, root);
                }
                continue ;
            }
            let module: &'m WordModule = self.module;
            let stored = &module.values[value.raw as usize];
            assert(stored@ == self.m().values[value.raw as int]);
            let operands: Option<Vec<ValueId>> = match &stored.kind {
                ValueKind::Signal(reference) => {
                    let found = self.reference_drivers(*reference);
                    proof {
                        if found is Some {
                            assert forall|dep: ValueId|
                                self.is_dep(value, dep) == #[trigger] found->0@.contains(dep) by {}
                            assert forall|dep: ValueId| #[trigger]
                                self.is_dep(value, dep) implies self.m().has(dep) by {
                                let i = choose|i: int|
                                    0 <= i < reference.width && (
                                    #[trigger] self.drivers->0.driver_at(*reference, i)) is Some
                                        && self.drivers->0.driver_at(*reference, i)->0.value == dep;
                                self.lemma_driver(*reference, i);
                            }
                        }
                    }
                    found
                },
                ValueKind::Constant(_) => None,
                ValueKind::Operation(operation) => {
                    let kind = &module.operations[operation.raw as usize].kind;
                    assert(kind@ == self.m().operations[operation.raw as int].kind);
                    match kind {
                        OpKind::Register(_) | OpKind::Latch(_) => {
                            proof {
                                assert(self.refuses(value, SymbolicError::Unsupported));
                                self.lemma_blocked(before, value, SymbolicError::Unsupported);
                            }
                            return Err(SymbolicError::Unsupported);
                        },
                        _ => {},
                    }
                    let inputs = operation_inputs(kind);
                    proof {
                        assert(self.m().operation_ok(operation.raw as int));
                        assert forall|dep: ValueId|
                            self.is_dep(value, dep) == #[trigger] inputs@.contains(dep) by {}
                        assert forall|dep: ValueId| #[trigger]
                            self.is_dep(value, dep) implies self.m().has(dep) by {
                            let i = choose|i: int| 0 <= i < inputs@.len() && inputs@[i] == dep;
                            assert(op_inputs(kind@)[i].raw < value.raw);
                        }
                    }
                    Some(inputs)
                },
            };
            match operands {
                None => {
                    assert(!self.expands(value));
                    assert(!active@.contains(value.raw as u64)) by {
                        if active@.contains(value.raw as u64) {
                            assert(self.expands(ValueId { raw: value.raw as u64 as u32 }));
                        }
                    }
                    let bits = match self.encode_value(value) {
                        Ok(bits) => bits,
                        Err(error) => {
                            proof {
                                lemma_outstanding_holds(
                                    start.m(),
                                    start.values@,
                                    value.raw as int,
                                    start.values@.len(),
                                );
                                self.lemma_chained_later(&start, before);
                                self.lemma_blocked(before, value, error);
                            }
                            return Err(error);
                        },
                    };
                    proof {
                        self.lemma_deps_cached(&start, value);
                    }
                    self.store(value, bits);
                    proof {
                        self.lemma_chained_later(&start, pending@);
                        self.lemma_work_done(&start, before, active@, active@, touched, root);
                    }
                },
                Some(operands) => {
                    let ghost was = active@;
                    let fresh: bool = active.insert(value.raw as u64);
                    if !fresh {
                        proof {
                            let p = choose|p: int|
                                0 <= p < before.len() && (#[trigger] before[p]).exiting
                                    && before[p].value.raw == value.raw as u64;
                            assert(before[p].exiting);
                            assert(p != before.len() - 1);
                            if self.drivers is Some {
                                let down = self.lemma_root_walk(before, p);
                                let around = self.lemma_chain_walk(before, p, before.len() - 1);
                                lemma_walk_on(
                                    self.m(),
                                    self.drivers,
                                    self.bound_signal(),
                                    down,
                                    around,
                                );
                                let walk = down + around.skip(1);
                                assert(walk[down.len() - 1] == walk.last());
                                assert(turns_back(walk));
                            } else {
                                assert(before[before.len() - 1].value.raw < before[p].value.raw);
                            }
                        }
                        return Err(
                            SymbolicError::Synthesis(
                                SynthError::Invariant(Invariant::CombinationalCycle),
                            ),
                        );
                    }
                    pending.push(Pending { value, exiting: true });
                    let ghost base = pending@;
                    let mut index: usize = operands.len();
                    while index > 0
                        invariant
                            index <= operands@.len(),
                            pending@.len() == base.len() + operands@.len() - index,
                            forall|i: int|
                                0 <= i < base.len() ==> #[trigger] pending@[i] == base[i],
                            forall|i: int|
                                base.len() <= i < pending@.len() ==> (#[trigger] pending@[i])
                                    == (Pending {
                                    value: operands@[operands@.len() - 1 - (i - base.len())],
                                    exiting: false,
                                }),
                        decreases index,
                    {
                        index -= 1;
                        pending.push(Pending { value: operands[index], exiting: false });
                    }
                    proof {
                        let next = pending@;
                        assert forall|i: int| 0 <= i < before.len() - 1 implies
                            #[trigger] next[i] == before[i] by {
                            assert(next[i] == base[i]);
                        }
                        assert(next[before.len() - 1] == base[before.len() - 1]);
                        assert forall|i: int| before.len() <= i < next.len() implies !(
                        #[trigger] next[i]).exiting && self.is_dep(value, next[i].value)
                            && self.m().has(next[i].value) by {
                            let k = operands@.len() - 1 - (i - base.len());
                            assert(operands@.contains(operands@[k]));
                            assert(self.is_dep(value, operands@[k]));
                        }
                        assert forall|dep: ValueId| #[trigger]
                            self.is_dep(value, dep) implies self.m().has(dep) && exists|i: int|
                            before.len() <= i < next.len() && (#[trigger] next[i]).value == dep by {
                            assert(operands@.contains(dep));
                            let k = choose|k: int| 0 <= k < operands@.len() && operands@[k] == dep;
                            let i = base.len() + operands@.len() - 1 - k;
                            assert(next[i].value == dep);
                        }
                        assert(self.expands(value));
                        self.lemma_chained_more(before, next);
                        self.lemma_work_expand(before, was, touched, root, next);
                        let all = Set::new(|x: int| 0 <= x < count);
                        crate::word::numbers::lemma_below(touched.insert(value.raw as int), count as nat);
                        touched = touched.insert(value.raw as int);
                    }
                },
            }
        }
        assert(self.cached_spec(root));
        proof {
            assert forall|setting: Setting, depth: nat| #![trigger setting.form(root, depth)]
                self.serves(setting) implies (setting.form(root, depth) matches Some(row)
                ==> self.values@[root.raw as int]->0@ == row) by {
                if setting.form(root, depth) is Some {
                    self.lemma_form(setting, root, depth);
                }
            }
        }
        match self.cached(root) {
            Ok(bits) => Ok(bits),
            Err(error) => Err(error),
        }
    }
}

/// Two walks that meet are one.
pub proof fn lemma_walk_on(
    module: ModuleView,
    drivers: Option<&SignalDriverIndex>,
    bound: Option<SignalId>,
    first: Seq<ValueId>,
    second: Seq<ValueId>,
)
    requires
        reads_along(module, drivers, bound, first),
        reads_along(module, drivers, bound, second),
        first.last() == second[0],
    ensures
        reads_along(module, drivers, bound, first + second.skip(1)),
        (first + second.skip(1))[0] == first[0],
        (first + second.skip(1)).last() == second.last(),
{
    let walk = first + second.skip(1);
    let last = first.len() - 1;
    assert forall|i: int| 0 <= i < walk.len() - 1 implies reads(
        module,
        drivers,
        bound,
        #[trigger] walk[i],
        walk[i + 1],
    ) by {
        if i < last {
            assert(walk[i] == first[i] && walk[i + 1] == first[i + 1]);
        } else {
            assert(walk[i] == second[i - last]);
            assert(walk[i + 1] == second[i - last + 1]);
        }
    }
    if second.len() == 1 {
        assert(walk =~= first);
    }
}

/// A row of constants is that of its word.
proof fn lemma_constant_word(nodes: Seq<LogicNode>, inputs: Inputs, lits: Seq<Lit>)
    requires
        nodes.len() > 0,
        nodes[0] is False,
        constant_row(lits),
    ensures
        lits == word_row(lits_value(nodes, inputs, lits)),
{
    let row = word_row(lits_value(nodes, inputs, lits));
    assert forall|i: int| 0 <= i < lits.len() implies lits[i] == row[i] by {
        lemma_constant_value(nodes, inputs, lits[i].inverted);
        assert(lits[i] == Lit::constant_spec(lits[i].inverted));
    }
    assert(lits =~= row);
}

impl<'m> WordLogicEncoder<'m> {
    /// A setting in which the rows of the encoder are worked out.
    pub open spec fn suits(&self, setting: Setting) -> bool {
        &&& setting.module == self.m()
        &&& self.drivers is Some
        &&& *self.drivers->0 == setting.drivers
        &&& self.bound_signal() == Some(setting.signal)
        &&& forall|signal: SignalId, bit: u32|
            self.external_signals@.dom().contains(#[trigger] signal_key(signal, bit)) ==> (
            setting.input)(signal, bit as int) == external_lit(
                self.external_signals@,
                signal,
                bit as int,
            )
    }

    /// A setting whose environment the encoder speaks of.
    pub open spec fn serves(&self, setting: Setting) -> bool {
        self.suits(setting) && exists|inputs: Inputs| #[trigger] self.admits(setting.env, inputs)
    }

    pub proof fn lemma_serves(&self, earlier: &Self, setting: Setting)
        requires
            self.continues(earlier),
            self.serves(setting),
        ensures
            earlier.serves(setting),
    {
        let inputs = choose|inputs: Inputs| #[trigger] self.admits(setting.env, inputs);
        self.lemma_admits(earlier, setting.env, inputs);
    }

    /// The operands of a value have rows where the value has one.
    proof fn lemma_operand(&self, value: ValueId, kind: OpView, i: int)
        requires
            self.wf(),
            self.holds(value),
            self.defines(value, kind),
            0 <= i < op_inputs(kind).len(),
        ensures
            self.holds(op_inputs(kind)[i]),
    {
        assert(op_inputs(kind).contains(op_inputs(kind)[i]));
        assert(self.is_dep(value, op_inputs(kind)[i]));
    }

    /// A row of constants is that of the value's word.
    proof fn lemma_constant_form(&self, setting: Setting, value: ValueId)
        requires
            self.wf(),
            self.holds(value),
            self.serves(setting),
            constant_row(self.values@[value.raw as int]->0@),
        ensures
            self.values@[value.raw as int]->0@ == word_row(
                word_of(setting.module, setting.env, value),
            ),
    {
        let inputs = choose|inputs: Inputs| #[trigger] self.admits(setting.env, inputs);
        let lits = self.values@[value.raw as int]->0@;
        assert(self.encodes(lits, value.raw as int));
        lemma_constant_word(self.nodes(), inputs, lits);
    }

    /// A value whose row follows without a gate has that row.
    #[verifier::rlimit(40)]
    #[verifier::spinoff_prover]
    pub proof fn lemma_form(&self, setting: Setting, value: ValueId, depth: nat)
        requires
            self.wf(),
            self.holds(value),
            self.serves(setting),
            setting.form(value, depth) is Some,
        ensures
            setting.form(value, depth)->0 == self.values@[value.raw as int]->0@,
        decreases depth,
    {
        let below = (depth - 1) as nat;
        let lits = self.values@[value.raw as int]->0@;
        assert(self.keeps_steady(lits, value));
        assert(self.encodes(lits, value.raw as int));
        assert(self.m().value_ok(value.raw as int));
        match self.m().kind(value) {
            KindView::Constant(bits) => {},
            KindView::Signal(reference) => {
                if reference.signal == setting.signal {
                    self.lemma_constant_form(setting, value);
                } else if setting.drivers.resolves(reference) {
                    let form = setting.driven_form(reference, below)->0;
                    assert forall|i: int| 0 <= i < reference.width implies form[i] == lits[i] by {
                        let driver = setting.drivers.driver_at(reference, i)->0;
                        assert(setting.drivers.driver_at(reference, i) is Some);
                        assert(self.drivers->0.drives(reference, driver.value));
                        assert(self.is_dep(value, driver.value));
                        assert(self.holds(driver.value));
                        self.lemma_form(setting, driver.value, below);
                    }
                    assert(form =~= lits);
                } else {
                    let form = setting.form(value, depth)->0;
                    assert forall|i: int| 0 <= i < reference.width implies form[i] == lits[i] by {
                        let bit = (reference.lsb + i) as u32;
                        let lit = lits[i];
                        assert(self.external_signals@.dom().contains(
                            signal_key(reference.signal, bit),
                        ));
                    }
                    assert(form =~= lits);
                }
            },
            KindView::Operation(operation) => {
                let kind = self.m().operations[operation.raw as int].kind;
                let inputs = op_inputs(kind);
                assert(self.defines(value, kind));
                assert forall|i: int|
                    0 <= i < inputs.len() && setting.form(
                        inputs[i],
                        below,
                    ) is Some implies setting.form(#[trigger] inputs[i], below)->0
                    == self.values@[inputs[i].raw as int]->0@ by {
                    self.lemma_operand(value, kind, i);
                    self.lemma_form(setting, inputs[i], below);
                }
                match kind {
                    OpView::Mux { cond, then_value, else_value } => {
                        assert(inputs[0] == cond && inputs[1] == then_value && inputs[2]
                            == else_value);
                        let condition = setting.form(cond, below)->0;
                        if condition[0].node != 0 {
                            let form = setting.form(value, depth)->0;
                            self.lemma_operand(value, kind, 1);
                            assert(self.encodes(
                                self.values@[then_value.raw as int]->0@,
                                then_value.raw as int,
                            ));
                            assert(self.m().operation_ok(operation.raw as int));
                            let when_true = self.values@[then_value.raw as int]->0@;
                            let when_false = self.values@[else_value.raw as int]->0@;
                            assert forall|i: int| 0 <= i < lits.len() implies form[i]
                                == lits[i] by {
                                assert(simple_select(
                                    condition[0],
                                    when_true[i],
                                    when_false[i],
                                ) is Some);
                            }
                            assert(form =~= lits);
                        }
                    },
                    OpView::Unary { op: UnaryOp::BitNot, arg } => {
                        assert(inputs[0] == arg);
                    },
                    _ => {
                        if forall|i: int|
                            0 <= i < inputs.len() ==> (setting.form(
                                #[trigger] inputs[i],
                                below,
                            ) matches Some(row) && constant_row(row)) {
                            assert(constant_operands(self.values@, kind)) by {
                                assert forall|i: int| 0 <= i < inputs.len() implies constant_row(
                                    self.values@[(#[trigger] inputs[i]).raw as int]->0@,
                                ) by {
                                    assert(setting.form(inputs[i], below) is Some);
                                }
                            }
                            self.lemma_constant_form(setting, value);
                        } else if let OpView::Binary { op, left, right } = kind {
                            assert(inputs[0] == left && inputs[1] == right);
                            self.lemma_operand(value, kind, 0);
                            let l = self.values@[left.raw as int]->0@;
                            let r = self.values@[right.raw as int]->0@;
                            assert(self.encodes(l, left.raw as int));
                            let form = setting.form(value, depth)->0;
                            super::forms::lemma_simple_join(op, l, r, form, lits);
                        }
                    },
                }
            },
        }
    }
}

/// Whether a one-bit control is active.
pub open spec fn active_control(
    module: ModuleView,
    env: Env,
    value: ValueId,
    active_high: bool,
) -> bool {
    word_of(module, env, value)[0] == active_high
}

/// What a register holds after its resets: the first active one decides.
pub open spec fn after_resets(
    module: ModuleView,
    env: Env,
    resets: Seq<Reset>,
    held: Seq<bool>,
) -> Seq<bool>
    decreases resets.len(),
{
    if resets.len() == 0 {
        held
    } else if active_control(module, env, resets[0].value, resets[0].active_high) {
        word_of(module, env, resets[0].reset_value)
    } else {
        after_resets(module, env, resets.skip(1), held)
    }
}

/// The bits of a whole signal.
pub open spec fn signal_word(module: ModuleView, env: Env, signal: SignalId) -> Seq<bool> {
    Seq::new(
        module.signals[signal.raw as int].ty.width as nat,
        |i: int| (env.signal)(signal.raw as int, i),
    )
}

/// What a register takes over at its next clock edge.
pub open spec fn register_next_word(
    module: ModuleView,
    env: Env,
    register: RegisterView,
    state: SignalId,
) -> Seq<bool> {
    let data = word_of(module, env, register.d);
    let loaded = match register.enable {
        Some(enable) => if active_control(module, env, enable.value, enable.active_high) {
            data
        } else {
            signal_word(module, env, state)
        },
        None => data,
    };
    after_resets(module, env, register.resets, loaded)
}

/// The words of a list of values, one after the other.
pub open spec fn roots_word(module: ModuleView, env: Env, roots: Seq<ValueId>) -> Seq<bool>
    decreases roots.len(),
{
    if roots.len() == 0 {
        seq![]
    } else {
        roots_word(module, env, roots.drop_last()) + word_of(module, env, roots.last())
    }
}

impl<'m> WordLogicEncoder<'m> {
    /// A row that stands for a word in every environment.
    pub open spec fn means(&self, lits: Seq<Lit>, word: spec_fn(Env) -> Seq<bool>) -> bool {
        &&& lits_ok(self.nodes(), lits)
        &&& forall|env: Env, inputs: Inputs| #[trigger]
            self.admits(env, inputs) ==> lits_value(self.nodes(), inputs, lits) == word(env)
    }

    pub proof fn lemma_means(
        &self,
        earlier: &Self,
        lits: Seq<Lit>,
        word: spec_fn(Env) -> Seq<bool>,
    )
        requires
            self.continues(earlier),
            earlier.means(lits, word),
        ensures
            self.means(lits, word),
    {
        assert forall|i: int| 0 <= i < lits.len() implies (#[trigger] lits[i]).node
            < self.nodes().len() by {
            assert(lits[i].node < earlier.nodes().len());
        }
        assert forall|env: Env, inputs: Inputs| #[trigger]
            self.admits(env, inputs) implies lits_value(self.nodes(), inputs, lits) == word(
            env,
        ) by {
            self.lemma_admits(earlier, env, inputs);
            lemma_lits_keep(earlier.nodes(), self.nodes(), lits, inputs);
            assert(earlier.admits(env, inputs));
        }
    }

    /// The rows of several values, one after the other.
    pub fn values(&mut self, roots: &Vec<ValueId>) -> (result: Result<Vec<Lit>, SymbolicError>)
        requires
            old(self).wf(),
            forall|i: int| 0 <= i < roots@.len() ==> old(self).m().has(#[trigger] roots@[i]),
        ensures
            final(self).wf(),
            final(self).continues(old(self)),
            final(self).opened(old(self)),
            result matches Ok(bits) ==> forall|setting: Setting, depth: nat| #![trigger setting.forms(roots@, depth)]
                final(self).serves(setting) ==> (setting.forms(roots@, depth) matches Some(row) ==> bits@ == row),
            final(self).nodes().len() <= old(self).nodes().len() + old(self).due(),
            result is Ok ==> final(self).nodes().len() + final(self).due() <= old(self).nodes().len()
                + old(self).due(),
            result matches Ok(bits) ==> final(self).means(
                bits@,
                |env: Env| roots_word(old(self).m(), env, roots@),
            ),
            result matches Err(error) ==> exhausted(final(self).nodes(), error) || exists|k: int|
                0 <= k < roots@.len() && blocked(
                    final(self).m(),
                    final(self).ranges@,
                    final(self).drivers,
                    final(self).bound_signal(),
                    #[trigger] roots@[k],
                    error,
                ),
    {
        proof {
            lemma_keeps_values(self.nodes(), self.nodes());
        }
        let ghost module = self.m();
        let mut bits: Vec<Lit> = Vec::new();
        let mut index: usize = 0;
        proof {
            let word = |env: Env| roots_word(module, env, roots@.take(0));
            assert forall|env: Env, inputs: Inputs| #[trigger]
                self.admits(env, inputs) implies lits_value(self.nodes(), inputs, bits@) == word(
                env,
            ) by {
                assert(lits_value(self.nodes(), inputs, bits@) =~= seq![]);
            }
        }
        proof {
            assert(roots@.take(0) =~= seq![]);
            assert(bits@ =~= seq![]);
        }
        while index < roots.len()
            invariant
                index <= roots@.len(),
                self.wf(),
                self.continues(old(self)),
                self.opened(old(self)),
                forall|setting: Setting, depth: nat| #![trigger setting.forms(roots@.take(index as int), depth)]
                    self.serves(setting) ==> (setting.forms(roots@.take(index as int), depth) matches Some(row)
                        ==> bits@ == row),
                self.nodes().len() + self.due() <= old(self).nodes().len() + old(self).due(),
                module == self.m(),
                forall|i: int| 0 <= i < roots@.len() ==> self.m().has(#[trigger] roots@[i]),
                self.means(
                    bits@,
                    |env: Env| roots_word(module, env, roots@.take(index as int)),
                ),
            decreases roots.len() - index,
        {
            let ghost earlier = *self;
            let ghost previous = bits@;
            assert(self.m().has(roots@[index as int]));
            let mut row = match self.value(roots[index]) {
                Ok(row) => row,
                Err(error) => return Err(error),
            };
            let ghost added = row@;
            bits.append(&mut row);
            proof {
                assert(bits@ =~= previous + added);
                let before = |env: Env| roots_word(module, env, roots@.take(index as int));
                let after = |env: Env| roots_word(module, env, roots@.take(index + 1));
                self.lemma_means(&earlier, previous, before);
                assert forall|setting: Setting, depth: nat|
                    #![trigger setting.forms(roots@.take(index + 1), depth)]
                    self.serves(setting) implies (setting.forms(
                    roots@.take(index + 1),
                    depth,
                ) matches Some(row) ==> bits@ == row) by {
                    assert(roots@.take(index + 1).drop_last() =~= roots@.take(index as int));
                    assert(roots@.take(index + 1).last() == roots@[index as int]);
                    if setting.forms(roots@.take(index + 1), depth) is Some {
                        self.lemma_serves(&earlier, setting);
                        assert(setting.forms(roots@.take(index as int), depth) is Some);
                        assert(setting.form(roots@[index as int], depth) is Some);
                    }
                }
                assert(roots@.take(index + 1).drop_last() =~= roots@.take(index as int));
                assert forall|i: int| 0 <= i < bits@.len() implies (#[trigger] bits@[i]).node
                    < self.nodes().len() by {
                    if i < previous.len() {
                        assert(previous[i].node < self.nodes().len());
                    } else {
                        assert(added[i - previous.len()].node < self.nodes().len());
                    }
                }
                assert forall|env: Env, inputs: Inputs| #[trigger]
                    self.admits(env, inputs) implies lits_value(self.nodes(), inputs, bits@)
                    == after(env) by {
                    assert(lits_value(self.nodes(), inputs, previous) == before(env));
                    assert(lits_value(self.nodes(), inputs, bits@) =~= lits_value(
                        self.nodes(),
                        inputs,
                        previous,
                    ) + lits_value(self.nodes(), inputs, added));
                }
            }
            index += 1;
        }
        assert(roots@.take(index as int) =~= roots@);
        Ok(bits)
    }

    /// The literal of a one-bit control.
    fn control(&mut self, value: ValueId, active_high: bool) -> (result: Result<Lit, SymbolicError>)
        requires
            old(self).wf(),
            old(self).m().has(value),
            old(self).m().ty(value).width == 1,
        ensures
            final(self).wf(),
            final(self).continues(old(self)),
            final(self).opened(old(self)),
            result matches Ok(lit) ==> forall|setting: Setting, depth: nat|
                #![trigger setting.control_form(value, active_high, depth)]
                final(self).serves(setting) ==> (setting.control_form(value, active_high, depth) matches Some(
                    simple,
                ) ==> lit == simple),
            final(self).nodes().len() <= old(self).nodes().len() + old(self).due(),
            result is Ok ==> final(self).nodes().len() + final(self).due() <= old(self).nodes().len()
                + old(self).due(),
            result matches Ok(lit) ==> final(self).logic.has(lit) && forall|env: Env, inputs: Inputs|
                #[trigger]
                final(self).admits(env, inputs) ==> lit_value(final(self).nodes(), inputs, lit)
                    == active_control(final(self).m(), env, value, active_high),
            result matches Err(error) ==> final(self).stops(value, error),
    {
        let bits = match self.value(value) {
            Ok(bits) => bits,
            Err(error) => return Err(error),
        };
        let bit = bits[0];
        assert(bits@[0].node < self.nodes().len());
        let lit = if active_high {
            bit
        } else {
            bit.inverted()
        };
        proof {
            assert forall|setting: Setting, depth: nat|
                #![trigger setting.control_form(value, active_high, depth)]
                self.serves(setting) implies (setting.control_form(
                value,
                active_high,
                depth,
            ) matches Some(simple) ==> lit == simple) by {
                let row = setting.form(value, depth);
            }
            assert forall|env: Env, inputs: Inputs| #[trigger]
                self.admits(env, inputs) implies lit_value(self.nodes(), inputs, lit)
                == active_control(self.m(), env, value, active_high) by {
                let word = lits_value(self.nodes(), inputs, bits@);
                assert(word == word_of(self.m(), env, value));
                assert(word[0] == lit_value(self.nodes(), inputs, bit));
            }
        }
        Ok(lit)
    }

    /// The row of a whole signal.
    fn signal_bits(&mut self, signal: SignalId) -> (result: Result<Vec<Lit>, SymbolicError>)
        requires
            old(self).wf(),
            signal.raw < old(self).m().signals.len(),
        ensures
            final(self).wf(),
            final(self).continues(old(self)),
            final(self).bound_signal() == Some(signal) ==> final(self).opened(old(self)),
            result matches Ok(bits) ==> (final(self).bound_signal() == Some(signal) ==> constant_row(bits@)),
            final(self).nodes().len() <= old(self).nodes().len() + old(self).m().signals[signal.raw as int].ty.width,
            final(self).values@ == old(self).values@,
            result matches Ok(bits) ==> bits@.len() == final(self).m().signals[signal.raw as int].ty.width && final(self).means(
                bits@,
                |env: Env| signal_word(old(self).m(), env, signal),
            ),
            result matches Err(error) ==> exhausted(final(self).nodes(), error),
    {
        proof {
            lemma_keeps_values(self.nodes(), self.nodes());
        }
        let ghost module = self.m();
        let width: u32 = self.module.signals[signal.raw as usize].ty.width;
        let mut bits: Vec<Lit> = Vec::new();
        while bits.len() < width as usize
            invariant
                bits@.len() <= width,
                self.wf(),
                self.continues(old(self)),
                self.bound_signal() == Some(signal) ==> self.opened(old(self)),
                self.bound_signal() == Some(signal) ==> constant_row(bits@),
                self.nodes().len() <= old(self).nodes().len() + bits@.len(),
                self.values@ == old(self).values@,
                module == self.m(),
                signal.raw < module.signals.len(),
                width == module.signals[signal.raw as int].ty.width,
                forall|i: int|
                    0 <= i < bits@.len() ==> self.carries(#[trigger] bits@[i], signal, i),
            decreases width - bits.len(),
        {
            let ghost earlier = *self;
            let ghost previous = bits@;
            let index: u32 = bits.len() as u32;
            let literal = match self.signal(signal, index) {
                Ok(lit) => lit,
                Err(error) => return Err(error),
            };
            bits.push(literal);
            proof {
                assert forall|i: int| 0 <= i < bits@.len() implies self.carries(
                    #[trigger] bits@[i],
                    signal,
                    i,
                ) by {
                    if i < index {
                        assert(bits@[i] == previous[i]);
                        self.lemma_carries(&earlier, previous[i], signal, i);
                    }
                }
            }
        }
        proof {
            let word = |env: Env| signal_word(module, env, signal);
            assert forall|i: int| 0 <= i < bits@.len() implies (#[trigger] bits@[i]).node
                < self.nodes().len() by {
                assert(self.carries(bits@[i], signal, i));
            }
            assert forall|env: Env, inputs: Inputs| #[trigger]
                self.admits(env, inputs) implies lits_value(self.nodes(), inputs, bits@) == word(
                env,
            ) by {
                assert forall|i: int| 0 <= i < bits@.len() implies lit_value(
                    self.nodes(),
                    inputs,
                    bits@[i],
                ) == (env.signal)(signal.raw as int, i) by {
                    assert(self.carries(bits@[i], signal, i));
                }
                assert(lits_value(self.nodes(), inputs, bits@) =~= word(env));
            }
        }
        Ok(bits)
    }

    /// Where a control is active one row, elsewhere another.
    fn choose_rows(&mut self, active: Lit, when_true: &Vec<Lit>, when_false: &Vec<Lit>) -> (result:
        Result<Vec<Lit>, SymbolicError>)
        requires
            old(self).wf(),
            old(self).logic.has(active),
            lits_ok(old(self).nodes(), when_true@),
            lits_ok(old(self).nodes(), when_false@),
            when_true@.len() == when_false@.len(),
        ensures
            final(self).wf(),
            final(self).continues(old(self)),
            final(self).opened(old(self)),
            result matches Ok(bits) ==> (simple_choice(active, when_true@, when_false@) matches Some(row)
                ==> bits@ == row),
            final(self).nodes().len() <= old(self).nodes().len() + 3 * when_true@.len(),
            final(self).values@ == old(self).values@,
            result matches Ok(bits) ==> {
                &&& bits@.len() == when_true@.len()
                &&& lits_ok(final(self).nodes(), bits@)
                &&& forall|env: Env, inputs: Inputs| #[trigger]
                    final(self).admits(env, inputs) ==> old(self).admits(env, inputs) && lits_value(
                        final(self).nodes(),
                        inputs,
                        bits@,
                    ) == (if lit_value(old(self).nodes(), inputs, active) {
                        lits_value(old(self).nodes(), inputs, when_true@)
                    } else {
                        lits_value(old(self).nodes(), inputs, when_false@)
                    })
            },
            result matches Err(error) ==> exhausted(final(self).nodes(), error),
    {
        let outcome = self.logic.select_rows(active, when_true, when_false);
        proof {
            self.lemma_grown(old(self));
        }
        proof {
            if outcome is Ok {
                let bits = outcome->Ok_0;
                if let Some(row) = simple_choice(active, when_true@, when_false@) {
                    assert forall|i: int| 0 <= i < row.len() implies bits@[i] == row[i] by {
                        assert(simple_select(active, when_true@[i], when_false@[i]) is Some);
                    }
                    assert(bits@ =~= row);
                }
            }
        }
        outcome
    }

    /// What a register takes over at its next clock edge.
    pub fn register_next(&mut self, register: &RegisterOp, state: SignalId) -> (result: Result<
        Vec<Lit>,
        SymbolicError,
    >)
        requires
            old(self).wf(),
            state.raw < old(self).m().signals.len(),
            old(self).m().inputs_below(
                OpView::Register(register@),
                old(self).m().values.len() as int,
            ),
            old(self).m().op_typed(OpView::Register(register@), old(self).m().ty(register.d)),
        ensures
            final(self).wf(),
            final(self).continues(old(self)),
            final(self).bound_signal() == Some(state) ==> final(self).opened(old(self)),
            result matches Ok(bits) ==> (final(self).bound_signal() == Some(state) ==> forall|
                setting: Setting,
                depth: nat,
            | #![trigger setting.next_form(register@, depth)]
                final(self).serves(setting) ==> (setting.next_form(register@, depth) matches Some(row)
                    ==> bits@ == row)),
            final(self).nodes().len() <= old(self).nodes().len() + old(self).due() + register_cost(
                old(self).m(),
                register@,
                state,
            ),
            result matches Ok(bits) ==> bits@.len() == old(self).m().signals[state.raw as int].ty.width,
            result matches Ok(bits) ==> old(self).m().ty(register.d).width == old(self).m().signals[state.raw as int].ty.width && final(self).means(
                bits@,
                |env: Env| register_next_word(old(self).m(), env, register@, state),
            ),
            result matches Err(error) ==> exhausted(final(self).nodes(), error) || (exists|i: int|
                0 <= i < op_inputs(OpView::Register(register@)).len() && i != 1 && blocked(
                    final(self).m(),
                    final(self).ranges@,
                    final(self).drivers,
                    final(self).bound_signal(),
                    #[trigger] op_inputs(OpView::Register(register@))[i],
                    error,
                )) || (error
                == SymbolicError::Synthesis(SynthError::Invariant(Invariant::WidthMismatch))
                && old(self).m().ty(register.d).width != old(self).m().signals[state.raw as int].ty.width),
    {
        let ghost module = self.m();
        let ghost view = register@;
        let ghost inputs_list = op_inputs(OpView::Register(view));
        proof {
            lemma_keeps_values(self.nodes(), self.nodes());
            assert(inputs_list[0] == register.d);
            crate::word::module::lemma_reset_inputs(register.resets@);
        }
        let held = match self.signal_bits(state) {
            Ok(bits) => bits,
            Err(error) => {
                assert(self.m().has(register.d));
                return Err(error);
            },
        };
        let ghost s1 = *self;
        let mut next = match self.value(register.d) {
            Ok(bits) => bits,
            Err(error) => return Err(error),
        };
        let ghost held_word = |env: Env| signal_word(module, env, state);
        proof {
            self.lemma_means(&s1, held@, held_word);
        }
        if held.len() != next.len() {
            return Err(SymbolicError::Synthesis(SynthError::Invariant(Invariant::WidthMismatch)));
        }
        let ghost data_word = |env: Env| word_of(module, env, register.d);
        proof {
            assert(self.means(next@, data_word));
        }
        let ghost loaded = |env: Env|
            match view.enable {
                Some(enable) => if active_control(module, env, enable.value, enable.active_high) {
                    word_of(module, env, view.d)
                } else {
                    signal_word(module, env, state)
                },
                None => word_of(module, env, view.d),
            };
        if let Some(enable) = register.enable {
            assert(inputs_list[2] == enable.value);
            let ghost s2 = *self;
            let active = match self.control(enable.value, enable.active_high) {
                Ok(lit) => lit,
                Err(error) => return Err(error),
            };
            proof {
                self.lemma_means(&s2, held@, held_word);
                self.lemma_means(&s2, next@, data_word);
            }
            let ghost s3 = *self;
            let ghost data = next@;
            next =
            match self.choose_rows(active, &next, &held) {
                Ok(bits) => bits,
                Err(error) => {
                        return Err(error);
                },
            };
            proof {
                if self.bound_signal() == Some(state) {
                    assert forall|setting: Setting, depth: nat|
                        #![trigger setting.loaded_form(view, depth)]
                        self.serves(setting) implies (setting.loaded_form(
                        view,
                        depth,
                    ) matches Some(row) ==> next@ == row) by {
                        if setting.loaded_form(view, depth) is Some {
                            self.lemma_serves(&s3, setting);
                            s3.lemma_serves(&s2, setting);
                            s2.lemma_serves(&s1, setting);
                            assert(setting.form(register.d, depth) is Some);
                            assert(data == setting.form(register.d, depth)->0);
                            assert(active == setting.control_form(
                                enable.value,
                                enable.active_high,
                                depth,
                            )->0);
                            let inputs = choose|inputs: Inputs| #[trigger]
                                s3.admits(setting.env, inputs);
                            lemma_constant_word(s3.nodes(), inputs, held@);
                            assert(lits_value(s3.nodes(), inputs, held@) == held_word(setting.env));
                        }
                    }
                }
            }
            proof {
                assert forall|env: Env, inputs: Inputs| #[trigger]
                    self.admits(env, inputs) implies lits_value(self.nodes(), inputs, next@)
                    == loaded(env) by {
                    assert(s3.admits(env, inputs));
                    assert(lits_value(s3.nodes(), inputs, data) == data_word(env));
                    assert(lits_value(s3.nodes(), inputs, held@) == held_word(env));
                }
            }
        }
        proof {
            assert(self.means(next@, loaded)) by {
                assert forall|env: Env, inputs: Inputs| #[trigger]
                    self.admits(env, inputs) implies lits_value(self.nodes(), inputs, next@)
                    == loaded(env) by {
                    if register.enable is None {
                        assert(lits_value(self.nodes(), inputs, next@) == data_word(env));
                    }
                }
            }
            assert(register.resets@.skip(register.resets@.len() as int).len() == 0);
        }
        proof {
            if self.bound_signal() == Some(state) {
                assert forall|setting: Setting, depth: nat|
                    #![trigger setting.loaded_form(view, depth)]
                    self.serves(setting) implies (setting.loaded_form(view, depth) matches Some(row)
                    ==> next@ == row) by {
                    if setting.loaded_form(view, depth) is Some {
                        assert(setting.form(register.d, depth) is Some);
                        if view.enable is None {
                            assert(next@ == setting.form(register.d, depth)->0);
                        }
                    }
                }
            }
        }
        let ghost base = next@.len();
        let mut index: usize = register.resets.len();
        proof {
            let first = |env: Env|
                after_resets(module, env, view.resets.skip(index as int), loaded(env));
            assert forall|env: Env, inputs: Inputs| #[trigger]
                self.admits(env, inputs) implies lits_value(self.nodes(), inputs, next@) == first(
                env,
            ) by {}
            assert(self.means(next@, first));
        }
        while index > 0
            invariant
                index <= register.resets@.len(),
                view == register@,
                self.wf(),
                self.continues(old(self)),
                self.bound_signal() == Some(state) ==> self.opened(old(self)),
                self.bound_signal() == Some(state) ==> forall|setting: Setting, depth: nat|
                    #![trigger setting.loaded_form(view, depth)]
                    self.serves(setting) ==> (setting.reset_form(
                        view.resets.skip(index as int),
                        setting.loaded_form(view, depth),
                        depth,
                    ) matches Some(row) ==> next@ == row),
                self.nodes().len() + self.due() <= old(self).nodes().len() + old(self).due() + 4 * base + (
                register.resets@.len() - index) * (3 * base),
                register_cost(old(self).m(), view, state) == 4 * base + register.resets@.len() * (3 * base),
                module == self.m(),
                next@.len() == base,
                base == module.ty(register.d).width,
                module.ty(register.d).width == module.signals[state.raw as int].ty.width,
                module.inputs_below(OpView::Register(view), module.values.len() as int),
                module.op_typed(OpView::Register(view), module.ty(register.d)),
                inputs_list == op_inputs(OpView::Register(view)),
                self.means(
                    next@,
                    |env: Env|
                        after_resets(module, env, view.resets.skip(index as int), loaded(env)),
                ),
            decreases index,
        {
            index -= 1;
            let reset = register.resets[index];
            proof {
                super::gates::lemma_share(
                    (register.resets@.len() - 1 - index) as nat,
                    register.resets@.len(),
                    3 * base,
                );
            }
            let ghost earlier = *self;
            let ghost previous = next@;
            let ghost later = |env: Env|
                after_resets(module, env, view.resets.skip(index + 1), loaded(env));
            proof {
                crate::word::module::lemma_reset_inputs(register.resets@);
                let head = seq![register.d, register.clock] + crate::word::types::enable_inputs(
                    register.enable,
                );
                assert(reset == register.resets@[index as int]);
                assert(inputs_list[head.len() + 2 * index] == reset.value);
                assert(inputs_list[head.len() + 2 * index + 1] == reset.reset_value);
            }
            let active = match self.control(reset.value, reset.active_high) {
                Ok(lit) => lit,
                Err(error) => return Err(error),
            };
            let ghost s2 = *self;
            let reset_value = match self.value(reset.reset_value) {
                Ok(bits) => bits,
                Err(error) => return Err(error),
            };
            let ghost s3 = *self;
            proof {
                self.lemma_means(&earlier, previous, later);
            }
            next =
            match self.choose_rows(active, &reset_value, &next) {
                Ok(bits) => bits,
                Err(error) => {
                    assert(inputs_list[0] == register.d);
                    assert(self.m().has(register.d));
                        return Err(error);
                },
            };
            proof {
                if self.bound_signal() == Some(state) {
                    assert forall|setting: Setting, depth: nat|
                        #![trigger setting.loaded_form(view, depth)]
                        self.serves(setting) implies (setting.reset_form(
                        view.resets.skip(index as int),
                        setting.loaded_form(view, depth),
                        depth,
                    ) matches Some(row) ==> next@ == row) by {
                        let rest = view.resets.skip(index as int);
                        let loaded = setting.loaded_form(view, depth);
                        assert(rest[0] == reset);
                        assert(rest.skip(1) =~= view.resets.skip(index + 1));
                        if setting.reset_form(rest, loaded, depth) is Some {
                            self.lemma_serves(&s3, setting);
                            s3.lemma_serves(&s2, setting);
                            s2.lemma_serves(&earlier, setting);
                            assert(setting.reset_form(rest.skip(1), loaded, depth)->0 == previous);
                            assert(setting.form(reset.reset_value, depth)->0 == reset_value@);
                            assert(setting.control_form(
                                reset.value,
                                reset.active_high,
                                depth,
                            )->0 == active);
                        }
                    }
                }
            }
            proof {
                let now = |env: Env|
                    after_resets(module, env, view.resets.skip(index as int), loaded(env));
                assert forall|env: Env, inputs: Inputs| #[trigger]
                    self.admits(env, inputs) implies lits_value(self.nodes(), inputs, next@) == now(
                    env,
                ) by {
                    assert(s3.admits(env, inputs));
                    s3.lemma_admits(&s2, env, inputs);
                    assert(s2.admits(env, inputs));
                    assert(lit_value(s3.nodes(), inputs, active) == lit_value(
                        s2.nodes(),
                        inputs,
                        active,
                    ));
                    assert(lits_value(s3.nodes(), inputs, previous) == later(env));
                    let rest = view.resets.skip(index as int);
                    assert(rest[0] == reset);
                    assert(rest.skip(1) =~= view.resets.skip(index + 1));
                }
                assert(self.means(next@, now));
            }
        }
        proof {
            assert(view.resets.skip(0) =~= view.resets);
            if self.bound_signal() == Some(state) {
                assert forall|setting: Setting, depth: nat|
                    #![trigger setting.next_form(register@, depth)]
                    self.serves(setting) implies (setting.next_form(
                    register@,
                    depth,
                ) matches Some(row) ==> next@ == row) by {
                    let loaded = setting.loaded_form(view, depth);
                }
            }
        }
        proof {
            let word = |env: Env| register_next_word(module, env, view, state);
            assert(view.resets.skip(0) =~= view.resets);
            assert forall|env: Env, inputs: Inputs| #[trigger]
                self.admits(env, inputs) implies lits_value(self.nodes(), inputs, next@) == word(
                env,
            ) by {}
        }
        Ok(next)
    }
}

/// An encoding without bound signals or drivers gives, for any environment, the
/// word of its value once its inputs carry the signal bits that they are named
/// after.
pub proof fn encoding_matches_word_semantics(
    encoder: WordLogicEncoder,
    lits: Seq<Lit>,
    value: ValueId,
    env: Env,
)
    requires
        encoder.encodes(lits, value.raw as int),
        encoder.drivers is None,
        encoder.bound is None,
    ensures
        ({
            let order = encoder.external_order@;
            let inputs = Inputs {
                value: |k: int| (env.signal)(order[k].0.raw as int, order[k].1 as int),
            };
            lits_value(encoder.nodes(), inputs, lits) == word_of(encoder.m(), env, value)
        }),
{
    let order = encoder.external_order@;
    let inputs = Inputs {
        value: |k: int| (env.signal)(order[k].0.raw as int, order[k].1 as int),
    };
    assert(encoder.admits(env, inputs));
}

} // verus!
