//! Signals that stand for the value that drives them.

use super::canonical::{even_env, map_ok, same_value, sound_map};
use super::representatives::{
    close_representatives, closed_from, ends_at, first_stuck, followed, leads_to, lemma_stays_inside,
    settles, stuck_error,
};
use crate::error::{Invariant, SynthError};
use crate::word::drivers::{bit_driver, folded_driver, high_end, low_end, plain_bit};
use crate::word::module::{
    Connect, KindView, LValue, ModuleView, SignalRef, SignalResolution, ValueKind, WordModule,
};
use crate::word::semantics::{lemma_eval_width, word_of, Env};
use crate::word::types::{is_state, OpKind, SignalId, ValueId};
use vstd::prelude::*;

verus! {

/// What drives a bit, as far as connections of single bits go.
#[derive(Clone, Copy, PartialEq, Eq, Structural, Debug)]
pub enum Driver {
    Absent,
    Unique(ValueId),
    Multiple,
}

/// One bit of a signal.
#[derive(Clone, Copy, PartialEq, Eq, Structural, Debug)]
pub struct SignalBit {
    pub signal: SignalId,
    pub bit: u32,
}

/// The single bit that a fixed target covers, if it is one.
pub open spec fn single_bit(module: ModuleView, target: LValue) -> Option<SignalBit> {
    match target.range {
        None => if module.signals[target.signal.raw as int].ty.width == 1 {
            Some(SignalBit { signal: target.signal, bit: 0 })
        } else {
            None
        },
        Some(range) => if range.msb == range.lsb {
            Some(SignalBit { signal: target.signal, bit: range.lsb })
        } else {
            None
        },
    }
}

/// Whether a connection alone drives one bit with a value of one bit.
pub open spec fn is_scalar(module: ModuleView, connect: Connect) -> bool {
    &&& single_bit(module, connect.target) is Some
    &&& module.ty(connect.value).width == 1
    &&& !(module.signals[connect.target.signal.raw as int].resolution is TriState)
}

/// What is wrong with a connection: its target is computed, or its bit is not
/// there.
pub open spec fn fault(module: ModuleView, connect: Connect) -> Option<SynthError> {
    if connect.target.dynamic is Some {
        Some(SynthError::Invariant(Invariant::DynamicTarget))
    } else if is_scalar(module, connect) && single_bit(module, connect.target)->0.bit
        >= module.signals[connect.target.signal.raw as int].ty.width {
        Some(SynthError::Invariant(Invariant::MissingBit))
    } else {
        None
    }
}

/// The first fault among the first connections.
pub open spec fn first_fault(module: ModuleView, count: nat) -> Option<SynthError>
    decreases count,
{
    if count == 0 {
        None
    } else {
        match first_fault(module, (count - 1) as nat) {
            Some(error) => Some(error),
            None => fault(module, module.connects[count - 1]),
        }
    }
}

/// What the first connections drive a bit with.
pub open spec fn scalar_driver(module: ModuleView, bit: SignalBit, count: nat) -> Driver
    decreases count,
{
    if count == 0 {
        Driver::Absent
    } else {
        let below = scalar_driver(module, bit, (count - 1) as nat);
        let connect = module.connects[count - 1];
        if is_scalar(module, connect) && single_bit(module, connect.target) == Some(bit) {
            match below {
                Driver::Absent => Driver::Unique(connect.value),
                _ => Driver::Multiple,
            }
        } else {
            below
        }
    }
}

/// The single bit that a target covers; a computed target is refused.
fn scalar_target(module: &WordModule, target: &LValue) -> (result: Result<
    Option<SignalBit>,
    SynthError,
>)
    requires
        target.signal.raw < module@.signals.len(),
    ensures
        result == (if target.dynamic is Some {
            Err(SynthError::Invariant(Invariant::DynamicTarget))
        } else {
            Ok(single_bit(module@, *target))
        }),
{
    if target.dynamic.is_some() {
        return Err(SynthError::Invariant(Invariant::DynamicTarget));
    }
    match target.range {
        None => if module.signals[target.signal.raw as usize].ty.width == 1 {
            Ok(Some(SignalBit { signal: target.signal, bit: 0 }))
        } else {
            Ok(None)
        },
        Some(range) => if range.msb == range.lsb {
            Ok(Some(SignalBit { signal: target.signal, bit: range.lsb }))
        } else {
            Ok(None)
        },
    }
}

/// The drivers of single bits, a row for each signal.
pub struct DriverIndex {
    pub by_bit: Vec<Vec<Driver>>,
}

impl DriverIndex {
    pub open spec fn lists(&self, module: ModuleView, count: nat) -> bool {
        &&& self.by_bit@.len() == module.signals.len()
        &&& forall|s: int|
            0 <= s < self.by_bit@.len() ==> (#[trigger] self.by_bit@[s])@.len()
                == module.signals[s].ty.width
        &&& forall|s: int, b: int|
            0 <= s < self.by_bit@.len() && 0 <= b < module.signals[s].ty.width ==> (
            #[trigger] self.by_bit@[s]@[b]) == scalar_driver(
                module,
                SignalBit { signal: SignalId { raw: s as u32 }, bit: b as u32 },
                count,
            )
    }

    /// The drivers of a module's bits, unless a connection is at fault.
    pub fn build(module: &WordModule) -> (result: Result<Self, SynthError>)
        requires
            module@.wf(),
        ensures
            match result {
                Ok(drivers) => drivers.lists(module@, module@.connects.len()) && first_fault(
                    module@,
                    module@.connects.len(),
                ) is None,
                Err(error) => first_fault(module@, module@.connects.len()) == Some(error),
            },
    {
        let ghost view = module@;
        let mut by_bit: Vec<Vec<Driver>> = Vec::new();
        let mut s: usize = 0;
        while s < module.signals.len()
            invariant
                view == module@,
                s <= view.signals.len(),
                by_bit@.len() == s,
                forall|i: int|
                    0 <= i < s ==> (#[trigger] by_bit@[i])@ == Seq::new(
                        view.signals[i].ty.width as nat,
                        |b: int| Driver::Absent,
                    ),
            decreases module.signals.len() - s,
        {
            let width: usize = module.signals[s].ty.width as usize;
            let mut row: Vec<Driver> = Vec::new();
            let mut b: usize = 0;
            while b < width
                invariant
                    b <= width,
                    row@ =~= Seq::new(b as nat, |i: int| Driver::Absent),
                decreases width - b,
            {
                row.push(Driver::Absent);
                b += 1;
            }
            by_bit.push(row);
            s += 1;
        }
        let mut index = DriverIndex { by_bit };
        let mut c: usize = 0;
        while c < module.connects.len()
            invariant
                view == module@,
                view.wf(),
                c <= view.connects.len(),
                index.lists(view, c as nat),
                first_fault(view, c as nat) is None,
            decreases module.connects.len() - c,
        {
            let ghost before = index;
            let connect = module.connects[c];
            assert(view.connect_ok(view.connects[c as int]));
            assert(view.values[connect.value.raw as int]
                == module.values@[connect.value.raw as int]@);
            let target = match scalar_target(module, &connect.target) {
                Ok(target) => target,
                Err(error) => {
                    proof {
                        lemma_fault_stays(view, (c + 1) as nat, view.connects.len());
                    }
                    return Err(error);
                },
            };
            if let Some(bit) = target {
                let single = matches!(
                    module.signals[bit.signal.raw as usize].resolution,
                    SignalResolution::Single
                );
                if module.values[connect.value.raw as usize].ty.width == 1 && single {
                    let signal: usize = bit.signal.raw as usize;
                    if bit.bit as usize >= index.by_bit[signal].len() {
                        proof {
                            lemma_fault_stays(view, (c + 1) as nat, view.connects.len());
                        }
                        return Err(SynthError::Invariant(Invariant::MissingBit));
                    }
                    let held = index.by_bit[signal][bit.bit as usize];
                    let next = match held {
                        Driver::Absent => Driver::Unique(connect.value),
                        _ => Driver::Multiple,
                    };
                    assert(bit.signal == (SignalId { raw: signal as int as u32 }));
                    index.by_bit[signal].set(bit.bit as usize, next);
                }
            }
            proof {
                assert forall|s: int, b: int|
                    0 <= s < index.by_bit@.len() && 0 <= b < view.signals[s].ty.width implies (
                #[trigger] index.by_bit@[s]@[b]) == scalar_driver(
                    view,
                    SignalBit { signal: SignalId { raw: s as u32 }, bit: b as u32 },
                    (c + 1) as nat,
                ) by {
                    assert(before.by_bit@[s]@[b] == scalar_driver(
                        view,
                        SignalBit { signal: SignalId { raw: s as u32 }, bit: b as u32 },
                        c as nat,
                    ));
                }
            }
            c += 1;
        }
        Ok(index)
    }
}

proof fn lemma_fault_stays(module: ModuleView, count: nat, total: nat)
    requires
        count <= total <= module.connects.len(),
        first_fault(module, count) is Some,
    ensures
        first_fault(module, total) == first_fault(module, count),
    decreases total - count,
{
    if count < total {
        lemma_fault_stays(module, count, (total - 1) as nat);
    }
}

/// Where a connection's run of bits starts and ends.
pub open spec fn run_start(connect: Connect) -> int {
    match connect.target.range {
        None => 0,
        Some(range) => low_end(range) as int,
    }
}

pub open spec fn run_end(module: ModuleView, connect: Connect) -> int {
    match connect.target.range {
        None => module.signals[connect.target.signal.raw as int].ty.width as int,
        Some(range) => if high_end(range) == u32::MAX {
            u32::MAX as int
        } else {
            high_end(range) + 1
        },
    }
}

pub open spec fn overlaps(module: ModuleView, connect: Connect, reference: SignalRef) -> bool {
    run_start(connect) < reference.lsb + reference.width && reference.lsb < run_end(module, connect)
}

/// A connection that covers a reference exactly, bit for bit.
pub open spec fn matches_run(module: ModuleView, connect: Connect, reference: SignalRef) -> bool {
    &&& connect.target.range matches Some(range) ==> range.msb >= range.lsb
    &&& run_start(connect) == reference.lsb
    &&& run_end(module, connect) == reference.lsb + reference.width
}

/// A connection that alone drives a reference, among the first connections.
pub open spec fn drives_exactly(module: ModuleView, reference: SignalRef, i: int, count: int) -> bool {
    &&& 0 <= i < count
    &&& module.connects[i].target.signal == reference.signal
    &&& matches_run(module, module.connects[i], reference)
    &&& forall|j: int|
        0 <= j < count && (#[trigger] module.connects[j]).target.signal == reference.signal ==> {
            &&& module.connects[j].target.dynamic is None
            &&& j != i ==> !overlaps(module, module.connects[j], reference)
        }
}

pub open spec fn driven_exactly(module: ModuleView, reference: SignalRef) -> bool {
    exists|i: int|
        #[trigger] drives_exactly(module, reference, i, module.connects.len() as int)
}

/// The value that a connection of just these bits drives them with.
pub open spec fn exact_driver(module: ModuleView, reference: SignalRef) -> Option<ValueId> {
    if driven_exactly(module, reference) {
        Some(
            module.connects[choose|i: int|
                #[trigger] drives_exactly(
                    module,
                    reference,
                    i,
                    module.connects.len() as int,
                )].value,
        )
    } else {
        None
    }
}

/// Finds the value that a connection of just these bits drives them with.
pub fn exact_static_driver(module: &WordModule, reference: SignalRef) -> (driver: Option<ValueId>)
    requires
        module@.wf(),
        module@.signal_ref_ok(reference),
    ensures
        driver == exact_driver(module@, reference),
{
    let ghost view = module@;
    let ghost total = view.connects.len() as int;
    let reference_end: u32 = reference.lsb + reference.width;
    let signal_width: u32 = module.signals[reference.signal.raw as usize].ty.width;
    let mut driver: Option<ValueId> = None;
    let ghost mut place: int = -1;
    let mut c: usize = 0;
    while c < module.connects.len()
        invariant
            view == module@,
            view.wf(),
            view.signal_ref_ok(reference),
            total == view.connects.len(),
            reference_end == reference.lsb + reference.width,
            signal_width == view.signals[reference.signal.raw as int].ty.width,
            c <= view.connects.len(),
            forall|j: int|
                0 <= j < c && (#[trigger] view.connects[j]).target.signal == reference.signal ==> {
                    &&& view.connects[j].target.dynamic is None
                    &&& j != place ==> !overlaps(view, view.connects[j], reference)
                },
            driver is None <==> place == -1,
            driver matches Some(value) ==> 0 <= place < c && drives_exactly(
                view,
                reference,
                place,
                c as int,
            ) && value == view.connects[place].value,
        decreases module.connects.len() - c,
    {
        let connect = module.connects[c];
        assert(view.connect_ok(view.connects[c as int]));
        if connect.target.signal == reference.signal {
            if connect.target.dynamic.is_some() {
                proof {
                    assert(view.connects[c as int].target.dynamic is Some);
                }
                return None;
            }
            let (start, end, forward): (u32, u32, bool) = match connect.target.range {
                None => (0, signal_width, true),
                Some(range) => {
                    let low: u32 = if range.msb <= range.lsb {
                        range.msb
                    } else {
                        range.lsb
                    };
                    let high: u32 = if range.msb <= range.lsb {
                        range.lsb
                    } else {
                        range.msb
                    };
                    let end: u32 = if high == u32::MAX {
                        u32::MAX
                    } else {
                        high + 1
                    };
                    (low, end, range.msb >= range.lsb)
                },
            };
            if start < reference_end && reference.lsb < end {
                if !forward || start != reference.lsb || end != reference_end || driver.is_some() {
                    proof {
                        assert(overlaps(view, view.connects[c as int], reference));
                        if driven_exactly(view, reference) {
                            let i = choose|i: int|
                                #[trigger] drives_exactly(view, reference, i, total);
                            assert(view.connects[c as int].target.signal == reference.signal);
                            assert(i == c);
                            if driver is Some {
                                assert(overlaps(view, view.connects[place], reference));
                            }
                        }
                    }
                    return None;
                }
                driver = Some(connect.value);
                proof {
                    place = c as int;
                }
            }
        }
        c += 1;
    }
    proof {
        if driver is Some {
            assert(drives_exactly(view, reference, place, total));
            let i = choose|i: int| #[trigger] drives_exactly(view, reference, i, total);
            assert(overlaps(view, view.connects[place], reference));
            assert(i == place);
        } else if driven_exactly(view, reference) {
            let i = choose|i: int| #[trigger] drives_exactly(view, reference, i, total);
            assert(overlaps(view, view.connects[i], reference));
        }
    }
    driver
}

/// Whether a value is a stored state.
pub open spec fn is_register(module: ModuleView, value: ValueId) -> bool {
    module.op_of(value) matches Some(kind) && is_state(kind)
}

/// Whether a value is a stored state.
pub fn is_register_value(module: &WordModule, value: ValueId) -> (register: bool)
    requires
        module@.wf(),
        module@.has(value),
    ensures
        register == is_register(module@, value),
{
    assert(module@.value_ok(value.raw as int));
    let stored = &module.values[value.raw as usize];
    assert(module@.values[value.raw as int] == stored@);
    match &stored.kind {
        ValueKind::Operation(operation) => {
            let kind = &module.operations[operation.raw as usize].kind;
            assert(kind@ == module@.operations[operation.raw as int].kind);
            match kind {
                OpKind::Register(_) | OpKind::Latch(_) => true,
                _ => false,
            }
        },
        _ => false,
    }
}

/// The driver that a read of a signal may be replaced by.
pub open spec fn alias_driver(module: ModuleView, value: ValueId) -> Option<ValueId> {
    match module.kind(value) {
        KindView::Signal(reference) => if module.signals[reference.signal.raw as int].preserved
            || module.signals[reference.signal.raw as int].resolution is TriState {
            None
        } else {
            match exact_driver(module, reference) {
                Some(driver) => if is_register(module, driver) {
                    None
                } else {
                    Some(driver)
                },
                None => None,
            }
        },
        _ => None,
    }
}

/// Reads of signals stand for what drives the signals.
pub open spec fn alias_map(module: ModuleView) -> Seq<ValueId> {
    Seq::new(
        module.values.len(),
        |v: int|
            match alias_driver(module, ValueId { raw: v as u32 }) {
                Some(driver) => driver,
                None => ValueId { raw: v as u32 },
            },
    )
}

/// A signal that is driven by a read of itself.
pub open spec fn drives_itself(module: ModuleView, value: ValueId) -> bool {
    module.has(value) && alias_driver(module, value) == Some(value)
}

/// No read of a signal leads back to itself.
pub open spec fn aliases_end(module: ModuleView) -> bool {
    &&& forall|value: ValueId| !(#[trigger] drives_itself(module, value))
    &&& forall|v: int|
        0 <= v < module.values.len() ==> #[trigger] settles(alias_map(module), v)
}

/// The driver that a read of a signal may be replaced by.
fn find_alias(module: &WordModule, value: ValueId) -> (driver: Option<ValueId>)
    requires
        module@.wf(),
        module@.has(value),
    ensures
        driver == alias_driver(module@, value),
        driver matches Some(found) ==> module@.has(found),
{
    assert(module@.value_ok(value.raw as int));
    let stored = &module.values[value.raw as usize];
    assert(module@.values[value.raw as int] == stored@);
    match &stored.kind {
        ValueKind::Signal(reference) => {
            if module.signals[reference.signal.raw as usize].preserved {
                return None;
            }
            match module.signals[reference.signal.raw as usize].resolution {
                SignalResolution::TriState => {
                    return None;
                },
                SignalResolution::Single => {},
            }
            let reference = *reference;
            match exact_static_driver(module, reference) {
                Some(driver) => {
                    assert(module@.has(driver)) by {
                        let total = module@.connects.len() as int;
                        let i = choose|i: int|
                            #[trigger] drives_exactly(module@, reference, i, total);
                        assert(module@.connect_ok(module@.connects[i]));
                    }
                    if is_register_value(module, driver) {
                        None
                    } else {
                        Some(driver)
                    }
                },
                None => None,
            }
        },
        _ => None,
    }
}

/// Makes every read of a signal stand for what drives the signal in the end.
pub fn resolve_aliases(module: &WordModule) -> (result: Result<Vec<ValueId>, SynthError>)
    requires
        module@.wf(),
    ensures
        result is Ok <==> aliases_end(module@),
        result matches Ok(map) ==> closed_from(alias_map(module@), map@) && map_ok(module@, map@),
        result matches Err(error) ==> error == SynthError::Invariant(Invariant::CombinationalCycle),
{
    let ghost view = module@;
    let mut map: Vec<ValueId> = Vec::new();
    let mut v: usize = 0;
    while v < module.values.len()
        invariant
            view == module@,
            view.wf(),
            v <= view.values.len(),
            map@ =~= alias_map(view).take(v as int),
            forall|i: int| 0 <= i < v ==> view.has(#[trigger] map@[i]),
            forall|value: ValueId|
                value.raw < v ==> !(#[trigger] drives_itself(view, value)),
        decreases module.values.len() - v,
    {
        let value = ValueId { raw: v as u32 };
        match find_alias(module, value) {
            Some(driver) => {
                if driver == value {
                    assert(drives_itself(view, value));
                    return Err(SynthError::Invariant(Invariant::CombinationalCycle));
                }
                map.push(driver);
            },
            None => {
                map.push(value);
            },
        }
        v += 1;
    }
    assert(map@ =~= alias_map(view));
    assert forall|i: int| 0 <= i < alias_map(view).len() implies (#[trigger] alias_map(view)[i]).raw
        < alias_map(view).len() by {
        assert(view.has(map@[i]));
    }
    match close_representatives(&mut map) {
        Ok(()) => {
            proof {
                lemma_closed_map(view, alias_map(view), map@);
            }
            Ok(map)
        },
        Err(error) => {
            proof {
                let stuck = choose|v: int| #[trigger]
                    first_stuck(alias_map(view), v) && error == stuck_error(alias_map(view), v);
                lemma_stays_inside(alias_map(view), stuck);
            }
            Err(error)
        },
    }
}

/// The ends of chains are values of the module.
pub proof fn lemma_closed_map(module: ModuleView, before: Seq<ValueId>, after: Seq<ValueId>)
    requires
        before.len() == module.values.len(),
        closed_from(before, after),
    ensures
        map_ok(module, after),
{
    assert forall|v: int| 0 <= v < after.len() implies module.has(#[trigger] after[v]) by {
        assert(leads_to(before, v, after[v].raw as int));
    }
}

/// Following a sound map from a value leads to values that are the same.
proof fn lemma_followed_same(module: ModuleView, map: Seq<ValueId>, value: ValueId, steps: nat)
    requires
        sound_map(module, map),
        module.has(value),
    ensures
        0 <= followed(map, value.raw as int, steps) < module.values.len(),
        followed(map, value.raw as int, steps) <= u32::MAX,
        same_value(
            module,
            value,
            ValueId { raw: followed(map, value.raw as int, steps) as u32 },
        ),
    decreases steps,
{
    if steps > 0 {
        lemma_followed_same(module, map, value, (steps - 1) as nat);
        let below = followed(map, value.raw as int, (steps - 1) as nat);
        let middle = ValueId { raw: below as u32 };
        assert(same_value(module, middle, map[middle.raw as int]));
    }
}

/// A closed map is sound if the map it was closed from is.
pub proof fn closing_keeps_values(module: ModuleView, before: Seq<ValueId>, after: Seq<ValueId>)
    requires
        sound_map(module, before),
        closed_from(before, after),
    ensures
        sound_map(module, after),
{
    assert forall|v: ValueId| module.has(v) implies same_value(
        module,
        v,
        #[trigger] after[v.raw as int],
    ) by {
        let end = after[v.raw as int].raw as int;
        assert(leads_to(before, v.raw as int, end));
        let steps = choose|steps: nat|
            #[trigger] ends_at(before, v.raw as int, end, steps);
        lemma_followed_same(module, before, v, steps);
        assert(after[v.raw as int] == (ValueId { raw: end as u32 }));
    }
}


/// The only connection that covers a bit drives it.
proof fn lemma_exact_bit(module: ModuleView, reference: SignalRef, i: int, bit: int, count: nat)
    requires
        module.wf(),
        module.signal_ref_ok(reference),
        drives_exactly(module, reference, i, module.connects.len() as int),
        reference.lsb <= bit < reference.lsb + reference.width,
        count <= module.connects.len(),
    ensures
        folded_driver(module, reference.signal, bit, count) == (if i < count {
            (1nat, plain_bit(module, module.connects[i], bit))
        } else {
            (0nat, None)
        }),
    decreases count,
{
    if count > 0 {
        lemma_exact_bit(module, reference, i, bit, (count - 1) as nat);
        let j = count - 1;
        let connect = module.connects[j];
        assert(module.connect_ok(connect));
        if connect.target.signal == reference.signal && j != i {
            assert(!overlaps(module, connect, reference));
        }
    }
}

/// No connection reaches the last bit that can be numbered.
pub open spec fn bounded_runs(module: ModuleView) -> bool {
    forall|i: int|
        0 <= i < module.connects.len() ==> ((#[trigger] module.connects[i]).target.range matches Some(
            range,
        ) ==> high_end(range) < u32::MAX)
}

/// A read of a signal is the same as what drives the signal, if the two have
/// one type.
pub proof fn reads_are_their_drivers(module: ModuleView, value: ValueId)
    requires
        module.wf(),
        bounded_runs(module),
        module.has(value),
        alias_driver(module, value) is Some,
        module.ty(alias_driver(module, value)->0) == module.ty(value),
    ensures
        same_value(module, value, alias_driver(module, value)->0),
{
    let driver = alias_driver(module, value)->0;
    let reference = module.kind(value)->Signal_0;
    let total = module.connects.len() as int;
    assert(module.value_ok(value.raw as int));
    let i = choose|i: int| #[trigger] drives_exactly(module, reference, i, total);
    assert(drives_exactly(module, reference, i, total));
    assert(module.connect_ok(module.connects[i]));
    assert forall|env: Env| #[trigger] even_env(module, env) implies word_of(module, env, value)
        == word_of(module, env, driver) by {
        let left = word_of(module, env, value);
        let right = word_of(module, env, driver);
        lemma_eval_width(module, env, driver.raw as int);
        assert forall|k: int| 0 <= k < reference.width implies left[k] == right[k] by {
            let bit = reference.lsb + k;
            lemma_exact_bit(module, reference, i, bit, module.connects.len());
            assert(bit_driver(module, reference.signal, bit) == plain_bit(
                module,
                module.connects[i],
                bit,
            ));
            assert(bit_driver(module, reference.signal, bit) is Some);
            assert((env.signal)(reference.signal.raw as int, bit) == right[k]);
        }
        assert(left =~= right);
    }
}

/// Reads of signals may stand for the drivers, if those have their types.
pub proof fn aliases_are_sound(module: ModuleView)
    requires
        module.wf(),
        bounded_runs(module),
        forall|value: ValueId|
            module.has(value) ==> ((#[trigger] alias_driver(module, value)) matches Some(driver)
                ==> module.ty(driver) == module.ty(value)),
    ensures
        sound_map(module, alias_map(module)),
{
    let map = alias_map(module);
    assert forall|v: ValueId| module.has(v) implies same_value(
        module,
        v,
        #[trigger] map[v.raw as int],
    ) by {
        assert(v == (ValueId { raw: v.raw as int as u32 }));
        if alias_driver(module, v) is Some {
            reads_are_their_drivers(module, v);
        }
    }
}

} // verus!
