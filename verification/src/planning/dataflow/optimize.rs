//! Replacing the combinational values of a module by simpler ones.

use super::aliases::{
    alias_map, aliases_end, closing_keeps_values, first_fault, is_register, is_register_value,
    lemma_closed_map, resolve_aliases, scalar_driver, single_bit, Driver, DriverIndex, SignalBit,
};
use super::canonical::{evenly_typed, map_ok, same_value, sound_map};
use super::compare::{canonicalize_values_by, compared, compared_values_are_the_same, permits};
use super::folding::{facts_agree, folded_by, folds};
use super::priority::rebalance::{
    ranges_follow, rebalance_constant_priority_muxes_by, rebalanced, GeneratedOperations,
};
use super::representatives::{
    close_representatives, closed_from, closing_is_idempotent, first_stuck, is_terminal,
    lemma_end_unique, lemma_stays_inside, stuck_error,
    lemma_leads_step, lemma_terminal, leads_to, settles,
};
use super::substitution::{
    moves, renamed_connects, renamed_instances, renamed_operations, renamed_reads, renamed_writes,
    rewrite_connects, rewrite_instances, rewrite_memory_ports, rewrite_operations,
};
use crate::error::{Invariant, SynthError};
use crate::planning::fsm::transition::facts_view;
use crate::word::emit::{ran_out, stable};
use crate::word::module::{Connect, KindView, ModuleView, SignalKind, ValueKind, WordModule};
use crate::word::semantics::{eval, lemma_eval_grows, Env};
use crate::word::types::{op_inputs, operation_inputs, BitVal, ConstBits, SignalId, ValueId};
use crate::word::uses::{direct_value_uses, used_values};
use vstd::prelude::*;

verus! {

/// What the values of a module stand for after a rewrite.
pub struct DataflowChanges {
    pub representatives: Vec<ValueId>,
    pub changed: bool,
}

/// Every value stands for itself.
pub open spec fn identity_map(count: nat) -> Seq<ValueId> {
    Seq::new(count, |v: int| ValueId { raw: v as u32 })
}

/// Pairs applied one after the other.
pub open spec fn aliased(map: Seq<ValueId>, aliases: Seq<(ValueId, ValueId)>) -> Seq<ValueId>
    decreases aliases.len(),
{
    if aliases.len() == 0 {
        map
    } else {
        aliased(map, aliases.drop_last()).update(aliases.last().0.raw as int, aliases.last().1)
    }
}

impl DataflowChanges {
    /// No value stands for another.
    pub fn identity(value_count: usize) -> (changes: Self)
        requires
            value_count <= u32::MAX,
        ensures
            changes.representatives@ == identity_map(value_count as nat),
            !changes.changed,
    {
        let mut representatives: Vec<ValueId> = Vec::new();
        let mut v: usize = 0;
        while v < value_count
            invariant
                v <= value_count <= u32::MAX,
                representatives@ =~= identity_map(v as nat),
            decreases value_count - v,
        {
            representatives.push(ValueId { raw: v as u32 });
            v += 1;
        }
        DataflowChanges { representatives, changed: false }
    }

    /// Each first value of a pair stands for the second.
    pub fn from_aliases(value_count: usize, aliases: &Vec<(ValueId, ValueId)>) -> (result: Result<
        Self,
        SynthError,
    >)
        requires
            value_count <= u32::MAX,
        ensures
            result is Ok <==> forall|i: int|
                0 <= i < aliases@.len() ==> (#[trigger] aliases@[i]).0.raw < value_count,
            result matches Ok(changes) ==> changes.representatives@ == aliased(
                identity_map(value_count as nat),
                aliases@,
            ) && changes.changed == (aliases@.len() > 0),
            result matches Err(error) ==> error == SynthError::Invariant(Invariant::UnknownValue),
    {
        let start = DataflowChanges::identity(value_count);
        let mut representatives = start.representatives;
        let ghost base = identity_map(value_count as nat);
        let mut i: usize = 0;
        while i < aliases.len()
            invariant
                i <= aliases@.len(),
                base.len() == value_count,
                representatives@.len() == value_count,
                representatives@ == aliased(base, aliases@.take(i as int)),
                forall|k: int| 0 <= k < i ==> (#[trigger] aliases@[k]).0.raw < value_count,
            decreases aliases.len() - i,
        {
            let pair = aliases[i];
            if pair.0.raw as usize >= value_count {
                assert(aliases@[i as int].0.raw >= value_count);
                return Err(SynthError::Invariant(Invariant::UnknownValue));
            }
            assert(aliases@.take(i + 1).drop_last() =~= aliases@.take(i as int));
            representatives.set(pair.0.raw as usize, pair.1);
            i += 1;
        }
        assert(aliases@.take(i as int) =~= aliases@);
        Ok(DataflowChanges { representatives, changed: aliases.len() > 0 })
    }

    /// Whether some value stands for another.
    pub fn has_equivalences(&self) -> (changed: bool)
        ensures
            changed == self.changed,
    {
        self.changed
    }
}

/// A value that is used after every use went over to what it stands for.
pub open spec fn use_moves_to(module: ModuleView, map: Seq<ValueId>, value: ValueId, k: int) -> bool {
    &&& 0 <= k < used_values(module).len()
    &&& module.has(used_values(module)[k])
    &&& map[used_values(module)[k].raw as int] == value
}

/// An operand that an operation keeps.
pub open spec fn stays_operand(
    module: ModuleView,
    map: Seq<ValueId>,
    value: ValueId,
    operation: int,
    k: int,
) -> bool {
    &&& 0 <= operation < module.operations.len()
    &&& 0 <= k < op_inputs(module.operations[operation].kind).len()
    &&& op_inputs(module.operations[operation].kind)[k] == value
    &&& !moves(module, map, module.operations[operation].result.raw as int, value)
}

/// Whether a value still has a use after a rewrite.
pub open spec fn keeps_use(module: ModuleView, map: Seq<ValueId>, value: ValueId) -> bool {
    ||| exists|k: int| #[trigger] use_moves_to(module, map, value, k)
    ||| exists|operation: int, k: int| #[trigger]
        stays_operand(module, map, value, operation, k)
}

/// A used read of a bit.
pub open spec fn reads_bit(module: ModuleView, map: Seq<ValueId>, bit: SignalBit, value: ValueId) -> bool {
    &&& module.has(value)
    &&& module.kind(value) matches KindView::Signal(reference) && {
        &&& reference.signal == bit.signal
        &&& reference.lsb <= bit.bit < reference.lsb + reference.width
    }
    &&& keeps_use(module, map, value)
}

pub open spec fn bit_is_read(module: ModuleView, map: Seq<ValueId>, bit: SignalBit) -> bool {
    exists|value: ValueId| #[trigger] reads_bit(module, map, bit, value)
}

/// Whether a connection drives nothing that is read: the only connection of a
/// bit of a wire that nothing reads and nobody asked to keep.
pub open spec fn removable(module: ModuleView, map: Seq<ValueId>, connect: Connect) -> bool {
    &&& single_bit(module, connect.target) matches Some(bit) && {
        &&& bit.bit < module.signals[bit.signal.raw as int].ty.width
        &&& scalar_driver(module, bit, module.connects.len()) is Unique
        &&& !module.signals[bit.signal.raw as int].preserved
        &&& !bit_is_read(module, map, bit)
        &&& module.signals[bit.signal.raw as int].kind is Wire
    }
    &&& !is_register(module, connect.value)
}

/// Marks the values that still have a use after a rewrite.
fn used_after(module: &WordModule, map: &Vec<ValueId>) -> (used: Vec<bool>)
    requires
        module@.wf(),
        map_ok(module@, map@),
    ensures
        used@.len() == module@.values.len(),
        forall|v: ValueId|
            module@.has(v) ==> #[trigger] used@[v.raw as int] == keeps_use(module@, map@, v),
{
    let ghost view = module@;
    let uses = direct_value_uses(module);
    let total: usize = module.values.len();
    let mut used: Vec<bool> = Vec::new();
    used.resize(total, false);
    let mut i: usize = 0;
    while i < uses.len()
        invariant
            view == module@,
            uses@ == used_values(view),
            map_ok(view, map@),
            total == view.values.len(),
            used@.len() == total,
            i <= uses@.len(),
            forall|v: ValueId|
                view.has(v) ==> #[trigger] used@[v.raw as int] == (exists|k: int|
                    k < i && #[trigger] use_moves_to(view, map@, v, k)),
        decreases uses.len() - i,
    {
        let ghost before = used@;
        let value = uses[i];
        if (value.raw as usize) < total {
            assert(view.has(map@[value.raw as int]));
            used.set(map[value.raw as usize].raw as usize, true);
        }
        proof {
            assert forall|v: ValueId| view.has(v) implies #[trigger] used@[v.raw as int] == (
            exists|k: int| k < i + 1 && #[trigger] use_moves_to(view, map@, v, k)) by {
                let moved = use_moves_to(view, map@, v, i as int);
                if moved {
                    assert(map@[value.raw as int] == v);
                }
                if used@[v.raw as int] && !before[v.raw as int] {
                    assert(map@[value.raw as int].raw == v.raw);
                    assert(map@[value.raw as int] == v);
                    assert(use_moves_to(view, map@, v, i as int));
                }
                if before[v.raw as int] {
                    let k = choose|k: int| k < i && #[trigger] use_moves_to(view, map@, v, k);
                    assert(k < i + 1 && use_moves_to(view, map@, v, k));
                }
            }
        }
        i += 1;
    }
    let ghost first = used@;
    let mut o: usize = 0;
    while o < module.operations.len()
        invariant
            view == module@,
            view.wf(),
            map_ok(view, map@),
            total == view.values.len(),
            used@.len() == total,
            o <= view.operations.len(),
            forall|v: ValueId|
                view.has(v) ==> #[trigger] used@[v.raw as int] == (first[v.raw as int] || (exists|
                    operation: int,
                    k: int,
                |
                    operation < o && #[trigger] stays_operand(view, map@, v, operation, k))),
            first.len() == total,
        decreases module.operations.len() - o,
    {
        let ghost outer = used@;
        let operation = &module.operations[o];
        assert(operation@ == view.operations[o as int]);
        assert(view.operation_ok(o as int));
        let bound: u32 = operation.result.raw;
        let inputs = operation_inputs(&operation.kind);
        let mut k: usize = 0;
        while k < inputs.len()
            invariant
                view == module@,
                view.wf(),
                map_ok(view, map@),
                total == view.values.len(),
                used@.len() == total,
                o < view.operations.len(),
                bound == view.operations[o as int].result.raw,
                inputs@ == op_inputs(view.operations[o as int].kind),
                forall|j: int| 0 <= j < inputs@.len() ==> view.has(#[trigger] inputs@[j]),
                k <= inputs@.len(),
                outer.len() == total,
                forall|v: ValueId|
                    view.has(v) ==> #[trigger] used@[v.raw as int] == (outer[v.raw as int] || (
                    exists|j: int|
                        j < k && #[trigger] stays_operand(view, map@, v, o as int, j))),
            decreases inputs.len() - k,
        {
            let ghost before = used@;
            let input = inputs[k];
            assert(view.has(inputs@[k as int]));
            let other = map[input.raw as usize];
            assert(view.has(map@[input.raw as int]));
            assert(view.values[input.raw as int] == module.values@[input.raw as int]@);
            assert(view.values[other.raw as int] == module.values@[other.raw as int]@);
            if other.raw >= bound || module.values[other.raw as usize].ty.width
                != module.values[input.raw as usize].ty.width {
                used.set(input.raw as usize, true);
            }
            proof {
                assert forall|v: ValueId| view.has(v) implies #[trigger] used@[v.raw as int] == (
                outer[v.raw as int] || (exists|j: int|
                    j < k + 1 && #[trigger] stays_operand(view, map@, v, o as int, j))) by {
                    if used@[v.raw as int] && !before[v.raw as int] {
                        assert(v == input);
                        assert(stays_operand(view, map@, v, o as int, k as int));
                    }
                    if stays_operand(view, map@, v, o as int, k as int) {
                        assert(v == input);
                    }
                }
            }
            k += 1;
        }
        proof {
            assert forall|v: ValueId| view.has(v) implies #[trigger] used@[v.raw as int] == (
            first[v.raw as int] || (exists|operation: int, k: int|
                operation < o + 1 && #[trigger] stays_operand(view, map@, v, operation, k))) by {
                let now = exists|j: int|
                    j < k && #[trigger] stays_operand(view, map@, v, o as int, j);
                if now {
                    let j = choose|j: int|
                        j < k && #[trigger] stays_operand(view, map@, v, o as int, j);
                    assert((o as int) < o + 1 && stays_operand(view, map@, v, o as int, j));
                }
                if outer[v.raw as int] && !first[v.raw as int] {
                    let (p, j) = choose|p: int, j: int|
                        p < o && #[trigger] stays_operand(view, map@, v, p, j);
                    assert(p < o + 1 && stays_operand(view, map@, v, p, j));
                }
                if exists|operation: int, k: int|
                    operation < o + 1 && #[trigger] stays_operand(view, map@, v, operation, k) {
                    let (p, j) = choose|p: int, j: int|
                        p < o + 1 && #[trigger] stays_operand(view, map@, v, p, j);
                    if p == o {
                        assert(j < k && stays_operand(view, map@, v, o as int, j));
                    } else {
                        assert(p < o && stays_operand(view, map@, v, p, j));
                    }
                }
            }
        }
        o += 1;
    }
    proof {
        assert forall|v: ValueId| view.has(v) implies #[trigger] used@[v.raw as int] == keeps_use(
            view,
            map@,
            v,
        ) by {
            if exists|k: int| #[trigger] use_moves_to(view, map@, v, k) {
                let k = choose|k: int| #[trigger] use_moves_to(view, map@, v, k);
                assert(k < i && use_moves_to(view, map@, v, k));
            }
            if exists|p: int, k: int| #[trigger] stays_operand(view, map@, v, p, k) {
                let (p, k) = choose|p: int, k: int| #[trigger] stays_operand(view, map@, v, p, k);
                assert(p < o && stays_operand(view, map@, v, p, k));
            }
        }
    }
    used
}


/// Folding does not change which single bits are driven.
proof fn lemma_same_driver(before: ModuleView, after: ModuleView, bit: SignalBit, count: nat)
    requires
        before.wf(),
        folds(before, after),
        count <= before.connects.len(),
    ensures
        scalar_driver(after, bit, count) == scalar_driver(before, bit, count),
    decreases count,
{
    if count > 0 {
        lemma_same_driver(before, after, bit, (count - 1) as nat);
        let connect = before.connects[count - 1];
        assert(before.connect_ok(connect));
        assert(after.ty(connect.value) == before.ty(connect.value));
    }
}

/// The bits that are still read after a rewrite, a row for each signal.
fn read_signal_bits(module: &WordModule, map: &Vec<ValueId>) -> (rows: Vec<Vec<bool>>)
    requires
        module@.wf(),
        map_ok(module@, map@),
    ensures
        rows@.len() == module@.signals.len(),
        forall|s: int|
            0 <= s < rows@.len() ==> (#[trigger] rows@[s])@.len() == module@.signals[s].ty.width,
        forall|s: int, b: int|
            0 <= s < rows@.len() && 0 <= b < module@.signals[s].ty.width ==> (
            #[trigger] rows@[s]@[b]) == bit_is_read(
                module@,
                map@,
                SignalBit { signal: SignalId { raw: s as u32 }, bit: b as u32 },
            ),
{
    let ghost view = module@;
    let used = used_after(module, map);
    let mut rows: Vec<Vec<bool>> = Vec::new();
    let mut s: usize = 0;
    while s < module.signals.len()
        invariant
            view == module@,
            s <= view.signals.len(),
            rows@.len() == s,
            forall|i: int|
                0 <= i < s ==> (#[trigger] rows@[i])@.len() == view.signals[i].ty.width,
            forall|i: int, b: int|
                0 <= i < s && 0 <= b < view.signals[i].ty.width ==> !(#[trigger] rows@[i]@[b]),
        decreases module.signals.len() - s,
    {
        let mut row: Vec<bool> = Vec::new();
        row.resize(module.signals[s].ty.width as usize, false);
        rows.push(row);
        s += 1;
    }
    let mut v: usize = 0;
    while v < module.values.len()
        invariant
            view == module@,
            view.wf(),
            v <= view.values.len(),
            used@.len() == view.values.len(),
            forall|w: ValueId|
                view.has(w) ==> #[trigger] used@[w.raw as int] == keeps_use(view, map@, w),
            rows@.len() == view.signals.len(),
            forall|i: int|
                0 <= i < rows@.len() ==> (#[trigger] rows@[i])@.len() == view.signals[i].ty.width,
            forall|i: int, b: int|
                0 <= i < rows@.len() && 0 <= b < view.signals[i].ty.width ==> (
                #[trigger] rows@[i]@[b]) == (exists|w: ValueId|
                    w.raw < v && #[trigger] reads_bit(
                        view,
                        map@,
                        SignalBit { signal: SignalId { raw: i as u32 }, bit: b as u32 },
                        w,
                    )),
        decreases module.values.len() - v,
    {
        let ghost before = rows@;
        let ghost value = ValueId { raw: v as u32 };
        let stored = &module.values[v];
        assert(stored@ == view.values[v as int]);
        assert(view.value_ok(v as int));
        assert(used@[value.raw as int] == keeps_use(view, map@, value));
        if let ValueKind::Signal(reference) = &stored.kind {
            let reference = *reference;
            if used[v] {
                let place: usize = reference.signal.raw as usize;
                let mut k: u32 = 0;
                while k < reference.width
                    invariant
                        view.signal_ref_ok(reference),
                        place == reference.signal.raw,
                        k <= reference.width,
                        rows@.len() == view.signals.len(),
                        forall|i: int|
                            0 <= i < rows@.len() ==> (#[trigger] rows@[i])@.len()
                                == view.signals[i].ty.width,
                        before.len() == rows@.len(),
                        forall|i: int, b: int|
                            0 <= i < rows@.len() && 0 <= b < view.signals[i].ty.width ==> (
                            #[trigger] rows@[i]@[b]) == (before[i]@[b] || (i == place
                                && reference.lsb <= b < reference.lsb + k)),
                    decreases reference.width - k,
                {
                    let bit: usize = (reference.lsb + k) as usize;
                    rows[place].set(bit, true);
                    k += 1;
                }
            }
        }
        proof {
            assert forall|i: int, b: int|
                0 <= i < rows@.len() && 0 <= b < view.signals[i].ty.width implies (
            #[trigger] rows@[i]@[b]) == (exists|w: ValueId|
                w.raw < v + 1 && #[trigger] reads_bit(
                    view,
                    map@,
                    SignalBit { signal: SignalId { raw: i as u32 }, bit: b as u32 },
                    w,
                )) by {
                let bit = SignalBit { signal: SignalId { raw: i as u32 }, bit: b as u32 };
                let now = reads_bit(view, map@, bit, value);
                assert(rows@[i]@[b] == (before[i]@[b] || now));
                if before[i]@[b] {
                    let w = choose|w: ValueId|
                        w.raw < v && #[trigger] reads_bit(view, map@, bit, w);
                    assert(w.raw < v + 1 && reads_bit(view, map@, bit, w));
                }
                if exists|w: ValueId| w.raw < v + 1 && #[trigger] reads_bit(view, map@, bit, w) {
                    let w = choose|w: ValueId|
                        w.raw < v + 1 && #[trigger] reads_bit(view, map@, bit, w);
                    if w.raw == v {
                        assert(w == value);
                    }
                }
            }
        }
        v += 1;
    }
    proof {
        assert forall|i: int, b: int|
            0 <= i < rows@.len() && 0 <= b < view.signals[i].ty.width implies (
        #[trigger] rows@[i]@[b]) == bit_is_read(
            view,
            map@,
            SignalBit { signal: SignalId { raw: i as u32 }, bit: b as u32 },
        ) by {
            let bit = SignalBit { signal: SignalId { raw: i as u32 }, bit: b as u32 };
            if bit_is_read(view, map@, bit) {
                let w = choose|w: ValueId| #[trigger] reads_bit(view, map@, bit, w);
                assert(w.raw < v && reads_bit(view, map@, bit, w));
            }
        }
    }
    rows
}

/// The owner of the operation behind a value, if it has one.
pub open spec fn is_owned(module: ModuleView, owners: Seq<Option<u32>>, value: ValueId) -> bool {
    module.kind(value) matches KindView::Operation(operation) && owners[operation.raw as int] is Some
}

/// Which connections a rewrite drops.
pub open spec fn dropped(module: ModuleView, map: Seq<ValueId>, among: spec_fn(ValueId) -> bool) -> Seq<
    bool,
> {
    module.connects.map_values(
        |connect: Connect| among(connect.value) && removable(module, map, connect),
    )
}

/// Any value.
pub open spec fn any_value() -> spec_fn(ValueId) -> bool {
    |value: ValueId| true
}

/// Values of owned operations.
pub open spec fn owned_values(module: ModuleView, owners: Seq<Option<u32>>) -> spec_fn(ValueId) -> bool {
    |value: ValueId| is_owned(module, owners, value)
}

/// Marks the connections that drive nothing that is read.
fn removable_connects(
    module: &WordModule,
    drivers: &DriverIndex,
    map: &Vec<ValueId>,
    candidates: &Vec<bool>,
    Ghost(among): Ghost<spec_fn(ValueId) -> bool>,
) -> (marks: Vec<bool>)
    requires
        module@.wf(),
        map_ok(module@, map@),
        drivers.lists(module@, module@.connects.len()),
        forall|i: int|
            0 <= i < module@.connects.len() ==> (#[trigger] module@.connects[i]).target.dynamic
                is None,
        candidates@.len() == module@.values.len(),
        forall|v: ValueId|
            module@.has(v) ==> #[trigger] candidates@[v.raw as int] == among(v),
    ensures
        marks@ == dropped(module@, map@, among),
{
    let ghost view = module@;
    let rows = read_signal_bits(module, map);
    let mut marks: Vec<bool> = Vec::new();
    let mut i: usize = 0;
    while i < module.connects.len()
        invariant
            view == module@,
            view.wf(),
            map_ok(view, map@),
            drivers.lists(view, view.connects.len()),
            candidates@.len() == view.values.len(),
            forall|v: ValueId|
                view.has(v) ==> #[trigger] candidates@[v.raw as int] == among(v),
            rows@.len() == view.signals.len(),
            forall|s: int|
                0 <= s < rows@.len() ==> (#[trigger] rows@[s])@.len() == view.signals[s].ty.width,
            forall|s: int, b: int|
                0 <= s < rows@.len() && 0 <= b < view.signals[s].ty.width ==> (
                #[trigger] rows@[s]@[b]) == bit_is_read(
                    view,
                    map@,
                    SignalBit { signal: SignalId { raw: s as u32 }, bit: b as u32 },
                ),
            i <= view.connects.len(),
            marks@ =~= dropped(view, map@, among).take(i as int),
        decreases module.connects.len() - i,
    {
        let connect = module.connects[i];
        assert(view.connect_ok(view.connects[i as int]));
        let signal: usize = connect.target.signal.raw as usize;
        let width: u32 = module.signals[signal].ty.width;
        let bit: Option<u32> = match connect.target.range {
            None => if width == 1 {
                Some(0)
            } else {
                None
            },
            Some(range) => if range.msb == range.lsb {
                Some(range.lsb)
            } else {
                None
            },
        };
        let mut mark = false;
        if let Some(bit) = bit {
            if bit < width {
                let ghost place = SignalBit { signal: connect.target.signal, bit };
                assert(connect.target.signal == (SignalId { raw: signal as int as u32 }));
                assert(place == (SignalBit {
                    signal: SignalId { raw: signal as int as u32 },
                    bit: bit as int as u32,
                }));
                assert(drivers.by_bit@[signal as int]@[bit as int] == scalar_driver(
                    view,
                    place,
                    view.connects.len(),
                ));
                assert(rows@[signal as int]@[bit as int] == bit_is_read(view, map@, place));
                let unique = match drivers.by_bit[signal][bit as usize] {
                    Driver::Unique(_) => true,
                    _ => false,
                };
                let wire = match module.signals[signal].kind {
                    SignalKind::Wire => true,
                    _ => false,
                };
                let preserved = module.signals[signal].preserved;
                if unique && !preserved && !rows[signal][bit as usize] && wire {
                    mark = candidates[connect.value.raw as usize] && !is_register_value(
                        module,
                        connect.value,
                    );
                }
            }
        }
        assert(mark == dropped(view, map@, among)[i as int]);
        marks.push(mark);
        i += 1;
    }
    marks
}

/// Values were folded and reads of signals resolved.
pub open spec fn simplified(
    before: ModuleView,
    folded: ModuleView,
    scopes: Seq<Option<u64>>,
    facts: Seq<Option<Seq<BitVal>>>,
    aliases: Seq<ValueId>,
) -> bool {
    &&& folded_by(before, folded, permits(scopes), facts)
    &&& folded.wf()
    &&& closed_from(alias_map(before), aliases)
    &&& map_ok(folded, aliases)
}

/// What values stand for once they were compared.
pub open spec fn merged(folded: ModuleView, scopes: Seq<Option<u64>>, aliases: Seq<ValueId>) -> Seq<
    ValueId,
> {
    compared(folded, scopes, aliases, folded.values.len()).map
}

/// Following what values stand for runs in a circle.
pub open spec fn runs_in_circle(
    before: ModuleView,
    folded: ModuleView,
    scopes: Seq<Option<u64>>,
    facts: Seq<Option<Seq<BitVal>>>,
    aliases: Seq<ValueId>,
) -> bool {
    &&& simplified(before, folded, scopes, facts, aliases)
    &&& exists|v: int|
        0 <= v < folded.values.len() && !(#[trigger] settles(merged(folded, scopes, aliases), v))
}

/// Why merging stopped.
pub open spec fn merge_fails(
    before: ModuleView,
    after: ModuleView,
    scopes: Seq<Option<u64>>,
    facts: Seq<Option<Seq<BitVal>>>,
    error: SynthError,
) -> bool {
    ||| after == before && !aliases_end(before) && error == SynthError::Invariant(
        Invariant::CombinationalCycle,
    )
    ||| error == SynthError::Invariant(Invariant::CombinationalCycle) && exists|aliases: Seq<ValueId>| #[trigger]
        runs_in_circle(before, after, scopes, facts, aliases)
}

/// Finds what every value stands for.
fn merge_values(module: &mut WordModule, scopes: &Vec<Option<u64>>, facts: &Vec<Option<ConstBits>>)
    -> (result: Result<(Ghost<Seq<ValueId>>, Vec<ValueId>), SynthError>)
    requires
        old(module)@.wf(),
        scopes@.len() == old(module)@.operations.len(),
        facts_agree(old(module)@, facts_view(facts@)),
    ensures
        final(module)@.wf(),
        result matches Ok((aliases, map)) ==> {
            &&& simplified(
                old(module)@,
                final(module)@,
                scopes@,
                facts_view(facts@),
                aliases@,
            )
            &&& closed_from(merged(final(module)@, scopes@, aliases@), map@)
            &&& map_ok(final(module)@, map@)
        },
        result matches Err(error) ==> merge_fails(
            old(module)@,
            final(module)@,
            scopes@,
            facts_view(facts@),
            error,
        ),
{
    let ghost start = module@;
    let mut map = match resolve_aliases(module) {
        Ok(map) => map,
        Err(error) => return Err(error),
    };
    let ghost aliases = map@;
    match canonicalize_values_by(module, &mut map, scopes, facts) {
        Ok(()) => {},
        Err(error) => return Err(error),
    }
    assert(map_ok(module@, aliases));
    let ghost found = map@;
    match close_representatives(&mut map) {
        Ok(()) => {},
        Err(error) => {
            proof {
                assert(found == merged(module@, scopes@, aliases));
                let stuck = choose|v: int| #[trigger]
                    first_stuck(found, v) && error == stuck_error(found, v);
                assert forall|i: int| 0 <= i < found.len() implies (#[trigger] found[i]).raw
                    < found.len() by {
                    assert(module@.has(found[i]));
                }
                lemma_stays_inside(found, stuck);
                assert(0 <= stuck < module@.values.len() && !settles(
                    merged(module@, scopes@, aliases),
                    stuck,
                ));
                assert(runs_in_circle(start, module@, scopes@, facts_view(facts@), aliases));
            }
            return Err(error);
        },
    }
    proof {
        lemma_closed_map(module@, merged(module@, scopes@, aliases), map@);
    }
    Ok((Ghost(aliases), map))
}

/// A map in which some values were put back to themselves.
pub open spec fn put_back(before: Seq<ValueId>, after: Seq<ValueId>) -> bool {
    &&& after.len() == before.len()
    &&& forall|v: int|
        0 <= v < after.len() ==> (#[trigger] after[v] == before[v] || after[v].raw == v)
}

/// A closed map stays closed where values are put back to themselves.
proof fn lemma_put_back_settles(start: Seq<ValueId>, before: Seq<ValueId>, after: Seq<ValueId>)
    requires
        closed_from(start, before),
        put_back(before, after),
    ensures
        forall|v: int| 0 <= v < after.len() ==> #[trigger] settles(after, v),
{
    assert forall|v: int| 0 <= v < after.len() implies #[trigger] settles(after, v) by {
        closing_is_idempotent(start, before, v);
        let end = after[v].raw as int;
        assert(leads_to(start, v, before[v].raw as int));
        if after[v].raw != v {
            assert(is_terminal(before, end));
            assert(after[end] == before[end] || after[end].raw == end);
            assert(is_terminal(after, end));
            lemma_terminal(after, end);
            lemma_leads_step(after, v, end);
        } else {
            assert(is_terminal(after, v));
            lemma_terminal(after, v);
        }
        assert(leads_to(after, v, end));
    }
}

/// Values that are put back stand for themselves, which is the same.
proof fn lemma_put_back_sound(module: ModuleView, before: Seq<ValueId>, after: Seq<ValueId>)
    requires
        sound_map(module, before),
        put_back(before, after),
    ensures
        sound_map(module, after),
{
    assert forall|v: ValueId| module.has(v) implies same_value(
        module,
        v,
        #[trigger] after[v.raw as int],
    ) by {
        assert(same_value(module, v, before[v.raw as int]));
        if after[v.raw as int] != before[v.raw as int] {
            assert(after[v.raw as int] == v);
        }
    }
}

/// What a rewrite leaves stands for what was there: merging, putting back and
/// closing keep every value the same.
pub proof fn rewriting_keeps_values(
    folded: ModuleView,
    scopes: Seq<Option<u64>>,
    aliases: Seq<ValueId>,
    found: Seq<ValueId>,
    kept: Seq<ValueId>,
    map: Seq<ValueId>,
)
    requires
        folded.wf(),
        evenly_typed(folded),
        sound_map(folded, aliases),
        closed_from(merged(folded, scopes, aliases), found),
        put_back(found, kept),
        closed_from(kept, map),
    ensures
        sound_map(folded, map),
{
    compared_values_are_the_same(folded, scopes, aliases, folded.values.len());
    closing_keeps_values(folded, merged(folded, scopes, aliases), found);
    lemma_put_back_sound(folded, found, kept);
    closing_keeps_values(folded, kept, map);
}

/// Whether some value stands for another.
pub open spec fn some_stands_for_another(map: Seq<ValueId>) -> bool {
    exists|v: int| 0 <= v < map.len() && (#[trigger] map[v]).raw != v
}

pub fn is_changed(map: &Vec<ValueId>) -> (changed: bool)
    ensures
        changed == some_stands_for_another(map@),
{
    let mut v: usize = 0;
    while v < map.len()
        invariant
            v <= map@.len(),
            forall|w: int| 0 <= w < v ==> (#[trigger] map@[w]).raw == w,
        decreases map.len() - v,
    {
        if map[v].raw as usize != v {
            assert(map@[v as int].raw != v);
            return true;
        }
        v += 1;
    }
    false
}


/// What a region's values stand for: nothing, a constant, or an owned
/// operation.
#[derive(Clone, Copy, PartialEq, Eq, Structural, Debug)]
pub enum ValueScope {
    Outside,
    Constant,
    Owned(u32),
}

/// The scope of what a value stands for.
pub open spec fn scope_of(
    module: ModuleView,
    owners: Seq<Option<u32>>,
    map: Seq<ValueId>,
    value: ValueId,
) -> ValueScope {
    match module.kind(map[value.raw as int]) {
        KindView::Constant(_) => ValueScope::Constant,
        KindView::Operation(operation) => match owners[operation.raw as int] {
            Some(owner) => ValueScope::Owned(owner),
            None => ValueScope::Outside,
        },
        KindView::Signal(_) => ValueScope::Outside,
    }
}

/// Whether a value may stand for another across scopes.
pub open spec fn may_replace(original: ValueScope, other: ValueScope) -> bool {
    match (original, other) {
        (ValueScope::Outside, _) => false,
        (_, ValueScope::Constant) => true,
        (ValueScope::Owned(left), ValueScope::Owned(right)) => left == right,
        _ => false,
    }
}

/// What owned values stand for; values of other scopes are put back.
pub open spec fn within_owners(module: ModuleView, owners: Seq<Option<u32>>, map: Seq<ValueId>) -> Seq<
    ValueId,
> {
    Seq::new(
        map.len(),
        |v: int|
            if may_replace(
                scope_of(module, owners, map, ValueId { raw: v as u32 }),
                scope_of(module, owners, map, map[v]),
            ) {
                map[v]
            } else {
                ValueId { raw: v as u32 }
            },
    )
}

fn find_scope(module: &WordModule, owners: &Vec<Option<u32>>, map: &Vec<ValueId>, value: ValueId)
    -> (scope: ValueScope)
    requires
        module@.wf(),
        owners@.len() == module@.operations.len(),
        map_ok(module@, map@),
        module@.has(value),
    ensures
        scope == scope_of(module@, owners@, map@, value),
{
    let terminal = map[value.raw as usize];
    assert(module@.has(map@[value.raw as int]));
    assert(module@.value_ok(terminal.raw as int));
    let stored = &module.values[terminal.raw as usize];
    assert(stored@ == module@.values[terminal.raw as int]);
    match &stored.kind {
        ValueKind::Constant(_) => ValueScope::Constant,
        ValueKind::Operation(operation) => match owners[operation.raw as usize] {
            Some(owner) => ValueScope::Owned(owner),
            None => ValueScope::Outside,
        },
        ValueKind::Signal(_) => ValueScope::Outside,
    }
}

fn scope_permits(original: ValueScope, other: ValueScope) -> (permitted: bool)
    ensures
        permitted == may_replace(original, other),
{
    match (original, other) {
        (ValueScope::Outside, _) => false,
        (_, ValueScope::Constant) => true,
        (ValueScope::Owned(left), ValueScope::Owned(right)) => left == right,
        _ => false,
    }
}

/// The scope in which an owner's operations are compared.
pub open spec fn owner_scopes(owners: Seq<Option<u32>>) -> Seq<Option<u64>> {
    owners.map_values(
        |owner: Option<u32>|
            match owner {
                Some(owner) => Some((owner + 1) as u64),
                None => None,
            },
    )
}

fn scopes_of_owners(owners: &Vec<Option<u32>>) -> (scopes: Vec<Option<u64>>)
    ensures
        scopes@ == owner_scopes(owners@),
{
    let mut scopes: Vec<Option<u64>> = Vec::new();
    let mut i: usize = 0;
    while i < owners.len()
        invariant
            i <= owners@.len(),
            scopes@ =~= owner_scopes(owners@).take(i as int),
        decreases owners.len() - i,
    {
        scopes.push(
            match owners[i] {
                Some(owner) => Some(owner as u64 + 1),
                None => None,
            },
        );
        i += 1;
    }
    scopes
}

/// A module whose operations, instances and memories use what owned values stand
/// for.
pub open spec fn owned_outcome(
    before: ModuleView,
    owners: Seq<Option<u32>>,
    facts: Seq<Option<Seq<BitVal>>>,
    folded: ModuleView,
    aliases: Seq<ValueId>,
    found: Seq<ValueId>,
    after: ModuleView,
    map: Seq<ValueId>,
) -> bool {
    &&& simplified(before, folded, owner_scopes(owners), facts, aliases)
    &&& closed_from(merged(folded, owner_scopes(owners), aliases), found)
    &&& closed_from(within_owners(folded, owners, found), map)
    &&& after == (ModuleView {
        operations: renamed_operations(folded, map),
        connects: renamed_connects(
            folded.connects,
            dropped(folded, map, owned_values(folded, owners)),
            map,
        ),
        instances: renamed_instances(folded, map),
        memory_reads: renamed_reads(folded, map),
        memory_writes: renamed_writes(folded, map),
        ..folded
    })
}

fn owned_marks(module: &WordModule, owners: &Vec<Option<u32>>) -> (marks: Vec<bool>)
    requires
        module@.wf(),
        owners@.len() == module@.operations.len(),
    ensures
        marks@.len() == module@.values.len(),
        forall|v: ValueId|
            module@.has(v) ==> #[trigger] marks@[v.raw as int] == is_owned(module@, owners@, v),
{
    let mut marks: Vec<bool> = Vec::new();
    let mut v: usize = 0;
    while v < module.values.len()
        invariant
            module@.wf(),
            owners@.len() == module@.operations.len(),
            v <= module@.values.len(),
            marks@.len() == v,
            forall|w: ValueId|
                w.raw < v ==> #[trigger] marks@[w.raw as int] == is_owned(module@, owners@, w),
        decreases module.values.len() - v,
    {
        let stored = &module.values[v];
        assert(stored@ == module@.values[v as int]);
        assert(module@.value_ok(v as int));
        let owned = match &stored.kind {
            ValueKind::Operation(operation) => owners[operation.raw as usize].is_some(),
            _ => false,
        };
        assert(owned == is_owned(module@, owners@, ValueId { raw: v as u32 }));
        marks.push(owned);
        v += 1;
    }
    marks
}

/// No connection goes to a computed target.
proof fn lemma_no_dynamic(module: ModuleView, count: nat)
    requires
        count <= module.connects.len(),
        first_fault(module, count) is None,
    ensures
        forall|i: int|
            0 <= i < count ==> (#[trigger] module.connects[i]).target.dynamic is None,
    decreases count,
{
    if count > 0 {
        lemma_no_dynamic(module, (count - 1) as nat);
    }
}

/// The drivers that were listed are those of a folded module too.
proof fn lemma_same_drivers(drivers: DriverIndex, before: ModuleView, after: ModuleView)
    requires
        before.wf(),
        folds(before, after),
        drivers.lists(before, before.connects.len()),
    ensures
        drivers.lists(after, after.connects.len()),
{
    assert forall|s: int, b: int|
        0 <= s < drivers.by_bit@.len() && 0 <= b < after.signals[s].ty.width implies (
    #[trigger] drivers.by_bit@[s]@[b]) == scalar_driver(
        after,
        SignalBit { signal: SignalId { raw: s as u32 }, bit: b as u32 },
        after.connects.len(),
    ) by {
        lemma_same_driver(
            before,
            after,
            SignalBit { signal: SignalId { raw: s as u32 }, bit: b as u32 },
            before.connects.len(),
        );
    }
}

/// Rewrites the values of owned operations, scope by scope: an owned operation
/// stands for a constant or for an operation of the same owner, and connections
/// of owned values to bits that nothing reads are dropped.
#[verifier::rlimit(40)]
pub fn optimize_owned_combinational_dataflow(
    module: &mut WordModule,
    owners: &Vec<Option<u32>>,
    facts: &Vec<Option<ConstBits>>,
) -> (result: Result<DataflowChanges, SynthError>)
    requires
        old(module)@.wf(),
        facts_agree(old(module)@, facts_view(facts@)),
    ensures
        final(module)@.wf(),
        owners@.len() != old(module)@.operations.len() ==> result == Err::<
            DataflowChanges,
            SynthError,
        >(SynthError::Invariant(Invariant::UnknownOperation)) && final(module)@ == old(module)@,
        owners@.len() == old(module)@.operations.len() ==> match first_fault(
            old(module)@,
            old(module)@.connects.len(),
        ) {
            Some(error) => result == Err::<DataflowChanges, SynthError>(error) && final(module)@
                == old(module)@,
            None => match result {
                Ok(changes) => {
                    &&& exists|folded: ModuleView, aliases: Seq<ValueId>, found: Seq<ValueId>|
                        #[trigger] owned_outcome(
                            old(module)@,
                            owners@,
                            facts_view(facts@),
                            folded,
                            aliases,
                            found,
                            final(module)@,
                            changes.representatives@,
                        )
                    &&& changes.changed == some_stands_for_another(changes.representatives@)
                },
                Err(error) => merge_fails(
                    old(module)@,
                    final(module)@,
                    owner_scopes(owners@),
                    facts_view(facts@),
                    error,
                ),
            },
        },
{
    if owners.len() != module.operations.len() {
        return Err(SynthError::Invariant(Invariant::UnknownOperation));
    }
    let ghost start = module@;
    let drivers = match DriverIndex::build(module) {
        Ok(drivers) => drivers,
        Err(error) => return Err(error),
    };
    let scopes = scopes_of_owners(owners);
    let (aliases, found) = match merge_values(module, &scopes, facts) {
        Ok(pair) => pair,
        Err(error) => return Err(error),
    };
    let ghost folded = module@;
    let mut map: Vec<ValueId> = Vec::new();
    let mut v: usize = 0;
    while v < found.len()
        invariant
            module@ == folded,
            folded.wf(),
            owners@.len() == folded.operations.len(),
            map_ok(folded, found@),
            v <= found@.len(),
            map@ =~= within_owners(folded, owners@, found@).take(v as int),
        decreases found.len() - v,
    {
        let value = ValueId { raw: v as u32 };
        let other = found[v];
        assert(folded.has(found@[v as int]));
        let original_scope = find_scope(module, owners, &found, value);
        let replacement_scope = find_scope(module, owners, &found, other);
        if scope_permits(original_scope, replacement_scope) {
            map.push(other);
        } else {
            map.push(value);
        }
        v += 1;
    }
    let ghost kept = map@;
    proof {
        assert(kept =~= within_owners(folded, owners@, found@));
        assert(put_back(found@, kept));
        lemma_put_back_settles(merged(folded, scopes@, aliases@), found@, kept);
    }
    match close_representatives(&mut map) {
        Ok(()) => {},
        Err(error) => {
            assert(false);
            return Err(error);
        },
    }
    proof {
        lemma_closed_map(folded, kept, map@);
        lemma_same_drivers(drivers, start, folded);
        lemma_no_dynamic(start, start.connects.len());
    }
    let changed = is_changed(&map);
    let marks = owned_marks(module, owners);
    let removed = removable_connects(
        module,
        &drivers,
        &map,
        &marks,
        Ghost(owned_values(folded, owners@)),
    );
    rewrite_operations(module, &map);
    assert(map_ok(module@, map@));
    rewrite_instances(module, &map);
    assert(map_ok(module@, map@));
    rewrite_memory_ports(module, &map);
    assert(map_ok(module@, map@));
    rewrite_connects(module, &removed, &map);
    proof {
        assert(owned_outcome(start, owners@, facts_view(facts@), folded, aliases@, found@, module@, map@));
    }
    Ok(DataflowChanges { representatives: map, changed })
}

/// What values stand for where that is permitted; protected classes and values
/// that are not permitted are put back.
pub open spec fn where_permitted<F: Fn(ValueId, ValueId) -> bool>(
    protected: Seq<bool>,
    permit: F,
    before: Seq<ValueId>,
    after: Seq<ValueId>,
) -> bool {
    &&& after.len() == before.len()
    &&& forall|v: int|
        0 <= v < after.len() ==> permitted_entry(
            protected,
            permit,
            before,
            v,
            #[trigger] after[v],
        )
}

/// What one value stands for where that is permitted.
pub open spec fn permitted_entry<F: Fn(ValueId, ValueId) -> bool>(
    protected: Seq<bool>,
    permit: F,
    before: Seq<ValueId>,
    v: int,
    after: ValueId,
) -> bool {
    let value = ValueId { raw: v as u32 };
    let other = before[v];
    if other == value || is_protected(protected, before, other) {
        after == value
    } else {
        ||| call_ensures(permit, (value, other), true) && after == other
        ||| call_ensures(permit, (value, other), false) && after == value
    }
}

/// Whether a class of values holds a protected one.
pub open spec fn is_protected(protected: Seq<bool>, map: Seq<ValueId>, class: ValueId) -> bool {
    exists|v: int| 0 <= v < protected.len() && #[trigger] protected[v] && map[v] == class
}

/// A module whose values are replaced wherever that is permitted.
pub open spec fn permitted_outcome<F: Fn(ValueId, ValueId) -> bool>(
    before: ModuleView,
    protected: Seq<bool>,
    permit: F,
    facts: Seq<Option<Seq<BitVal>>>,
    folded: ModuleView,
    maps: (Seq<ValueId>, Seq<ValueId>, Seq<ValueId>),
    after: ModuleView,
    map: Seq<ValueId>,
) -> bool {
    let (aliases, found, kept) = maps;
    &&& simplified(before, folded, one_scope(before.operations.len()), facts, aliases)
    &&& closed_from(merged(folded, one_scope(before.operations.len()), aliases), found)
    &&& where_permitted(protected, permit, found, kept)
    &&& closed_from(kept, map)
    &&& after == (ModuleView {
        operations: renamed_operations(folded, map),
        connects: renamed_connects(folded.connects, dropped(folded, map, any_value()), map),
        instances: renamed_instances(folded, map),
        memory_reads: renamed_reads(folded, map),
        memory_writes: renamed_writes(folded, map),
        ..folded
    })
}

/// A module is the outcome of some such rewrite.
pub open spec fn permitted_result<F: Fn(ValueId, ValueId) -> bool>(
    before: ModuleView,
    protected: Seq<bool>,
    permit: F,
    facts: Seq<Option<Seq<BitVal>>>,
    after: ModuleView,
    map: Seq<ValueId>,
) -> bool {
    exists|folded: ModuleView, maps: (Seq<ValueId>, Seq<ValueId>, Seq<ValueId>)| #[trigger]
        permitted_outcome(before, protected, permit, facts, folded, maps, after, map)
}

/// All operations in one scope.
pub open spec fn one_scope(count: nat) -> Seq<Option<u64>> {
    Seq::new(count, |i: int| Some(1u64))
}

/// Marks the classes that hold a protected value.
fn protected_classes(protected: &Vec<bool>, map: &Vec<ValueId>) -> (classes: Vec<bool>)
    requires
        protected@.len() <= map@.len(),
        forall|v: int| 0 <= v < map@.len() ==> (#[trigger] map@[v]).raw < map@.len(),
    ensures
        classes@.len() == map@.len(),
        forall|c: ValueId|
            c.raw < map@.len() ==> #[trigger] classes@[c.raw as int] == is_protected(
                protected@,
                map@,
                c,
            ),
{
    let mut classes: Vec<bool> = Vec::new();
    classes.resize(map.len(), false);
    let mut v: usize = 0;
    while v < protected.len()
        invariant
            v <= protected@.len() <= map@.len(),
            forall|v: int| 0 <= v < map@.len() ==> (#[trigger] map@[v]).raw < map@.len(),
            classes@.len() == map@.len(),
            forall|c: ValueId|
                c.raw < map@.len() ==> #[trigger] classes@[c.raw as int] == (exists|w: int|
                    0 <= w < v && #[trigger] protected@[w] && map@[w] == c),
        decreases protected.len() - v,
    {
        let ghost before = classes@;
        if protected[v] {
            assert(map@[v as int].raw < map@.len());
            classes.set(map[v].raw as usize, true);
        }
        proof {
            assert forall|c: ValueId| c.raw < map@.len() implies #[trigger] classes@[c.raw as int]
                == (exists|w: int| 0 <= w < v + 1 && #[trigger] protected@[w] && map@[w] == c) by {
                if before[c.raw as int] {
                    let w = choose|w: int| 0 <= w < v && #[trigger] protected@[w] && map@[w] == c;
                    assert(0 <= w < v + 1 && protected@[w] && map@[w] == c);
                }
                if classes@[c.raw as int] && !before[c.raw as int] {
                    assert(protected@[v as int] && map@[v as int] == c);
                }
            }
        }
        v += 1;
    }
    classes
}

/// Rewrites the values of a module wherever that is permitted, but leaves the
/// classes of protected values apart.
#[verifier::rlimit(60)]
pub fn optimize_combinational_dataflow_by_preserving_classes<F: Fn(ValueId, ValueId) -> bool>(
    module: &mut WordModule,
    protected: &Vec<bool>,
    facts: &Vec<Option<ConstBits>>,
    permit: F,
) -> (result: Result<DataflowChanges, SynthError>)
    requires
        old(module)@.wf(),
        facts_agree(old(module)@, facts_view(facts@)),
        forall|left: ValueId, right: ValueId| call_requires(permit, (left, right)),
    ensures
        final(module)@.wf(),
        match first_fault(old(module)@, old(module)@.connects.len()) {
            Some(error) => result == Err::<DataflowChanges, SynthError>(error) && final(module)@
                == old(module)@,
            None => match result {
                Ok(changes) => {
                    &&& protected@.len() <= old(module)@.values.len()
                    &&& permitted_result(
                        old(module)@,
                        protected@,
                        permit,
                        facts_view(facts@),
                        final(module)@,
                        changes.representatives@,
                    )
                    &&& changes.changed == some_stands_for_another(changes.representatives@)
                },
                Err(error) => protected@.len() > old(module)@.values.len() && error
                    == SynthError::Invariant(Invariant::UnknownValue) || merge_fails(
                    old(module)@,
                    final(module)@,
                    one_scope(old(module)@.operations.len()),
                    facts_view(facts@),
                    error,
                ),
            },
        },
{
    let ghost start = module@;
    let drivers = match DriverIndex::build(module) {
        Ok(drivers) => drivers,
        Err(error) => return Err(error),
    };
    let mut scopes: Vec<Option<u64>> = Vec::new();
    scopes.resize(module.operations.len(), Some(1));
    assert(scopes@ =~= one_scope(start.operations.len()));
    let (aliases, found) = match merge_values(module, &scopes, facts) {
        Ok(pair) => pair,
        Err(error) => return Err(error),
    };
    let ghost folded = module@;
    if protected.len() > found.len() {
        return Err(SynthError::Invariant(Invariant::UnknownValue));
    }
    assert forall|v: int| 0 <= v < found@.len() implies (#[trigger] found@[v]).raw
        < found@.len() by {
        assert(folded.has(found@[v]));
    }
    let classes = protected_classes(protected, &found);
    let mut map: Vec<ValueId> = Vec::new();
    let mut v: usize = 0;
    while v < found.len()
        invariant
            v <= found@.len() <= u32::MAX,
            map@.len() == v,
            classes@.len() == found@.len(),
            forall|v: int| 0 <= v < found@.len() ==> (#[trigger] found@[v]).raw < found@.len(),
            forall|c: ValueId|
                c.raw < found@.len() ==> #[trigger] classes@[c.raw as int] == is_protected(
                    protected@,
                    found@,
                    c,
                ),
            forall|left: ValueId, right: ValueId| call_requires(permit, (left, right)),
            forall|w: int|
                0 <= w < v ==> permitted_entry(
                    protected@,
                    permit,
                    found@,
                    w,
                    #[trigger] map@[w],
                ),
        decreases found.len() - v,
    {
        let value = ValueId { raw: v as u32 };
        let other = found[v];
        assert(found@[v as int].raw < found@.len());
        if other == value {
            map.push(value);
        } else if classes[other.raw as usize] {
            map.push(value);
        } else if permit(value, other) {
            map.push(other);
        } else {
            map.push(value);
        }
        v += 1;
    }
    let ghost kept = map@;
    proof {
        assert(where_permitted(protected@, permit, found@, kept));
        assert(put_back(found@, kept));
        lemma_put_back_settles(merged(folded, scopes@, aliases@), found@, kept);
    }
    match close_representatives(&mut map) {
        Ok(()) => {},
        Err(error) => {
            assert(false);
            return Err(error);
        },
    }
    proof {
        lemma_closed_map(folded, kept, map@);
        lemma_same_drivers(drivers, start, folded);
        lemma_no_dynamic(start, start.connects.len());
    }
    let changed = is_changed(&map);
    let mut marks: Vec<bool> = Vec::new();
    marks.resize(module.values.len(), true);
    let removed = removable_connects(module, &drivers, &map, &marks, Ghost(any_value()));
    rewrite_operations(module, &map);
    assert(map_ok(module@, map@));
    rewrite_instances(module, &map);
    assert(map_ok(module@, map@));
    rewrite_memory_ports(module, &map);
    assert(map_ok(module@, map@));
    rewrite_connects(module, &removed, &map);
    let ghost maps = (aliases@, found@, kept);
    let changes = DataflowChanges { representatives: map, changed };
    proof {
        assert(protected@.len() <= start.values.len());
        assert(permitted_outcome(
            start,
            protected@,
            permit,
            facts_view(facts@),
            folded,
            maps,
            module@,
            changes.representatives@,
        ));
        assert(permitted_result(
            start,
            protected@,
            permit,
            facts_view(facts@),
            module@,
            changes.representatives@,
        ));
    }
    Ok(changes)
}

/// Rewrites the values of a module wherever that is permitted.
pub fn optimize_combinational_dataflow_by<F: Fn(ValueId, ValueId) -> bool>(
    module: &mut WordModule,
    facts: &Vec<Option<ConstBits>>,
    permit: F,
) -> (result: Result<DataflowChanges, SynthError>)
    requires
        old(module)@.wf(),
        facts_agree(old(module)@, facts_view(facts@)),
        forall|left: ValueId, right: ValueId| call_requires(permit, (left, right)),
    ensures
        final(module)@.wf(),
        match first_fault(old(module)@, old(module)@.connects.len()) {
            Some(error) => result == Err::<DataflowChanges, SynthError>(error) && final(module)@
                == old(module)@,
            None => match result {
                Ok(changes) => {
                    &&& permitted_result(
                        old(module)@,
                        Seq::empty(),
                        permit,
                        facts_view(facts@),
                        final(module)@,
                        changes.representatives@,
                    )
                    &&& changes.changed == some_stands_for_another(changes.representatives@)
                },
                Err(error) => merge_fails(
                    old(module)@,
                    final(module)@,
                    one_scope(old(module)@.operations.len()),
                    facts_view(facts@),
                    error,
                ),
            },
        },
{
    let protected: Vec<bool> = Vec::new();
    let ghost none = protected@;
    let result = optimize_combinational_dataflow_by_preserving_classes(
        module,
        &protected,
        facts,
        permit,
    );
    assert(none =~= Seq::<bool>::empty());
    result
}

/// Every replacement is permitted.
fn permit_all(value: ValueId, replacement: ValueId) -> (permitted: bool)
    ensures
        permitted,
{
    true
}

/// A module whose values are all replaced by what they stand for.
pub open spec fn rewritten_wholly(
    before: ModuleView,
    facts: Seq<Option<Seq<BitVal>>>,
    folded: ModuleView,
    aliases: Seq<ValueId>,
    after: ModuleView,
    map: Seq<ValueId>,
) -> bool {
    let scopes = one_scope(before.operations.len());
    &&& simplified(before, folded, scopes, facts, aliases)
    &&& closed_from(merged(folded, scopes, aliases), map)
    &&& after == (ModuleView {
        operations: renamed_operations(folded, map),
        connects: renamed_connects(folded.connects, dropped(folded, map, any_value()), map),
        instances: renamed_instances(folded, map),
        memory_reads: renamed_reads(folded, map),
        memory_writes: renamed_writes(folded, map),
        ..folded
    })
}

/// Facts of the values of a module, and none of values that were appended to it.
pub open spec fn padded(facts: Seq<Option<Seq<BitVal>>>, count: nat) -> Seq<Option<Seq<BitVal>>> {
    facts + Seq::new((count - facts.len()) as nat, |v: int| None)
}

/// Facts hold after the chains of selections were rebuilt.
proof fn lemma_padded_facts(
    before: ModuleView,
    after: ModuleView,
    generated: Seq<GeneratedOperations>,
    facts: Seq<Option<Seq<BitVal>>>,
)
    requires
        before.wf(),
        after.wf(),
        rebalanced(before, after, everywhere(before.values.len()), generated),
        facts_agree(before, facts),
    ensures
        facts_agree(after, padded(facts, after.values.len())),
{
    let rows = padded(facts, after.values.len());
    let middle = before.with_connects(after.connects);
    assert forall|v: int| 0 <= v < rows.len() && (#[trigger] rows[v]) is Some implies rows[v]->0.len()
        == after.values[v].ty.width && super::folding::stands_for(after, v, rows[v]->0) by {
        assert(v < facts.len());
        assert(rows[v] == facts[v]);
        assert(after.values[v] == middle.values[v]);
        assert forall|env: Env| super::folding::agrees(
            rows[v]->0,
            #[trigger] eval(after, env, v),
        ) by {
            lemma_eval_grows(before, after, env, v);
            assert(super::folding::agrees(facts[v]->0, eval(before, env, v)));
        }
    }
}

/// The outcome of rewriting a module whose chains of selections were rebuilt.
pub open spec fn wholly_rewritten(
    middle: ModuleView,
    facts: Seq<Option<Seq<BitVal>>>,
    after: ModuleView,
    result: Result<DataflowChanges, SynthError>,
) -> bool {
    match first_fault(middle, middle.connects.len()) {
        Some(error) => result == Err::<DataflowChanges, SynthError>(error) && after == middle,
        None => match result {
            Ok(changes) => {
                &&& exists|folded: ModuleView, aliases: Seq<ValueId>| #[trigger]
                    rewritten_wholly(
                        middle,
                        facts,
                        folded,
                        aliases,
                        after,
                        changes.representatives@,
                    )
                &&& changes.changed == some_stands_for_another(changes.representatives@)
            },
            Err(error) => merge_fails(
                middle,
                after,
                one_scope(middle.operations.len()),
                facts,
                error,
            ),
        },
    }
}

/// A module whose chains of selections were rebuilt, and then all its values
/// rewritten.
pub open spec fn optimized(
    before: ModuleView,
    middle: ModuleView,
    generated: Seq<GeneratedOperations>,
    facts: Seq<Option<Seq<BitVal>>>,
    after: ModuleView,
    result: Result<DataflowChanges, SynthError>,
) -> bool {
    &&& rebalanced(before, middle, everywhere(before.values.len()), generated)
    &&& wholly_rewritten(middle, padded(facts, middle.values.len()), after, result)
}

/// Rebuilds every chain of selections, and rewrites all values of a module.
pub fn optimize_combinational_dataflow(module: &mut WordModule, facts: Vec<Option<ConstBits>>)
    -> (result: Result<DataflowChanges, SynthError>)
    requires
        old(module)@.wf(),
        facts_agree(old(module)@, facts_view(facts@)),
    ensures
        final(module)@.wf(),
        (result matches Err(error) && ran_out(final(module)@, error) && stable(
            old(module)@,
            final(module)@,
        )) || exists|middle: ModuleView, generated: Seq<GeneratedOperations>| #[trigger]
            optimized(
                old(module)@,
                middle,
                generated,
                facts_view(facts@),
                final(module)@,
                result,
            ),
{
    let ghost start = module@;
    let ghost known = facts_view(facts@);
    match rebalance_constant_priority_muxes(module) {
        Ok(_) => {},
        Err(error) => return Err(error),
    }
    let ghost middle = module@;
    let ghost generated = choose|generated: Seq<GeneratedOperations>| #[trigger]
        rebalanced(start, middle, everywhere(start.values.len()), generated);
    let mut rows = facts;
    while rows.len() < module.values.len()
        invariant
            module@ == middle,
            known.len() <= rows@.len() <= middle.values.len(),
            facts_view(rows@) =~= padded(known, rows@.len()),
        decreases module.values.len() - rows.len(),
    {
        let ghost held = facts_view(rows@);
        rows.push(None);
        assert(facts_view(rows@) =~= held.push(None));
        assert(padded(known, rows@.len()) =~= held.push(None));
    }
    proof {
        lemma_padded_facts(start, middle, generated, known);
    }
    let result = optimize_combinational_dataflow_by(module, &rows, permit_all);
    proof {
        if result is Ok {
            let changes = result->Ok_0;
            let (folded, maps) = choose|
                folded: ModuleView,
                maps: (Seq<ValueId>, Seq<ValueId>, Seq<ValueId>),
            | #[trigger]
                permitted_outcome(
                    middle,
                    Seq::empty(),
                    permit_all,
                    facts_view(rows@),
                    folded,
                    maps,
                    module@,
                    changes.representatives@,
                );
            let (aliases, found, kept) = maps;
            assert(kept =~= found) by {
                assert forall|v: int| 0 <= v < found.len() implies kept[v] == found[v] by {
                    assert(permitted_entry(Seq::empty(), permit_all, found, v, kept[v]));
                }
            }
            let map = changes.representatives@;
            let scopes = one_scope(middle.operations.len());
            lemma_closed_twice(merged(folded, scopes, aliases), found, map);
            assert(rewritten_wholly(
                middle,
                facts_view(rows@),
                folded,
                aliases,
                module@,
                map,
            ));
        }
        assert(optimized(start, middle, generated, known, module@, result));
    }
    result
}

/// Closing a closed map leaves it as it is.
proof fn lemma_closed_twice(start: Seq<ValueId>, before: Seq<ValueId>, after: Seq<ValueId>)
    requires
        closed_from(start, before),
        closed_from(before, after),
    ensures
        after == before,
{
    assert forall|v: int| 0 <= v < before.len() implies after[v] == before[v] by {
        closing_is_idempotent(start, before, v);
        let end = before[v].raw as int;
        lemma_terminal(before, end);
        lemma_leads_step(before, v, end);
        lemma_end_unique(before, v, end, after[v].raw as int);
    }
    assert(after =~= before);
}

/// The owner of the operation behind each value.
pub open spec fn value_owners(module: ModuleView, owners: Seq<Option<u32>>) -> Seq<Option<u32>> {
    Seq::new(
        module.values.len(),
        |v: int|
            match module.values[v].kind {
                KindView::Operation(operation) => owners[operation.raw as int],
                _ => None,
            },
    )
}

/// Owners with those of appended operations.
pub open spec fn extended_owners(owners: Seq<Option<u32>>, generated: Seq<GeneratedOperations>) -> Seq<
    Option<u32>,
>
    decreases generated.len(),
{
    if generated.len() == 0 {
        owners
    } else {
        let last = generated.last();
        extended_owners(owners, generated.drop_last()) + Seq::new(
            (last.end - last.start) as nat,
            |i: int| Some(last.scope),
        )
    }
}

/// Rebuilds the chains of selections whose operations have one owner; the
/// operations that are appended get that owner.
#[verifier::rlimit(40)]
pub fn rebalance_priority_muxes_in_regions(module: &mut WordModule, owners: &mut Vec<Option<u32>>)
    -> (result: Result<bool, SynthError>)
    requires
        old(module)@.wf(),
    ensures
        final(module)@.wf(),
        old(owners)@.len() != old(module)@.operations.len() ==> result == Err::<bool, SynthError>(
            SynthError::Invariant(Invariant::UnknownOperation),
        ) && final(module)@ == old(module)@ && final(owners)@ == old(owners)@,
        old(owners)@.len() == old(module)@.operations.len() ==> match result {
            Ok(changed) => {
                &&& final(owners)@.len() == final(module)@.operations.len()
                &&& exists|generated: Seq<GeneratedOperations>| #[trigger]
                    rebalanced(
                        old(module)@,
                        final(module)@,
                        value_owners(old(module)@, old(owners)@),
                        generated,
                    ) && final(owners)@ == extended_owners(old(owners)@, generated) && changed == (
                    generated.len() > 0)
            },
            Err(error) => ran_out(final(module)@, error) && stable(old(module)@, final(module)@)
                && final(owners)@ == old(owners)@,
        },
{
    if owners.len() != module.operations.len() {
        return Err(SynthError::Invariant(Invariant::UnknownOperation));
    }
    let ghost start = module@;
    let ghost held = owners@;
    let mut scopes: Vec<Option<u32>> = Vec::new();
    let mut v: usize = 0;
    while v < module.values.len()
        invariant
            module@ == start,
            start.wf(),
            owners@ == held,
            held.len() == start.operations.len(),
            v <= start.values.len(),
            scopes@ =~= value_owners(start, held).take(v as int),
        decreases module.values.len() - v,
    {
        let stored = &module.values[v];
        assert(stored@ == start.values[v as int]);
        assert(start.value_ok(v as int));
        scopes.push(
            match &stored.kind {
                ValueKind::Operation(operation) => owners[operation.raw as usize],
                _ => None,
            },
        );
        v += 1;
    }
    assert(scopes@ =~= value_owners(start, held));
    let outcome = match rebalance_constant_priority_muxes_by(module, &scopes) {
        Ok(outcome) => outcome,
        Err(error) => return Err(error),
    };
    let ghost generated = outcome.generated@;
    let mut k: usize = 0;
    assert(generated.take(0).len() == 0);
    while k < outcome.generated.len()
        invariant
            generated == outcome.generated@,
            k <= generated.len(),
            ranges_follow(generated, held.len(), module@.operations.len()),
            owners@ == extended_owners(held, generated.take(k as int)),
            owners@.len() == (if k == 0 {
                held.len() as int
            } else {
                generated[k - 1].end as int
            }),
        decreases outcome.generated.len() - k,
    {
        let range = outcome.generated[k];
        let ghost before = owners@;
        let count: usize = range.end - range.start;
        let mut i: usize = 0;
        while i < count
            invariant
                i <= count,
                owners@ =~= before + Seq::new(i as nat, |i: int| Some(range.scope)),
            decreases count - i,
        {
            owners.push(Some(range.scope));
            i += 1;
        }
        proof {
            assert(generated.take(k + 1).drop_last() =~= generated.take(k as int));
            assert(generated.take(k + 1).last() == range);
            assert(owners@ =~= extended_owners(held, generated.take(k + 1)));
        }
        k += 1;
    }
    proof {
        assert(generated.take(k as int) =~= generated);
        assert(rebalanced(start, module@, value_owners(start, held), generated));
    }
    Ok(outcome.changed)
}

/// Rebuilds every chain of selections.
pub fn rebalance_constant_priority_muxes(module: &mut WordModule) -> (result: Result<
    bool,
    SynthError,
>)
    requires
        old(module)@.wf(),
    ensures
        final(module)@.wf(),
        match result {
            Ok(changed) => exists|generated: Seq<GeneratedOperations>| #[trigger]
                rebalanced(
                    old(module)@,
                    final(module)@,
                    everywhere(old(module)@.values.len()),
                    generated,
                ) && changed == (generated.len() > 0),
            Err(error) => ran_out(final(module)@, error) && stable(old(module)@, final(module)@),
        },
{
    let ghost start = module@;
    let mut scopes: Vec<Option<u32>> = Vec::new();
    scopes.resize(module.values.len(), Some(0));
    assert(scopes@ =~= everywhere(start.values.len()));
    match rebalance_constant_priority_muxes_by(module, &scopes) {
        Ok(outcome) => {
            assert(rebalanced(
                start,
                module@,
                everywhere(start.values.len()),
                outcome.generated@,
            ));
            Ok(outcome.changed)
        },
        Err(error) => Err(error),
    }
}

/// One scope for all values.
pub open spec fn everywhere(count: nat) -> Seq<Option<u32>> {
    Seq::new(count, |v: int| Some(0u32))
}

} // verus!
