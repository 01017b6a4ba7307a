//! Connections that a rewrite drops drive nothing that is read, and whole connections drive
//! what their pieces drove.

use super::aliases::single_bit;
use super::coalesce::{
    coalesced, coalesced_signals, coalescible, driver_word, kept_connects, whole_driver,
};
use super::optimize::{
    bit_is_read, dropped, keeps_use, reads_bit, removable, stays_operand, use_moves_to,
};
use super::substitution::{moves, replaced};
use crate::planning::fsm::invisibility::{is_used, lemma_used, operation_asks};
use crate::word::drivers::{bit_driver, folded_driver, lemma_folded_driver, touches, ValueBit};
use crate::word::module::{Connect, KindView, ModuleView};
use crate::word::semantics::{lemma_eval_grows, word_of, Env};
use crate::word::types::{op_inputs, OpView, SignalId, ValueId};
use vstd::prelude::*;

verus! {

/// A value reads a bit of a signal.
pub open spec fn reads_at(module: ModuleView, value: ValueId, signal: SignalId, bit: int) -> bool {
    module.has(value) && (module.kind(value) matches KindView::Signal(reference)
        && reference.signal == signal && reference.lsb <= bit < reference.lsb + reference.width)
}

/// A connection that a rewrite drops puts nothing out of the module and nobody asked to keep
/// its signal; it stores nothing; and after the rewrite nothing goes by a value that reads a
/// bit that it drives.
pub proof fn dropped_connections_are_unread(
    module: ModuleView,
    map: Seq<ValueId>,
    among: spec_fn(ValueId) -> bool,
    i: int,
    bit: int,
    value: ValueId,
    operation: int,
    k: int,
)
    requires
        module.wf(),
        map.len() == module.values.len(),
        0 <= i < module.connects.len(),
        dropped(module, map, among)[i],
        module.connects[i].target.dynamic is None,
        0 <= bit < module.signals[module.connects[i].target.signal.raw as int].ty.width,
        touches(module.connects[i], module.connects[i].target.signal, bit),
    ensures
        !(module.signals[module.connects[i].target.signal.raw as int].kind is Port),
        !module.signals[module.connects[i].target.signal.raw as int].preserved,
        !(module.op_of(module.connects[i].value) matches Some(OpView::Register(_))),
        module.has(value) && is_used(module, value) ==> !reads_at(
            module,
            map[value.raw as int],
            module.connects[i].target.signal,
            bit,
        ),
        0 <= operation < module.operations.len() && 0 <= k < op_inputs(
            module.operations[operation].kind,
        ).len() ==> !reads_at(
            module,
            replaced(
                module,
                map,
                module.operations[operation].result.raw as int,
                op_inputs(module.operations[operation].kind)[k],
            ),
            module.connects[i].target.signal,
            bit,
        ),
{
    let connect = module.connects[i];
    let signal = connect.target.signal;
    assert(removable(module, map, connect));
    let place = single_bit(module, connect.target)->0;
    assert(place.signal == signal && place.bit == bit);
    assert(!bit_is_read(module, map, place));
    if module.has(value) && is_used(module, value) && reads_at(
        module,
        map[value.raw as int],
        signal,
        bit,
    ) {
        let n = lemma_used(module, value);
        assert(use_moves_to(module, map, map[value.raw as int], n));
        assert(reads_bit(module, map, place, map[value.raw as int]));
    }
    if 0 <= operation < module.operations.len() && 0 <= k < op_inputs(
        module.operations[operation].kind,
    ).len() {
        assert(module.operation_ok(operation));
        let operand = op_inputs(module.operations[operation].kind)[k];
        assert(operand.raw < module.values.len());
        let result = module.operations[operation].result.raw as int;
        let other = replaced(module, map, result, operand);
        if reads_at(module, other, signal, bit) {
            assert(operation_asks(module, operation, operand));
            if other == operand && !moves(module, map, result, operand) {
                assert(stays_operand(module, map, operand, operation, k));
            } else {
                let n = lemma_used(module, operand);
                assert(use_moves_to(module, map, other, n));
            }
            assert(keeps_use(module, map, other));
            assert(reads_bit(module, map, place, other));
        }
    }
}

/// The connections that stay drive a signal as all of them did.
proof fn lemma_kept_driver(
    before: ModuleView,
    after: ModuleView,
    signal: SignalId,
    bit: int,
    count: nat,
)
    requires
        before.wf(),
        after.wf(),
        before.with_connects(after.connects).grows_to(after),
        signal.raw < before.signals.len(),
        !coalescible(before, signal),
        count <= before.connects.len(),
        kept_connects(before, before.connects.take(count as int)).len() <= after.connects.len(),
        forall|i: int|
            0 <= i < kept_connects(before, before.connects.take(count as int)).len()
                ==> #[trigger] after.connects[i] == kept_connects(
                before,
                before.connects.take(count as int),
            )[i],
    ensures
        folded_driver(
            after,
            signal,
            bit,
            kept_connects(before, before.connects.take(count as int)).len(),
        ) == folded_driver(before, signal, bit, count),
    decreases count,
{
    if count > 0 {
        let all = before.connects.take(count as int);
        let short = before.connects.take(count - 1);
        assert(all.drop_last() =~= short);
        assert(all.last() == before.connects[count - 1]);
        let connect = before.connects[count - 1];
        assert(before.connect_ok(connect));
        let list = kept_connects(before, all);
        let below = kept_connects(before, short);
        assert forall|i: int| 0 <= i < below.len() implies #[trigger] after.connects[i]
            == below[i] by {
            assert(list[i] == below[i]);
        }
        lemma_kept_driver(before, after, signal, bit, (count - 1) as nat);
        if coalescible(before, connect.target.signal) {
            assert(!touches(connect, signal, bit));
        } else {
            assert(after.connects[below.len() as int] == connect);
            assert(after.ty(connect.value) == before.ty(connect.value));
            assert(after.signals[connect.target.signal.raw as int].ty
                == before.signals[connect.target.signal.raw as int].ty);
        }
    } else {
        assert(before.connects.take(0) =~= seq![]);
    }
}

proof fn lemma_listed(module: ModuleView, count: nat)
    requires
        count <= module.signals.len(),
        module.signals.len() <= u32::MAX,
    ensures
        forall|k: int|
            0 <= k < coalesced_signals(module, count).len() ==> (#[trigger] coalesced_signals(
                module,
                count,
            )[k]).raw < count && coalescible(module, coalesced_signals(module, count)[k]),
        forall|i: int, j: int|
            0 <= i < j < coalesced_signals(module, count).len() ==> (#[trigger] coalesced_signals(
                module,
                count,
            )[i]).raw < (#[trigger] coalesced_signals(module, count)[j]).raw,
        forall|s: SignalId|
            s.raw < count && #[trigger] coalescible(module, s) ==> coalesced_signals(
                module,
                count,
            ).contains(s),
    decreases count,
{
    if count > 0 {
        lemma_listed(module, (count - 1) as nat);
        let below = coalesced_signals(module, (count - 1) as nat);
        let list = coalesced_signals(module, count);
        let last = SignalId { raw: (count - 1) as u32 };
        assert forall|s: SignalId| s.raw < count && #[trigger] coalescible(
            module,
            s,
        ) implies list.contains(s) by {
            if s.raw == count - 1 {
                assert(s == last);
                assert(list[below.len() as int] == s);
            } else {
                let k = choose|k: int| 0 <= k < below.len() && below[k] == s;
                assert(list[k] == s);
            }
        }
        assert forall|k: int| 0 <= k < list.len() implies (#[trigger] list[k]).raw < count
            && coalescible(module, list[k]) by {
            if k < below.len() {
                assert(list[k] == below[k]);
            }
        }
        assert forall|i: int, j: int| 0 <= i < j < list.len() implies (#[trigger] list[i]).raw < (
        #[trigger] list[j]).raw by {
            assert(list[i] == below[i]);
            if j < below.len() {
                assert(list[j] == below[j]);
            }
        }
    }
}

/// No connection that stays goes to a signal whose pieces were put together.
proof fn lemma_kept_elsewhere(module: ModuleView, connects: Seq<Connect>, i: int)
    requires
        0 <= i < kept_connects(module, connects).len(),
    ensures
        !coalescible(module, kept_connects(module, connects)[i].target.signal),
    decreases connects.len(),
{
    let below = kept_connects(module, connects.drop_last());
    if i < below.len() {
        lemma_kept_elsewhere(module, connects.drop_last(), i);
        assert(kept_connects(module, connects)[i] == below[i]);
    }
}

/// Connections to other signals do not count.
proof fn lemma_none_touches(module: ModuleView, signal: SignalId, bit: int, from: nat, count: nat)
    requires
        from <= count,
        forall|i: int|
            from <= i < count ==> !touches(#[trigger] module.connects[i], signal, bit),
    ensures
        folded_driver(module, signal, bit, count) == folded_driver(module, signal, bit, from),
    decreases count,
{
    if from < count {
        assert(!touches(module.connects[count - 1], signal, bit));
        lemma_none_touches(module, signal, bit, from, (count - 1) as nat);
    }
}

/// Whole connections drive what their pieces drove: a bit has a driver afterwards just where
/// it had one, and in every environment the two carry the same.
pub proof fn whole_connections_drive_alike(
    before: ModuleView,
    after: ModuleView,
    env: Env,
    signal: SignalId,
    bit: int,
)
    requires
        before.wf(),
        after.wf(),
        coalesced(before, after),
        before.with_connects(after.connects).grows_to(after),
        signal.raw < before.signals.len(),
        0 <= bit < before.signals[signal.raw as int].ty.width,
    ensures
        bit_driver(before, signal, bit) is Some <==> bit_driver(after, signal, bit) is Some,
        bit_driver(before, signal, bit) is Some ==> word_of(
            before,
            env,
            bit_driver(before, signal, bit)->0.value,
        )[bit_driver(before, signal, bit)->0.bit as int] == word_of(
            after,
            env,
            bit_driver(after, signal, bit)->0.value,
        )[bit_driver(after, signal, bit)->0.bit as int],
{
    let signals = coalesced_signals(before, before.signals.len());
    let list = kept_connects(before, before.connects);
    let count = after.connects.len();
    lemma_listed(before, before.signals.len());
    assert(before.connects.take(before.connects.len() as int) =~= before.connects);
    assert(after.signals[signal.raw as int] == before.signals[signal.raw as int]);
    if coalescible(before, signal) {
        let k = choose|k: int| 0 <= k < signals.len() && signals[k] == signal;
        let place = list.len() + k;
        let connect = after.connects[place];
        assert(whole_driver(before, after, signals[k], after.connects[list.len() + k]));
        assert forall|i: int| 0 <= i < place implies !touches(
            #[trigger] after.connects[i],
            signal,
            bit,
        ) by {
            if i < list.len() {
                lemma_kept_elsewhere(before, before.connects, i);
                assert(after.connects[i] == list[i]);
            } else {
                let other = i - list.len();
                assert(whole_driver(before, after, signals[other], after.connects[list.len() + other]));
                assert(signals[other].raw < signals[k].raw);
            }
        }
        assert forall|i: int| place < i < count implies !touches(
            #[trigger] after.connects[i],
            signal,
            bit,
        ) by {
            let other = i - list.len();
            assert(whole_driver(before, after, signals[other], after.connects[list.len() + other]));
            assert(signals[k].raw < signals[other].raw);
        }
        lemma_none_touches(after, signal, bit, 0, place as nat);
        lemma_none_touches(after, signal, bit, (place + 1) as nat, count);
        assert(touches(connect, signal, bit));
        assert(folded_driver(after, signal, bit, (place + 1) as nat).1 == Some(
            ValueBit { value: connect.value, bit: bit as u32 },
        ));
        assert(word_of(after, env, connect.value) == driver_word(before, env, signal));
    } else {
        lemma_kept_driver(before, after, signal, bit, before.connects.len());
        assert forall|i: int| list.len() <= i < count implies !touches(
            #[trigger] after.connects[i],
            signal,
            bit,
        ) by {
            let other = i - list.len();
            assert(whole_driver(before, after, signals[other], after.connects[list.len() + other]));
            assert(coalescible(before, signals[other]));
        }
        lemma_none_touches(after, signal, bit, list.len(), count);
        if bit_driver(before, signal, bit) is Some {
            lemma_folded_driver(before, signal, bit, before.connects.len());
            let value = bit_driver(before, signal, bit)->0.value;
            lemma_eval_grows(before, after, env, value.raw as int);
        }
    }
}

} // verus!
