//! Merging the states of a machine is not seen outside of it.

use super::analysis::{
    analysis_of, built, catalogues, classed, context_of, counts_uses, machine_connects,
    lemma_counted_has, machine_of, minimized, seen_at, FsmCatalog,
};
use super::behavior::{lit_rows, next_of, roots_of, SymbolicBehavior};
use super::catalog::{is_machine, DerivedFsm, FsmAnalysisCandidate};
use super::dependency::{
    counted, depends, reads, spreads, user_rows, value_rows, FsmDependencyIndex, FsmDependencyUser,
};
use super::minimization::{apart, merged_states_behave_alike, settled};
use super::observation::{
    agreed, connect_looks, first_values, leaves, lemma_first_values, looks, operation_looks,
    plain_looks, summarizes, FsmObservationCandidate,
};
use super::symbolic::cost::behavior_cost;
use super::symbolic::encoder::{
    active_control, after_resets, open_bit, open_read, register_next_word, roots_word, signal_word,
    WordLogicEncoder,
};
use super::symbolic::selection::{class_of, states_view};
use crate::logic::{lits_value, Inputs};
use crate::word::drivers::{
    bit_driver, connected_values, driven, folded_driver, lemma_folded_driver, SignalDriverIndex,
};
use crate::word::module::{
    Connect, KindView, MemoryReadPort, MemoryReadTiming, MemoryWritePort, ModuleView,
};
use crate::word::numbers::known_word;
use crate::word::semantics::{
    eval, lemma_eval_width, lemma_op_bits_agree, word_of, words_below, Env,
};
use crate::word::types::{
    is_state, op_inputs, BitVal, OpView, RegisterView, Reset, SignalId, ValueId,
};
use crate::word::uses::{
    connect_values, gathered, instance_values, occurrences, operation_values, read_port_values,
    used_values, write_port_values,
};
use vstd::prelude::*;

verus! {

/// A read of a memory goes by a value.
pub open spec fn read_asks(port: MemoryReadPort, value: ValueId) -> bool {
    port.address == value || (port.timing matches MemoryReadTiming::Synchronous {
        clock,
        enable,
        disabled,
    } && (clock.value == value || (enable matches Some(enable) && enable.value == value)))
}

/// A write of a memory goes by a value.
pub open spec fn write_asks(port: MemoryWritePort, value: ValueId) -> bool {
    ||| port.address == value
    ||| port.data == value
    ||| port.clock.value == value
    ||| port.enable matches Some(enable) && enable.value == value
    ||| port.mask matches Some(mask) && mask.value == value
}

/// A connection goes by a value.
pub open spec fn connect_asks(connect: Connect, value: ValueId) -> bool {
    connect.value == value || (connect.target.dynamic matches Some(dynamic) && dynamic.offset
        == value)
}

/// An operation has a value among its operands.
pub open spec fn operation_asks(module: ModuleView, operation: int, value: ValueId) -> bool {
    exists|k: int|
        0 <= k < op_inputs(module.operations[operation].kind).len() && #[trigger] op_inputs(
            module.operations[operation].kind,
        )[k] == value
}

pub open spec fn instance_asks(module: ModuleView, i: int, j: int, value: ValueId) -> bool {
    &&& 0 <= i < module.instances.len()
    &&& 0 <= j < module.instances[i].connections.len()
    &&& module.instances[i].connections[j].value == value
}

/// Something in a module goes by a value.
pub open spec fn is_used(module: ModuleView, value: ValueId) -> bool {
    ||| exists|o: int|
        0 <= o < module.operations.len() && #[trigger] operation_asks(module, o, value)
    ||| exists|c: int|
        0 <= c < module.connects.len() && connect_asks(#[trigger] module.connects[c], value)
    ||| exists|i: int, j: int| #[trigger] instance_asks(module, i, j, value)
    ||| exists|r: int|
        0 <= r < module.memory_reads.len() && read_asks(#[trigger] module.memory_reads[r], value)
    ||| exists|w: int|
        0 <= w < module.memory_writes.len() && write_asks(
            #[trigger] module.memory_writes[w],
            value,
        )
}

/// An operation stores a value for others than the machine of a register: it is another
/// register or a latch that is used.
pub open spec fn stored_by(module: ModuleView, own: ValueId, operation: int, value: ValueId) -> bool {
    &&& 0 <= operation < module.operations.len()
    &&& is_state(module.operations[operation].kind)
    &&& module.operations[operation].result != own
    &&& is_used(module, module.operations[operation].result)
    &&& operation_asks(module, operation, value)
}

/// A connection takes a value out of a module, other than the result of a register.
pub open spec fn put_out_by(module: ModuleView, own: ValueId, connect: int, value: ValueId) -> bool {
    &&& 0 <= connect < module.connects.len()
    &&& leaves(module, module.connects[connect].target.signal)
    &&& module.connects[connect].value != own
    &&& connect_asks(module.connects[connect], value)
}

/// A value clocks the register of a machine.
pub open spec fn clocks(module: ModuleView, own: ValueId, value: ValueId) -> bool {
    module.op_of(own) matches Some(OpView::Register(register)) && register.clock == value
}

/// A value is seen outside of the machine of a register: it is stored elsewhere, it clocks the
/// register, it leaves the module, or an instance or a memory goes by it.
pub open spec fn seen_outside(module: ModuleView, own: ValueId, value: ValueId) -> bool {
    ||| exists|o: int| #[trigger] stored_by(module, own, o, value)
    ||| clocks(module, own, value)
    ||| exists|c: int| #[trigger] put_out_by(module, own, c, value)
    ||| exists|i: int, j: int| #[trigger] instance_asks(module, i, j, value)
    ||| exists|r: int|
        0 <= r < module.memory_reads.len() && read_asks(#[trigger] module.memory_reads[r], value)
    ||| exists|w: int|
        0 <= w < module.memory_writes.len() && write_asks(
            #[trigger] module.memory_writes[w],
            value,
        )
}

/// A bit of a signal is not the same in two environments.
pub open spec fn changed(env: Env, other: Env, signal: int, bit: int) -> bool {
    (env.signal)(signal, bit) != (other.signal)(signal, bit)
}

/// A value goes into another without being stored on the way.
pub open spec fn shows(module: ModuleView, from: int, value: int) -> bool
    decreases value,
{
    value == from || (0 <= value < module.values.len() && match module.values[value].kind {
        KindView::Operation(operation) => !is_state(module.operations[operation.raw as int].kind)
            && exists|k: int|
            0 <= k < op_inputs(module.operations[operation.raw as int].kind).len() && op_inputs(
                module.operations[operation.raw as int].kind,
            )[k].raw < value && shows(
                module,
                from,
                (#[trigger] op_inputs(module.operations[operation.raw as int].kind)[k]).raw as int,
            ),
        _ => false,
    })
}

/// A value reads a bit of a signal that is not the same.
pub open spec fn reads_changed(
    module: ModuleView,
    env: Env,
    other: Env,
    value: int,
    signal: int,
    bit: int,
) -> bool {
    &&& 0 <= value < module.values.len()
    &&& module.values[value].kind matches KindView::Signal(reference) && reference.signal.raw
        == signal && reference.lsb <= bit < reference.lsb + reference.width
    &&& changed(env, other, signal, bit)
}

/// A bit that is not the same is driven by what reads one that came before it.
pub open spec fn caused_by(
    module: ModuleView,
    env: Env,
    other: Env,
    trace: spec_fn(int, int) -> nat,
    signal: int,
    bit: int,
    read: int,
    source: int,
    place: int,
) -> bool {
    &&& bit_driver(module, SignalId { raw: signal as u32 }, bit) matches Some(driver) && shows(
        module,
        read,
        driver.value.raw as int,
    )
    &&& reads_changed(module, env, other, read, source, place)
    &&& trace(source, place) < trace(signal, bit)
}

/// Two environments differ by the state of a machine: what is stored elsewhere is the same,
/// and so are reads of which not all is driven; any other bit that is not the same can be
/// traced back to the state.
pub open spec fn differ_by_state(
    module: ModuleView,
    own: ValueId,
    state: SignalId,
    env: Env,
    other: Env,
    trace: spec_fn(int, int) -> nat,
) -> bool {
    &&& forall|v: int, i: int|
        v != own.raw ==> #[trigger] (env.state)(v, i) == (other.state)(v, i)
    &&& forall|v: int, i: int| #[trigger] (env.unknown)(v, i) == (other.unknown)(v, i)
    &&& forall|v: int|
        0 <= v < module.values.len() && partly_driven(module, v) ==> #[trigger] eval(module, env, v)
            == eval(module, other, v)
    &&& forall|signal: int, bit: int|
        0 <= signal < module.signals.len() && 0 <= bit < module.signals[signal].ty.width
            && #[trigger] changed(env, other, signal, bit) && signal != state.raw ==> exists|
            read: int,
            source: int,
            place: int,
        | #[trigger]
            caused_by(module, env, other, trace, signal, bit, read, source, place)
}

/// A value reads a signal of which some bit has no driver of its own.
pub open spec fn partly_driven(module: ModuleView, v: int) -> bool {
    module.values[v].kind matches KindView::Signal(reference) && exists|i: int|
        0 <= i < reference.width && (#[trigger] bit_driver(
            module,
            reference.signal,
            reference.lsb + i,
        )) is None
}

/// No operation has the result of a register among its operands.
spec fn read_by_none(module: ModuleView, own: ValueId) -> bool {
    forall|o: int|
        0 <= o < module.operations.len() ==> !(#[trigger] operation_asks(module, o, own))
}

/// An item of a row has its place among the rows that are put one after the other.
pub proof fn lemma_gathered_at<T>(row: spec_fn(int) -> Seq<T>, count: nat, i: int, j: int) -> (k: int)
    requires
        0 <= i < count,
        0 <= j < row(i).len(),
    ensures
        0 <= k < gathered(row, count).len(),
        gathered(row, count)[k] == row(i)[j],
        k == gathered(row, i as nat).len() + j,
    decreases count,
{
    let below = gathered(row, (count - 1) as nat);
    if i == count - 1 {
        below.len() + j
    } else {
        lemma_gathered_at(row, (count - 1) as nat, i, j)
    }
}

/// An item of rows that were put one after the other comes from one of them.
pub proof fn lemma_gathered_from<T>(row: spec_fn(int) -> Seq<T>, count: nat, k: int) -> (at: (int, int))
    requires
        0 <= k < gathered(row, count).len(),
    ensures
        0 <= at.0 < count,
        0 <= at.1 < row(at.0).len(),
        row(at.0)[at.1] == gathered(row, count)[k],
    decreases count,
{
    let below = gathered(row, (count - 1) as nat);
    if k < below.len() {
        lemma_gathered_from(row, (count - 1) as nat, k)
    } else {
        (count - 1, k - below.len())
    }
}

/// What is at a place of a list occurs in it, and twice if it is at another place too.
pub proof fn lemma_occurs(list: Seq<ValueId>, value: ValueId, i: int)
    requires
        0 <= i < list.len(),
        list[i] == value,
    ensures
        occurrences(list, value) >= 1,
        forall|j: int|
            0 <= j < list.len() && j != i && #[trigger] list[j] == value ==> occurrences(
                list,
                value,
            ) >= 2,
    decreases list.len(),
{
    let short = list.drop_last();
    if i < list.len() - 1 {
        assert(short[i] == value);
        lemma_occurs(short, value, i);
        assert forall|j: int|
            0 <= j < list.len() && j != i && #[trigger] list[j] == value implies occurrences(
            list,
            value,
        ) >= 2 by {
            if j < short.len() {
                assert(short[j] == value);
            }
        }
    } else {
        assert forall|j: int|
            0 <= j < list.len() && j != i && #[trigger] list[j] == value implies occurrences(
            list,
            value,
        ) >= 2 by {
            assert(short[j] == value);
            lemma_occurs(short, value, j);
        }
    }
}

/// What something goes by is counted among the uses.
#[verifier::rlimit(30)]
pub proof fn lemma_used(module: ModuleView, value: ValueId) -> (k: int)
    requires
        is_used(module, value),
    ensures
        0 <= k < used_values(module).len(),
        used_values(module)[k] == value,
{
    let connects = |i: int| connect_values(module, i);
    let instances = |i: int| instance_values(module, i);
    let reading = |i: int| read_port_values(module, i);
    let writing = |i: int| write_port_values(module, i);
    let operations = |i: int| operation_values(module, i);
    let a = gathered(connects, module.connects.len());
    let b = gathered(instances, module.instances.len());
    let c = gathered(reading, module.memory_reads.len());
    let d = gathered(writing, module.memory_writes.len());
    let e = gathered(operations, module.operations.len());
    assert(used_values(module) == a + b + c + d + e);
    if exists|o: int| 0 <= o < module.operations.len() && #[trigger] operation_asks(module, o, value) {
        let o = choose|o: int|
            0 <= o < module.operations.len() && #[trigger] operation_asks(module, o, value);
        let n = choose|n: int|
            0 <= n < op_inputs(module.operations[o].kind).len() && #[trigger] op_inputs(
                module.operations[o].kind,
            )[n] == value;
        let k = lemma_gathered_at(operations, module.operations.len(), o, n);
        a.len() + b.len() + c.len() + d.len() + k
    } else if exists|x: int|
        0 <= x < module.connects.len() && connect_asks(#[trigger] module.connects[x], value) {
        let x = choose|x: int|
            0 <= x < module.connects.len() && connect_asks(#[trigger] module.connects[x], value);
        let n = if module.connects[x].value == value {
            0
        } else {
            1int
        };
        assert(connects(x)[n] == value);
        lemma_gathered_at(connects, module.connects.len(), x, n)
    } else if exists|i: int, j: int| #[trigger] instance_asks(module, i, j, value) {
        let (i, j) = choose|i: int, j: int| #[trigger] instance_asks(module, i, j, value);
        let k = lemma_gathered_at(instances, module.instances.len(), i, j);
        a.len() + k
    } else if exists|r: int|
        0 <= r < module.memory_reads.len() && read_asks(#[trigger] module.memory_reads[r], value) {
        let r = choose|r: int|
            0 <= r < module.memory_reads.len() && read_asks(
                #[trigger] module.memory_reads[r],
                value,
            );
        let n = lemma_read_place(module, r, value);
        let k = lemma_gathered_at(reading, module.memory_reads.len(), r, n);
        a.len() + b.len() + k
    } else {
        let w = choose|w: int|
            0 <= w < module.memory_writes.len() && write_asks(
                #[trigger] module.memory_writes[w],
                value,
            );
        let n = lemma_write_place(module, w, value);
        let k = lemma_gathered_at(writing, module.memory_writes.len(), w, n);
        a.len() + b.len() + c.len() + k
    }
}

proof fn lemma_read_place(module: ModuleView, r: int, value: ValueId) -> (n: int)
    requires
        read_asks(module.memory_reads[r], value),
    ensures
        0 <= n < read_port_values(module, r).len(),
        read_port_values(module, r)[n] == value,
{
    let port = module.memory_reads[r];
    let list = read_port_values(module, r);
    if port.address == value {
        assert(list[0] == value);
        0
    } else if port.timing->clock.value == value {
        assert(list[1] == value);
        1
    } else {
        assert(list[2] == value);
        2
    }
}

proof fn lemma_write_place(module: ModuleView, w: int, value: ValueId) -> (n: int)
    requires
        write_asks(module.memory_writes[w], value),
    ensures
        0 <= n < write_port_values(module, w).len(),
        write_port_values(module, w)[n] == value,
{
    let port = module.memory_writes[w];
    let list = write_port_values(module, w);
    if port.address == value {
        assert(list[0] == value);
        0
    } else if port.data == value {
        assert(list[1] == value);
        1
    } else if port.clock.value == value {
        assert(list[2] == value);
        2
    } else if port.enable is Some && port.enable->0.value == value {
        assert(list[3] == value);
        3
    } else {
        let n = list.len() - 1;
        assert(list[n] == value);
        n
    }
}

/// A register that only a connection uses is read by no operation.
proof fn lemma_read_by_none(module: ModuleView, uses: Seq<u32>, own: ValueId, connect: int)
    requires
        module.wf(),
        counts_uses(module, uses),
        0 <= connect < module.connects.len(),
        module.connects[connect].value == own,
        uses[own.raw as int] == 1,
    ensures
        read_by_none(module, own),
{
    let connects = |i: int| connect_values(module, i);
    let operations = |i: int| operation_values(module, i);
    let a = gathered(connects, module.connects.len());
    let e = gathered(operations, module.operations.len());
    let all = used_values(module);
    assert(module.connect_ok(module.connects[connect]));
    assert(ValueId { raw: own.raw as int as u32 } == own);
    assert(occurrences(all, own) == 1);
    let first = lemma_gathered_at(connects, module.connects.len(), connect, 0);
    assert(all[first] == own);
    assert forall|o: int| 0 <= o < module.operations.len() implies !(#[trigger] operation_asks(
        module,
        o,
        own,
    )) by {
        if operation_asks(module, o, own) {
            let n = choose|n: int|
                0 <= n < op_inputs(module.operations[o].kind).len() && #[trigger] op_inputs(
                    module.operations[o].kind,
                )[n] == own;
            let k = lemma_gathered_at(operations, module.operations.len(), o, n);
            let place = all.len() - e.len() + k;
            assert(all[place] == own);
            lemma_occurs(all, own, first);
            assert(place != first);
        }
    }
}

/// Where a word is not the same, it shows a bit that is not.
proof fn lemma_difference(
    module: ModuleView,
    own: ValueId,
    state: SignalId,
    env: Env,
    other: Env,
    trace: spec_fn(int, int) -> nat,
    v: int,
) -> (found: (int, int, int))
    requires
        module.wf(),
        differ_by_state(module, own, state, env, other, trace),
        read_by_none(module, own),
        0 <= v < module.values.len(),
        v != own.raw,
        eval(module, env, v) != eval(module, other, v),
    ensures
        shows(module, found.0, v),
        reads_changed(module, env, other, found.0, found.1, found.2),
    decreases v,
{
    assert(module.value_ok(v));
    match module.values[v].kind {
        KindView::Signal(reference) => {
            let a = eval(module, env, v);
            let b = eval(module, other, v);
            assert(a.len() == b.len());
            if forall|i: int| 0 <= i < a.len() ==> a[i] == b[i] {
                assert(a =~= b);
            }
            let i = choose|i: int| 0 <= i < a.len() && a[i] != b[i];
            (v, reference.signal.raw as int, reference.lsb + i)
        },
        KindView::Constant(bits) => {
            assert(eval(module, env, v) =~= eval(module, other, v)) by {
                assert forall|i: int| 0 <= i < bits.len() implies eval(module, env, v)[i] == eval(
                    module,
                    other,
                    v,
                )[i] by {
                    assert((env.unknown)(v, i) == (other.unknown)(v, i));
                }
            }
            (0, 0, 0)
        },
        KindView::Operation(operation) => {
            let kind = module.operations[operation.raw as int].kind;
            assert(module.operation_ok(operation.raw as int));
            let inputs = op_inputs(kind);
            if is_state(kind) {
                let a = eval(module, env, v);
                let b = eval(module, other, v);
                assert(a =~= b) by {
                    assert forall|i: int| 0 <= i < a.len() implies a[i] == b[i] by {
                        assert((env.state)(v, i) == (other.state)(v, i));
                    }
                }
                (0, 0, 0)
            } else {
                let f = words_below(module, env, v);
                let g = words_below(module, other, v);
                if forall|i: int| 0 <= i < inputs.len() ==> f(#[trigger] inputs[i]) == g(inputs[i]) {
                    assert(crate::word::semantics::op_bits(
                        module,
                        env,
                        v,
                        kind,
                        module.values[v].ty,
                        f,
                    ) == crate::word::semantics::op_bits(
                        module,
                        env,
                        v,
                        kind,
                        module.values[v].ty,
                        g,
                    )) by {
                        lemma_op_bits_agree(
                            module,
                            module,
                            env,
                            v,
                            kind,
                            module.values[v].ty,
                            f,
                            g,
                        );
                    }
                    assert(crate::word::semantics::op_bits(
                        module,
                        env,
                        v,
                        kind,
                        module.values[v].ty,
                        g,
                    ) == crate::word::semantics::op_bits(
                        module,
                        other,
                        v,
                        kind,
                        module.values[v].ty,
                        g,
                    ));
                }
                let i = choose|i: int|
                    0 <= i < inputs.len() && f(#[trigger] inputs[i]) != g(inputs[i]);
                let u = inputs[i].raw as int;
                assert(inputs[i].raw < v);
                assert(u != own.raw) by {
                    if u == own.raw {
                        assert(inputs[i] == own);
                        assert(operation_asks(module, operation.raw as int, own));
                    }
                }
                let found = lemma_difference(module, own, state, env, other, trace, u);
                assert(shows(module, found.0, v));
                found
            }
        },
    }
}

/// Where the state is the same, nothing is not.
proof fn lemma_no_change(
    module: ModuleView,
    own: ValueId,
    state: SignalId,
    env: Env,
    other: Env,
    trace: spec_fn(int, int) -> nat,
    signal: int,
    bit: int,
)
    requires
        module.wf(),
        differ_by_state(module, own, state, env, other, trace),
        forall|i: int|
            0 <= i < module.signals[state.raw as int].ty.width ==> !(#[trigger] changed(
                env,
                other,
                state.raw as int,
                i,
            )),
        0 <= signal < module.signals.len(),
        0 <= bit < module.signals[signal].ty.width,
    ensures
        !changed(env, other, signal, bit),
    decreases trace(signal, bit),
{
    if changed(env, other, signal, bit) {
        if signal != state.raw {
            let (read, source, place) = choose|read: int, source: int, place: int| #[trigger]
                caused_by(module, env, other, trace, signal, bit, read, source, place);
            assert(module.value_ok(read));
            lemma_no_change(module, own, state, env, other, trace, source, place);
        }
    }
}

/// A driver of a bit is connected to its signal.
proof fn lemma_driver_connected(module: ModuleView, signal: SignalId, bit: int, count: nat)
    requires
        count <= module.connects.len(),
    ensures
        folded_driver(module, signal, bit, count).1 matches Some(driver) ==> connected_values(
            module,
            signal,
            count,
        ).contains(driver.value),
    decreases count,
{
    if count > 0 {
        lemma_driver_connected(module, signal, bit, (count - 1) as nat);
        let below = connected_values(module, signal, (count - 1) as nat);
        let now = connected_values(module, signal, count);
        let connect = module.connects[count - 1];
        if let Some(driver) = folded_driver(module, signal, bit, count).1 {
            if connect.target.signal == signal {
                super::dependency::lemma_push_contains(below, connect.value, driver.value);
            }
        }
    }
}

/// What depends on a value that the state reaches is reached.
proof fn lemma_reach_step(
    module: ModuleView,
    drivers: &SignalDriverIndex,
    dependencies: &FsmDependencyIndex,
    state: SignalId,
    from: int,
    to: int,
    crossing: bool,
)
    requires
        module.wf(),
        dependencies.describes(module, drivers),
        0 <= from < module.values.len(),
        0 <= to < module.values.len(),
        dependencies.reaches(state, from, false),
        depends(module, drivers, to, ValueId { raw: from as u32 }, crossing),
    ensures
        dependencies.reaches(state, to, false),
{
    let users = user_rows(dependencies.users@);
    let sources = dependencies.signal_references@[state.raw as int]@;
    let user = FsmDependencyUser {
        value: ValueId { raw: to as u32 },
        crosses_unresolved_signal_driver: crossing,
    };
    assert(users[from].contains(user));
    let k = choose|k: int| 0 <= k < users[from].len() && users[from][k] == user;
    let steps = choose|steps: nat| #[trigger] spreads(users, sources, steps, from, false);
    assert(users[from][k].value.raw == to);
    assert(spreads(users, sources, steps + 1, to, false));
}

proof fn lemma_shown_reached(
    module: ModuleView,
    drivers: &SignalDriverIndex,
    dependencies: &FsmDependencyIndex,
    state: SignalId,
    from: int,
    v: int,
)
    requires
        module.wf(),
        dependencies.describes(module, drivers),
        0 <= from < module.values.len(),
        0 <= v < module.values.len(),
        dependencies.reaches(state, from, false),
        shows(module, from, v),
    ensures
        dependencies.reaches(state, v, false),
    decreases v,
{
    if v != from {
        let operation = module.values[v].kind->Operation_0;
        let kind = module.operations[operation.raw as int].kind;
        let k = choose|k: int|
            0 <= k < op_inputs(kind).len() && op_inputs(kind)[k].raw < v && shows(
                module,
                from,
                (#[trigger] op_inputs(kind)[k]).raw as int,
            );
        let u = op_inputs(kind)[k];
        lemma_shown_reached(module, drivers, dependencies, state, from, u.raw as int);
        assert(op_inputs(kind).contains(u));
        assert(ValueId { raw: u.raw as int as u32 } == u);
        lemma_reach_step(module, drivers, dependencies, state, u.raw as int, v, false);
    }
}

/// What reads a bit that is not the same is reached from the state.
proof fn lemma_changed_reached(
    module: ModuleView,
    drivers: &SignalDriverIndex,
    dependencies: &FsmDependencyIndex,
    own: ValueId,
    state: SignalId,
    env: Env,
    other: Env,
    trace: spec_fn(int, int) -> nat,
    read: int,
    signal: int,
    bit: int,
)
    requires
        module.wf(),
        drivers.describes(module),
        dependencies.describes(module, drivers),
        state.raw < module.signals.len(),
        differ_by_state(module, own, state, env, other, trace),
        reads_changed(module, env, other, read, signal, bit),
    ensures
        dependencies.reaches(state, read, false),
    decreases trace(signal, bit),
{
    assert(module.value_ok(read));
    let reference = module.values[read].kind->Signal_0;
    let users = user_rows(dependencies.users@);
    let references = value_rows(dependencies.signal_references@);
    let sources = dependencies.signal_references@[state.raw as int]@;
    let value = ValueId { raw: read as u32 };
    if signal == state.raw {
        assert(references[state.raw as int] == sources);
        assert(reads(module, read, state.raw as int));
        assert(references[state.raw as int].contains(value));
        let i = choose|i: int| 0 <= i < sources.len() && sources[i] == value;
        assert(sources[i].raw == read);
        assert(spreads(users, sources, 0, read, false));
    } else {
        let (r, source, place) = choose|r: int, source: int, place: int| #[trigger]
            caused_by(module, env, other, trace, signal, bit, r, source, place);
        lemma_changed_reached(
            module,
            drivers,
            dependencies,
            own,
            state,
            env,
            other,
            trace,
            r,
            source,
            place,
        );
        let id = SignalId { raw: signal as u32 };
        assert(id == reference.signal);
        let driver = bit_driver(module, id, bit)->0;
        lemma_folded_driver(module, id, bit, module.connects.len());
        let d = driver.value.raw as int;
        lemma_shown_reached(module, drivers, dependencies, state, r, d);
        let i = bit - reference.lsb;
        assert(drivers.bits@[signal]@[bit] == bit_driver(module, id, bit));
        assert(drivers.driver_at(reference, i) == Some(driver));
        assert(ValueId { raw: d as u32 } == driver.value);
        if drivers.resolves(reference) {
            assert(drivers.drives(reference, driver.value));
            lemma_reach_step(module, drivers, dependencies, state, d, read, false);
        } else {
            lemma_driver_connected(module, id, bit, module.connects.len());
            lemma_reach_step(module, drivers, dependencies, state, d, read, true);
        }
    }
}

/// A value that the state does not reach has the same word.
proof fn lemma_unreached(
    module: ModuleView,
    drivers: &SignalDriverIndex,
    dependencies: &FsmDependencyIndex,
    own: ValueId,
    state: SignalId,
    env: Env,
    other: Env,
    trace: spec_fn(int, int) -> nat,
    v: int,
)
    requires
        module.wf(),
        drivers.describes(module),
        dependencies.describes(module, drivers),
        state.raw < module.signals.len(),
        differ_by_state(module, own, state, env, other, trace),
        read_by_none(module, own),
        0 <= v < module.values.len(),
        v != own.raw,
        !dependencies.reaches(state, v, false),
    ensures
        eval(module, env, v) == eval(module, other, v),
{
    if eval(module, env, v) != eval(module, other, v) {
        let (read, signal, bit) = lemma_difference(module, own, state, env, other, trace, v);
        lemma_changed_reached(
            module,
            drivers,
            dependencies,
            own,
            state,
            env,
            other,
            trace,
            read,
            signal,
            bit,
        );
        lemma_shown_reached(module, drivers, dependencies, state, read, v);
    }
}

/// A look that counts for a machine makes its value a candidate that does.
proof fn lemma_look_counts(
    list: Seq<FsmObservationCandidate>,
    candidates: Seq<FsmObservationCandidate>,
    own: ValueId,
    i: int,
) -> (k: int)
    requires
        summarizes(list, candidates),
        0 <= i < list.len(),
        list[i].excluded_for != Some(own),
    ensures
        0 <= k < candidates.len(),
        candidates[k].value == list[i].value,
        candidates[k].excluded_for != Some(own),
{
    lemma_first_values(list);
    let values = candidates.map_values(|candidate: FsmObservationCandidate| candidate.value);
    assert(first_values(list).contains(list[i].value));
    let k = choose|k: int| 0 <= k < values.len() && values[k] == list[i].value;
    assert(candidates[k].value == list[i].value);
    if candidates[k].excluded_for == Some(own) {
        assert(agreed(list, candidates[k].value, own));
    }
    k
}

/// A candidate that counts and is reached is among those that are counted.
proof fn lemma_counted_at(
    candidates: Seq<FsmObservationCandidate>,
    own: ValueId,
    influenced: spec_fn(int) -> bool,
    k: int,
) -> (n: int)
    requires
        0 <= k < candidates.len(),
        candidates[k].excluded_for != Some(own),
        influenced(candidates[k].value.raw as int),
    ensures
        0 <= n < counted(candidates, own, influenced).len(),
        counted(candidates, own, influenced)[n] == candidates[k].value,
    decreases candidates.len(),
{
    let short = candidates.drop_last();
    let below = counted(short, own, influenced);
    if k < short.len() {
        lemma_counted_at(short, own, influenced, k)
    } else {
        below.len() as int
    }
}

/// Whatever is seen outside of a machine is looked at for it.
#[verifier::rlimit(60)]
proof fn lemma_seen_looked(
    module: ModuleView,
    uses: Seq<u32>,
    own: ValueId,
    value: ValueId,
) -> (k: int)
    requires
        module.wf(),
        counts_uses(module, uses),
        module.has(own),
        uses[own.raw as int] == 1,
        seen_outside(module, own, value),
    ensures
        0 <= k < looks(module, uses).len(),
        looks(module, uses)[k].value == value,
        looks(module, uses)[k].excluded_for != Some(own),
{
    let connects = |i: int| connect_looks(module, i);
    let instances = |i: int| instance_values(module, i);
    let reading = |i: int| read_port_values(module, i);
    let writing = |i: int| write_port_values(module, i);
    let operations = |i: int| operation_looks(module, uses, i);
    let a = gathered(connects, module.connects.len());
    let b0 = gathered(instances, module.instances.len());
    let b = plain_looks(b0, None);
    let c0 = gathered(reading, module.memory_reads.len());
    let c = plain_looks(c0, None);
    let d0 = gathered(writing, module.memory_writes.len());
    let d = plain_looks(d0, None);
    let e = gathered(operations, module.operations.len());
    let list = looks(module, uses);
    assert(list == a + b + c + d + e);
    if exists|o: int| #[trigger] stored_by(module, own, o, value) {
        let o = choose|o: int| #[trigger] stored_by(module, own, o, value);
        assert(module.operation_ok(o));
        let kind = module.operations[o].kind;
        let result = module.operations[o].result;
        let n = choose|n: int| 0 <= n < op_inputs(kind).len() && #[trigger] op_inputs(kind)[n]
            == value;
        let place = lemma_used(module, result);
        lemma_occurs(used_values(module), result, place);
        assert(ValueId { raw: result.raw as int as u32 } == result);
        assert(uses[result.raw as int] >= 1);
        assert(operations(o)[n].value == value);
        assert(operations(o)[n].excluded_for != Some(own));
        let k = lemma_gathered_at(operations, module.operations.len(), o, n);
        a.len() + b.len() + c.len() + d.len() + k
    } else if clocks(module, own, value) {
        assert(module.value_ok(own.raw as int));
        let o = module.kind(own)->Operation_0.raw as int;
        let kind = module.operations[o].kind;
        let n = op_inputs(kind).len() as int;
        assert(operations(o)[n].value == value);
        let k = lemma_gathered_at(operations, module.operations.len(), o, n);
        a.len() + b.len() + c.len() + d.len() + k
    } else if exists|x: int| #[trigger] put_out_by(module, own, x, value) {
        let x = choose|x: int| #[trigger] put_out_by(module, own, x, value);
        let n = if module.connects[x].value == value {
            0
        } else {
            1int
        };
        assert(connects(x)[n].value == value);
        assert(connects(x)[n].excluded_for == Some(module.connects[x].value));
        lemma_gathered_at(connects, module.connects.len(), x, n)
    } else if exists|i: int, j: int| #[trigger] instance_asks(module, i, j, value) {
        let (i, j) = choose|i: int, j: int| #[trigger] instance_asks(module, i, j, value);
        let k = lemma_gathered_at(instances, module.instances.len(), i, j);
        assert(b[k].value == b0[k]);
        a.len() + k
    } else if exists|r: int|
        0 <= r < module.memory_reads.len() && read_asks(#[trigger] module.memory_reads[r], value) {
        let r = choose|r: int|
            0 <= r < module.memory_reads.len() && read_asks(
                #[trigger] module.memory_reads[r],
                value,
            );
        let n = lemma_read_place(module, r, value);
        let k = lemma_gathered_at(reading, module.memory_reads.len(), r, n);
        assert(c[k].value == c0[k]);
        a.len() + b.len() + k
    } else {
        let w = choose|w: int|
            0 <= w < module.memory_writes.len() && write_asks(
                #[trigger] module.memory_writes[w],
                value,
            );
        let n = lemma_write_place(module, w, value);
        let k = lemma_gathered_at(writing, module.memory_writes.len(), w, n);
        assert(d[k].value == d0[k]);
        a.len() + b.len() + c.len() + k
    }
}

/// What occurs in a list has a place in it.
proof fn lemma_occurrence(list: Seq<ValueId>, value: ValueId) -> (k: int)
    requires
        occurrences(list, value) > 0,
    ensures
        0 <= k < list.len(),
        list[k] == value,
    decreases list.len(),
{
    if list.last() == value {
        list.len() - 1
    } else {
        lemma_occurrence(list.drop_last(), value)
    }
}

/// What is counted among the uses is what something goes by.
#[verifier::rlimit(30)]
proof fn lemma_counted_used(module: ModuleView, k: int)
    requires
        0 <= k < used_values(module).len(),
    ensures
        is_used(module, used_values(module)[k]),
{
    let connects = |i: int| connect_values(module, i);
    let instances = |i: int| instance_values(module, i);
    let reading = |i: int| read_port_values(module, i);
    let writing = |i: int| write_port_values(module, i);
    let operations = |i: int| operation_values(module, i);
    let a = gathered(connects, module.connects.len());
    let b = gathered(instances, module.instances.len());
    let c = gathered(reading, module.memory_reads.len());
    let d = gathered(writing, module.memory_writes.len());
    let e = gathered(operations, module.operations.len());
    let all = used_values(module);
    let value = all[k];
    assert(all == a + b + c + d + e);
    if k < a.len() {
        let (x, n) = lemma_gathered_from(connects, module.connects.len(), k);
        assert(connect_values(module, x)[n] == value);
        assert(connect_asks(module.connects[x], value));
    } else if k < a.len() + b.len() {
        let (i, j) = lemma_gathered_from(instances, module.instances.len(), k - a.len());
        assert(instance_values(module, i)[j] == value);
        assert(instance_asks(module, i, j, value));
    } else if k < a.len() + b.len() + c.len() {
        let (r, n) = lemma_gathered_from(
            reading,
            module.memory_reads.len(),
            k - a.len() - b.len(),
        );
        assert(read_port_values(module, r)[n] == value);
        assert(read_asks(module.memory_reads[r], value));
    } else if k < a.len() + b.len() + c.len() + d.len() {
        let (w, n) = lemma_gathered_from(
            writing,
            module.memory_writes.len(),
            k - a.len() - b.len() - c.len(),
        );
        lemma_write_asked(module, w, n);
        assert(write_asks(module.memory_writes[w], value));
    } else {
        let (o, n) = lemma_gathered_from(
            operations,
            module.operations.len(),
            k - a.len() - b.len() - c.len() - d.len(),
        );
        assert(op_inputs(module.operations[o].kind)[n] == value);
        assert(operation_asks(module, o, value));
    }
}

proof fn lemma_write_asked(module: ModuleView, w: int, n: int)
    requires
        0 <= n < write_port_values(module, w).len(),
    ensures
        write_asks(module.memory_writes[w], write_port_values(module, w)[n]),
{
    let port = module.memory_writes[w];
    let list = write_port_values(module, w);
    if n == 3 && port.enable is Some {
        assert(list[3] == port.enable->0.value);
    } else if n >= 3 {
        assert(list[n] == port.mask->0.value);
    }
}

/// Every operation is what its result comes from.
pub open spec fn makes_results(module: ModuleView) -> bool {
    forall|o: int|
        0 <= o < module.operations.len() ==> module.op_of((#[trigger] module.operations[o]).result)
            == Some(module.operations[o].kind)
}

/// Whatever is looked at for a machine is seen outside of it.
#[verifier::rlimit(60)]
proof fn lemma_looked_seen(module: ModuleView, uses: Seq<u32>, own: ValueId, k: int)
    requires
        module.wf(),
        counts_uses(module, uses),
        module.has(own),
        module.op_of(own) matches Some(OpView::Register(_)),
        makes_results(module),
        0 <= k < looks(module, uses).len(),
        looks(module, uses)[k].excluded_for != Some(own),
    ensures
        seen_outside(module, own, looks(module, uses)[k].value),
{
    let connects = |i: int| connect_looks(module, i);
    let instances = |i: int| instance_values(module, i);
    let reading = |i: int| read_port_values(module, i);
    let writing = |i: int| write_port_values(module, i);
    let operations = |i: int| operation_looks(module, uses, i);
    let a = gathered(connects, module.connects.len());
    let b0 = gathered(instances, module.instances.len());
    let b = plain_looks(b0, None);
    let c0 = gathered(reading, module.memory_reads.len());
    let c = plain_looks(c0, None);
    let d0 = gathered(writing, module.memory_writes.len());
    let d = plain_looks(d0, None);
    let e = gathered(operations, module.operations.len());
    let list = looks(module, uses);
    let value = list[k].value;
    assert(list == a + b + c + d + e);
    if k < a.len() {
        let (x, n) = lemma_gathered_from(connects, module.connects.len(), k);
        assert(connect_looks(module, x)[n] == list[k]);
        assert(put_out_by(module, own, x, value));
    } else if k < a.len() + b.len() {
        let (i, j) = lemma_gathered_from(instances, module.instances.len(), k - a.len());
        assert(instance_values(module, i)[j] == value);
        assert(instance_asks(module, i, j, value));
    } else if k < a.len() + b.len() + c.len() {
        let (r, n) = lemma_gathered_from(
            reading,
            module.memory_reads.len(),
            k - a.len() - b.len(),
        );
        assert(read_port_values(module, r)[n] == value);
        assert(read_asks(module.memory_reads[r], value));
    } else if k < a.len() + b.len() + c.len() + d.len() {
        let (w, n) = lemma_gathered_from(
            writing,
            module.memory_writes.len(),
            k - a.len() - b.len() - c.len(),
        );
        lemma_write_asked(module, w, n);
        assert(write_asks(module.memory_writes[w], value));
    } else {
        let (o, n) = lemma_gathered_from(
            operations,
            module.operations.len(),
            k - a.len() - b.len() - c.len() - d.len(),
        );
        assert(operation_looks(module, uses, o)[n] == list[k]);
        assert(module.operation_ok(o));
        let kind = module.operations[o].kind;
        let result = module.operations[o].result;
        let place = if n < op_inputs(kind).len() {
            n
        } else {
            lemma_clock_asked(kind)
        };
        assert(op_inputs(kind)[place] == value);
        assert(operation_asks(module, o, value));
        assert(ValueId { raw: result.raw as int as u32 } == result);
        assert(occurrences(used_values(module), result) > 0);
        let used = lemma_occurrence(used_values(module), result);
        lemma_counted_used(module, used);
        if result == own {
            assert(module.op_of(own) == Some(kind));
            assert(clocks(module, own, value));
        } else {
            assert(stored_by(module, own, o, value));
        }
    }
}

/// A register has its clock among its operands.
proof fn lemma_clock_asked(kind: OpView) -> (n: int)
    requires
        kind is Register,
    ensures
        0 <= n < op_inputs(kind).len(),
        op_inputs(kind)[n] == kind->Register_0.clock,
{
    assert(op_inputs(kind)[1] == kind->Register_0.clock);
    1
}

/// What is looked at for a machine is what is seen outside of it, no less and no more.
pub proof fn looks_are_at_what_is_seen_outside(
    module: ModuleView,
    uses: Seq<u32>,
    own: ValueId,
    value: ValueId,
)
    requires
        module.wf(),
        counts_uses(module, uses),
        module.has(own),
        module.op_of(own) matches Some(OpView::Register(_)),
        makes_results(module),
        uses[own.raw as int] == 1,
    ensures
        seen_outside(module, own, value) <==> exists|k: int|
            0 <= k < looks(module, uses).len() && (#[trigger] looks(module, uses)[k]).value == value
                && looks(module, uses)[k].excluded_for != Some(own),
{
    if seen_outside(module, own, value) {
        let k = lemma_seen_looked(module, uses, own, value);
        assert(looks(module, uses)[k].value == value);
    }
    if exists|k: int|
        0 <= k < looks(module, uses).len() && (#[trigger] looks(module, uses)[k]).value == value
            && looks(module, uses)[k].excluded_for != Some(own) {
        let k = choose|k: int|
            0 <= k < looks(module, uses).len() && (#[trigger] looks(module, uses)[k]).value == value
                && looks(module, uses)[k].excluded_for != Some(own);
        lemma_looked_seen(module, uses, own, k);
    }
}

/// Rows of words that are the same are so word by word.
proof fn lemma_roots_alike(module: ModuleView, env: Env, other: Env, roots: Seq<ValueId>, n: int)
    requires
        module.wf(),
        forall|i: int| 0 <= i < roots.len() ==> module.has(#[trigger] roots[i]),
        roots_word(module, env, roots) == roots_word(module, other, roots),
        0 <= n < roots.len(),
    ensures
        word_of(module, env, roots[n]) == word_of(module, other, roots[n]),
    decreases roots.len(),
{
    let short = roots.drop_last();
    let last = roots.last();
    assert(module.has(roots[roots.len() - 1]));
    lemma_eval_width(module, env, last.raw as int);
    lemma_eval_width(module, other, last.raw as int);
    let a = roots_word(module, env, roots);
    let b = roots_word(module, other, roots);
    let x = word_of(module, env, last);
    let y = word_of(module, other, last);
    let p = roots_word(module, env, short);
    let q = roots_word(module, other, short);
    assert(a == p + x && b == q + y);
    assert(x.len() == module.ty(last).width && y.len() == module.ty(last).width);
    assert(a.len() == p.len() + x.len() && b.len() == q.len() + y.len());
    assert(a.len() == b.len());
    assert(p.len() == q.len());
    assert(p =~= a.take(p.len() as int));
    assert(q =~= b.take(q.len() as int));
    assert(x =~= a.skip(p.len() as int));
    assert(y =~= b.skip(q.len() as int));
    if n < short.len() {
        assert forall|i: int| 0 <= i < short.len() implies module.has(#[trigger] short[i]) by {
            assert(short[i] == roots[i]);
        }
        lemma_roots_alike(module, env, other, short, n);
        assert(short[n] == roots[n]);
    }
}

/// The class of a state that is listed once.
pub proof fn lemma_class_at(states: Seq<Seq<BitVal>>, classes: Seq<usize>, a: int, count: int)
    requires
        0 <= a < count <= states.len(),
        forall|i: int, j: int|
            0 <= i < j < states.len() ==> known_word(#[trigger] states[i]) != known_word(
                #[trigger] states[j],
            ),
    ensures
        class_of(states, classes, known_word(states[a]), count) == classes[a],
    decreases count,
{
    if a < count - 1 {
        assert(known_word(states[a]) != known_word(states[count - 1]));
        lemma_class_at(states, classes, a, count - 1);
    }
}

/// Different known constants are different words.
proof fn lemma_words_differ(states: Seq<Seq<BitVal>>, width: int)
    requires
        states.no_duplicates(),
        forall|s: int|
            0 <= s < states.len() ==> (#[trigger] states[s]).len() == width
                && crate::word::numbers::all_known(states[s]),
    ensures
        forall|i: int, j: int|
            0 <= i < j < states.len() ==> known_word(#[trigger] states[i]) != known_word(
                #[trigger] states[j],
            ),
{
    assert forall|i: int, j: int| 0 <= i < j < states.len() implies known_word(
        #[trigger] states[i],
    ) != known_word(#[trigger] states[j]) by {
        if known_word(states[i]) == known_word(states[j]) {
            let x = states[i];
            let y = states[j];
            assert forall|k: int| 0 <= k < width implies x[k] == y[k] by {
                assert(known_word(x)[width - 1 - k] == known_word(y)[width - 1 - k]);
                assert(x[k].known() && y[k].known());
            }
            assert(x =~= y);
        }
    }
}

proof fn lemma_same_resets(
    module: ModuleView,
    env: Env,
    other: Env,
    resets: Seq<Reset>,
    held: Seq<bool>,
)
    requires
        forall|i: int|
            0 <= i < resets.len() ==> word_of(module, env, (#[trigger] resets[i]).value) == word_of(
                module,
                other,
                resets[i].value,
            ) && word_of(module, env, resets[i].reset_value) == word_of(
                module,
                other,
                resets[i].reset_value,
            ),
    ensures
        after_resets(module, env, resets, held) == after_resets(module, other, resets, held),
    decreases resets.len(),
{
    if resets.len() > 0 {
        let rest = resets.skip(1);
        assert(word_of(module, env, resets[0].value) == word_of(module, other, resets[0].value));
        assert forall|i: int| 0 <= i < rest.len() implies word_of(
            module,
            env,
            (#[trigger] rest[i]).value,
        ) == word_of(module, other, rest[i].value) && word_of(module, env, rest[i].reset_value)
            == word_of(module, other, rest[i].reset_value) by {
            assert(rest[i] == resets[i + 1]);
        }
        lemma_same_resets(module, env, other, rest, held);
    }
}

/// In the same state everything else is the same, and so is the next one.
proof fn lemma_same_state(
    module: ModuleView,
    own: ValueId,
    state: SignalId,
    register: RegisterView,
    env: Env,
    other: Env,
    trace: spec_fn(int, int) -> nat,
)
    requires
        module.wf(),
        state.raw < module.signals.len(),
        differ_by_state(module, own, state, env, other, trace),
        read_by_none(module, own),
        module.has(own),
        module.op_of(own) == Some(OpView::Register(register)),
        signal_word(module, env, state) == signal_word(module, other, state),
    ensures
        forall|v: int|
            0 <= v < module.values.len() && v != own.raw ==> #[trigger] eval(module, env, v)
                == eval(module, other, v),
        register_next_word(module, env, register, state) == register_next_word(
            module,
            other,
            register,
            state,
        ),
{
    assert forall|i: int| 0 <= i < module.signals[state.raw as int].ty.width implies !(
    #[trigger] changed(env, other, state.raw as int, i)) by {
        assert(signal_word(module, env, state)[i] == (env.signal)(state.raw as int, i));
        assert(signal_word(module, other, state)[i] == (other.signal)(state.raw as int, i));
    }
    assert forall|v: int| 0 <= v < module.values.len() && v != own.raw implies #[trigger] eval(
        module,
        env,
        v,
    ) == eval(module, other, v) by {
        if eval(module, env, v) != eval(module, other, v) {
            let (read, signal, bit) = lemma_difference(module, own, state, env, other, trace, v);
            assert(module.value_ok(read));
            lemma_no_change(module, own, state, env, other, trace, signal, bit);
        }
    }
    assert(module.value_ok(own.raw as int));
    let o = module.kind(own)->Operation_0.raw as int;
    assert(module.operation_ok(o));
    let inputs = op_inputs(OpView::Register(register));
    assert forall|k: int| 0 <= k < inputs.len() implies word_of(
        module,
        env,
        #[trigger] inputs[k],
    ) == word_of(module, other, inputs[k]) by {
        if inputs[k] == own {
            assert(operation_asks(module, o, own));
        }
        assert(inputs[k].raw < own.raw);
    }
    crate::word::module::lemma_reset_inputs(register.resets);
    let head = 2 + (if register.enable is Some {
        1int
    } else {
        0
    });
    assert(inputs[0] == register.d);
    if register.enable is Some {
        assert(inputs[2] == register.enable->0.value);
    }
    assert forall|i: int| 0 <= i < register.resets.len() implies word_of(
        module,
        env,
        (#[trigger] register.resets[i]).value,
    ) == word_of(module, other, register.resets[i].value) && word_of(
        module,
        env,
        register.resets[i].reset_value,
    ) == word_of(module, other, register.resets[i].reset_value) by {
        assert(inputs[head + 2 * i] == register.resets[i].value);
        assert(inputs[head + 2 * i + 1] == register.resets[i].reset_value);
    }
    let data = word_of(module, env, register.d);
    let loaded = match register.enable {
        Some(enable) => if active_control(module, env, enable.value, enable.active_high) {
            data
        } else {
            signal_word(module, env, state)
        },
        None => data,
    };
    lemma_same_resets(module, env, other, register.resets, loaded);
}

/// Reads of which not all is driven give an encoder the same inputs.
proof fn lemma_same_inputs(
    encoder: &WordLogicEncoder,
    start: &WordLogicEncoder,
    module: ModuleView,
    ranges: Seq<Option<u128>>,
    drivers: &SignalDriverIndex,
    own: ValueId,
    state: SignalId,
    env: Env,
    other: Env,
    trace: spec_fn(int, int) -> nat,
    k: int,
)
    requires
        module.wf(),
        drivers.describes(module),
        built(start, encoder, module, ranges, drivers),
        differ_by_state(module, own, state, env, other, trace),
        0 <= k < encoder.external_order@.len(),
    ensures
        (env.signal)(
            encoder.external_order@[k].0.raw as int,
            encoder.external_order@[k].1 as int,
        ) == (other.signal)(
            encoder.external_order@[k].0.raw as int,
            encoder.external_order@[k].1 as int,
        ),
{
    let signal = encoder.external_order@[k].0;
    let bit = encoder.external_order@[k].1 as int;
    assert(open_bit(module, encoder.drivers, signal, bit));
    let v = choose|v: int| #[trigger] open_read(module, encoder.drivers, v, signal, bit);
    assert(module.value_ok(v));
    let reference = module.values[v].kind->Signal_0;
    let i = choose|i: int|
        0 <= i < reference.width && (#[trigger] drivers.driver_at(reference, i)) is None;
    let s = reference.signal.raw as int;
    assert(SignalId { raw: s as u32 } == reference.signal);
    assert(drivers.bits@[s]@[reference.lsb + i] == bit_driver(
        module,
        SignalId { raw: s as u32 },
        reference.lsb + i,
    ));
    assert(bit_driver(module, reference.signal, reference.lsb + i) is None);
    assert(partly_driven(module, v));
    assert(eval(module, env, v) == eval(module, other, v));
    assert(eval(module, env, v)[bit - reference.lsb] == eval(module, other, v)[bit
        - reference.lsb]);
}

/// What two states of one class are the same in.
pub open spec fn indistinct(
    module: ModuleView,
    machine: &DerivedFsm,
    env: Env,
    other: Env,
) -> bool {
    let states = states_view(machine.states@);
    &&& forall|value: ValueId|
        module.has(value) && #[trigger] seen_outside(module, machine.register_result, value)
            ==> word_of(module, env, value) == word_of(module, other, value)
    &&& forall|a: int, b: int|
        0 <= a < states.len() && 0 <= b < states.len() && register_next_word(
            module,
            env,
            machine.register@,
            machine.state_signal,
        ) == known_word(#[trigger] states[a]) && register_next_word(
            module,
            other,
            machine.register@,
            machine.state_signal,
        ) == known_word(#[trigger] states[b]) ==> machine.state_classes@[a]
            == machine.state_classes@[b]
}

/// The classes of a machine are worked out from what is seen of its states.
#[verifier::rlimit(60)]
proof fn lemma_indistinct(
    module: ModuleView,
    uses: Seq<u32>,
    drivers: &SignalDriverIndex,
    observed: Seq<FsmObservationCandidate>,
    dependencies: &FsmDependencyIndex,
    ranges: Seq<Option<u128>>,
    candidate: &FsmAnalysisCandidate,
    machine: &DerivedFsm,
    env: Env,
    other: Env,
    trace: spec_fn(int, int) -> nat,
    i: int,
    j: int,
)
    requires
        module.wf(),
        counts_uses(module, uses),
        drivers.describes(module),
        summarizes(looks(module, uses), observed),
        dependencies.describes(module, drivers),
        candidate.machine.register_result == machine.register_result,
        candidate.machine.state_signal == machine.state_signal,
        analysis_of(module, ranges, drivers, observed, dependencies, candidate, machine),
        machine.state_signal.raw < module.signals.len(),
        machine.state_type.width == module.signals[machine.state_signal.raw as int].ty.width,
        module.has(machine.register_result),
        module.op_of(machine.register_result) == Some(OpView::Register(machine.register@)),
        uses[machine.register_result.raw as int] == 1,
        read_by_none(module, machine.register_result),
        !seen_outside(module, machine.register_result, machine.register_result),
        0 <= i < machine.states@.len(),
        0 <= j < machine.states@.len(),
        machine.state_classes@[i] == machine.state_classes@[j],
        driven(module, env),
        driven(module, other),
        signal_word(module, env, machine.state_signal) == known_word(machine.states@[i]@),
        signal_word(module, other, machine.state_signal) == known_word(machine.states@[j]@),
        differ_by_state(
            module,
            machine.register_result,
            machine.state_signal,
            env,
            other,
            trace,
        ),
    ensures
        indistinct(module, machine, env, other),
{
    let own = machine.register_result;
    let signal = machine.state_signal;
    let states = states_view(machine.states@);
    let classes = machine.state_classes@;
    let all = states_view(candidate.machine.states@);
    let roots = seen_at(observed, dependencies, &candidate.machine);
    let merging = candidate.allow_state_merging && super::dependency::plainly_seen(
        dependencies,
        signal,
        roots,
    );
    assert(states[i] == machine.states@[i]@ && states[j] == machine.states@[j]@);
    assert forall|s: int| 0 <= s < states.len() implies (#[trigger] states[s]).len()
        == machine.state_type.width && crate::word::numbers::all_known(states[s]) by {
        assert(states[s] == machine.states@[s]@);
    }
    lemma_words_differ(states, machine.state_type.width as int);
    if i == j {
        lemma_same_state(module, own, signal, machine.register@, env, other, trace);
        assert forall|value: ValueId|
            module.has(value) && #[trigger] seen_outside(module, own, value) implies word_of(
            module,
            env,
            value,
        ) == word_of(module, other, value) by {
            assert(value != own);
        }
        assert forall|a: int, b: int|
            0 <= a < states.len() && 0 <= b < states.len() && register_next_word(
                module,
                env,
                machine.register@,
                signal,
            ) == known_word(#[trigger] states[a]) && register_next_word(
                module,
                other,
                machine.register@,
                signal,
            ) == known_word(#[trigger] states[b]) implies classes[a] == classes[b] by {
            if a < b {
                assert(known_word(states[a]) != known_word(states[b]));
            } else if b < a {
                assert(known_word(states[b]) != known_word(states[a]));
            }
        }
    } else {
        assert(classes != apart(states.len()));
        assert(classed(
            module,
            ranges,
            drivers,
            machine.register@,
            signal,
            states,
            roots,
            merging,
            classes,
        ));
        let (start, encoder, behavior) = choose|
            start: WordLogicEncoder,
            encoder: WordLogicEncoder,
            behavior: SymbolicBehavior,
        |
            #[trigger] built(&start, &encoder, module, ranges, drivers)
                && #[trigger] behavior.describes(
                &encoder,
                machine.register@,
                signal,
                states,
                roots,
            ) && minimized(
                &encoder,
                1 + behavior_cost(module, machine.register@, signal, states.len()),
                signal,
                Some(&behavior),
                true,
                states,
                classes,
            );
        let nodes = encoder.nodes();
        let observations = lit_rows(behavior.observations@);
        let next = lit_rows(behavior.next_values@);
        assert(settled(nodes, observations, next, states, classes));
        let order = encoder.external_order@;
        let inputs = Inputs {
            value: |k: int| (env.signal)(order[k].0.raw as int, order[k].1 as int),
        };
        assert forall|k: int| 0 <= k < order.len() implies (#[trigger] (inputs.value)(k)) == (
        other.signal)(order[k].0.raw as int, order[k].1 as int) by {
            lemma_same_inputs(
                &encoder,
                &start,
                module,
                ranges,
                drivers,
                own,
                signal,
                env,
                other,
                trace,
                k,
            );
        }
        assert forall|n: int| 0 <= n < known_word(states[i]).len() implies (
        #[trigger] (env.signal)(signal.raw as int, n)) == known_word(states[i])[n] by {
            assert(signal_word(module, env, signal)[n] == known_word(states[i])[n]);
        }
        assert forall|n: int| 0 <= n < known_word(states[j]).len() implies (
        #[trigger] (other.signal)(signal.raw as int, n)) == known_word(states[j])[n] by {
            assert(signal_word(module, other, signal)[n] == known_word(states[j])[n]);
        }
        assert(encoder.admits_state(signal, known_word(states[i]), env, inputs));
        assert(encoder.admits_state(signal, known_word(states[j]), other, inputs));
        merged_states_behave_alike(
            nodes,
            observations,
            next,
            states,
            classes,
            i,
            j,
            inputs,
        );
        assert(observations[i] == behavior.observations@[i]@);
        assert(observations[j] == behavior.observations@[j]@);
        assert(next[i] == behavior.next_values@[i]@);
        assert(next[j] == behavior.next_values@[j]@);
        let shown = roots_of(encoder.m(), roots);
        assert(encoder.stands(
            signal,
            known_word(states[i]),
            behavior.observations@[i]@,
            shown,
        ));
        assert(encoder.stands(
            signal,
            known_word(states[j]),
            behavior.observations@[j]@,
            shown,
        ));
        assert(shown(env) == shown(other));
        assert(roots_word(module, env, roots) == roots_word(module, other, roots));
        super::observation::lemma_looks_has(module, uses, observed);
        lemma_counted_has(
            module,
            observed,
            own,
            dependencies.reach(signal),
        );
        assert forall|value: ValueId|
            module.has(value) && #[trigger] seen_outside(module, own, value) implies word_of(
            module,
            env,
            value,
        ) == word_of(module, other, value) by {
            assert(value != own);
            if dependencies.reaches(signal, value.raw as int, false) {
                let look = lemma_seen_looked(module, uses, own, value);
                let k = lemma_look_counts(looks(module, uses), observed, own, look);
                let n = lemma_counted_at(observed, own, dependencies.reach(signal), k);
                lemma_roots_alike(module, env, other, roots, n);
            } else {
                lemma_unreached(
                    module,
                    drivers,
                    dependencies,
                    own,
                    signal,
                    env,
                    other,
                    trace,
                    value.raw as int,
                );
            }
        }
        let taken = next_of(encoder.m(), machine.register@, signal);
        assert(encoder.stands(
            signal,
            known_word(states[i]),
            behavior.next_values@[i]@,
            taken,
        ));
        assert(encoder.stands(
            signal,
            known_word(states[j]),
            behavior.next_values@[j]@,
            taken,
        ));
        assert(lits_value(nodes, inputs, next[i]) == taken(env));
        assert(lits_value(nodes, inputs, next[j]) == taken(other));
        assert forall|a: int, b: int|
            0 <= a < states.len() && 0 <= b < states.len() && register_next_word(
                module,
                env,
                machine.register@,
                signal,
            ) == known_word(#[trigger] states[a]) && register_next_word(
                module,
                other,
                machine.register@,
                signal,
            ) == known_word(#[trigger] states[b]) implies classes[a] == classes[b] by {
            lemma_class_at(states, classes, a, states.len() as int);
            lemma_class_at(states, classes, b, states.len() as int);
        }
    }
}

proof fn lemma_gathered_grows<T>(row: spec_fn(int) -> Seq<T>, i: int, j: int)
    requires
        0 <= i < j,
    ensures
        gathered(row, i as nat).len() + row(i).len() <= gathered(row, j as nat).len(),
    decreases j,
{
    if i < j - 1 {
        lemma_gathered_grows(row, i, j - 1);
    }
}

/// A register that only one connection uses is not seen outside of its machine but over
/// the signal that the connection drives.
#[verifier::rlimit(40)]
proof fn lemma_own_unseen(module: ModuleView, uses: Seq<u32>, own: ValueId, connect: int)
    requires
        module.wf(),
        counts_uses(module, uses),
        0 <= connect < module.connects.len(),
        module.connects[connect].value == own,
        uses[own.raw as int] == 1,
        read_by_none(module, own),
    ensures
        !seen_outside(module, own, own),
{
    let connects = |i: int| connect_values(module, i);
    let instances = |i: int| instance_values(module, i);
    let reading = |i: int| read_port_values(module, i);
    let writing = |i: int| write_port_values(module, i);
    let a = gathered(connects, module.connects.len());
    let b = gathered(instances, module.instances.len());
    let c = gathered(reading, module.memory_reads.len());
    let all = used_values(module);
    assert(module.connect_ok(module.connects[connect]));
    assert(ValueId { raw: own.raw as int as u32 } == own);
    assert(occurrences(all, own) == 1);
    let first = lemma_gathered_at(connects, module.connects.len(), connect, 0);
    assert(all[first] == own);
    lemma_occurs(all, own, first);
    if seen_outside(module, own, own) {
        if exists|o: int| #[trigger] stored_by(module, own, o, own) {
            let o = choose|o: int| #[trigger] stored_by(module, own, o, own);
            assert(operation_asks(module, o, own));
        } else if clocks(module, own, own) {
            assert(module.value_ok(own.raw as int));
            let o = module.kind(own)->Operation_0.raw as int;
            assert(op_inputs(module.operations[o].kind)[1] == own);
            assert(operation_asks(module, o, own));
        } else if exists|x: int| #[trigger] put_out_by(module, own, x, own) {
            let x = choose|x: int| #[trigger] put_out_by(module, own, x, own);
            assert(connects(x)[1] == own);
            let k = lemma_gathered_at(connects, module.connects.len(), x, 1);
            if x < connect {
                lemma_gathered_grows(connects, x, connect);
            } else {
                lemma_gathered_grows(connects, connect, x);
            }
            assert(all[k] == own);
            assert(k != first);
        } else if exists|i: int, j: int| #[trigger] instance_asks(module, i, j, own) {
            let (i, j) = choose|i: int, j: int| #[trigger] instance_asks(module, i, j, own);
            let k = a.len() + lemma_gathered_at(instances, module.instances.len(), i, j);
            assert(all[k] == own);
        } else if exists|r: int|
            0 <= r < module.memory_reads.len() && read_asks(
                #[trigger] module.memory_reads[r],
                own,
            ) {
            let r = choose|r: int|
                0 <= r < module.memory_reads.len() && read_asks(
                    #[trigger] module.memory_reads[r],
                    own,
                );
            let n = lemma_read_place(module, r, own);
            let k = a.len() + b.len() + lemma_gathered_at(
                reading,
                module.memory_reads.len(),
                r,
                n,
            );
            assert(all[k] == own);
        } else {
            let w = choose|w: int|
                0 <= w < module.memory_writes.len() && write_asks(
                    #[trigger] module.memory_writes[w],
                    own,
                );
            let n = lemma_write_place(module, w, own);
            let k = a.len() + b.len() + c.len() + lemma_gathered_at(
                writing,
                module.memory_writes.len(),
                w,
                n,
            );
            assert(all[k] == own);
        }
    }
}

/// A machine stands behind a connection of its module.
proof fn lemma_machine_connect(
    module: ModuleView,
    uses: Seq<u32>,
    counts: Seq<u32>,
    facts: Seq<Option<Seq<BitVal>>>,
    count: nat,
    k: int,
) -> (c: int)
    requires
        count <= module.connects.len(),
        0 <= k < machine_connects(module, uses, counts, facts, count).len(),
    ensures
        0 <= c < count,
        machine_connects(module, uses, counts, facts, count)[k] == module.connects[c],
        is_machine(module, uses, counts, facts, module.connects[c]),
    decreases count,
{
    let below = machine_connects(module, uses, counts, facts, (count - 1) as nat);
    if k < below.len() {
        lemma_machine_connect(module, uses, counts, facts, (count - 1) as nat, k)
    } else {
        count - 1
    }
}

/// Merging is not seen: where two states of a machine are in one class, everything that is
/// stored elsewhere, that leaves the module, or by which instances and memories go has the same
/// word in both, whatever else the environment is, and the states that follow are in one
/// class again.
pub proof fn merged_states_are_not_told_apart(
    catalog: FsmCatalog,
    module: ModuleView,
    facts: Seq<Option<Seq<BitVal>>>,
    ranges: Seq<Option<u128>>,
    m: int,
    env: Env,
    other: Env,
    trace: spec_fn(int, int) -> nat,
    i: int,
    j: int,
)
    requires
        module.wf(),
        catalog.describes(module, facts, ranges),
        0 <= m < catalog.machines@.len(),
        0 <= i < catalog.machines@[m].states@.len(),
        0 <= j < catalog.machines@[m].states@.len(),
        catalog.machines@[m].state_classes@[i] == catalog.machines@[m].state_classes@[j],
        driven(module, env),
        driven(module, other),
        signal_word(module, env, catalog.machines@[m].state_signal) == known_word(
            catalog.machines@[m].states@[i]@,
        ),
        signal_word(module, other, catalog.machines@[m].state_signal) == known_word(
            catalog.machines@[m].states@[j]@,
        ),
        differ_by_state(
            module,
            catalog.machines@[m].register_result,
            catalog.machines@[m].state_signal,
            env,
            other,
            trace,
        ),
    ensures
        indistinct(module, &catalog.machines@[m], env, other),
{
    let machine = &catalog.machines@[m];
    let (uses, counts, drivers, observed, dependencies) = choose|
        uses: Seq<u32>,
        counts: Seq<u32>,
        drivers: SignalDriverIndex,
        observed: Seq<FsmObservationCandidate>,
        dependencies: FsmDependencyIndex,
    | #[trigger]
        context_of(module, uses, counts, &drivers, observed, &dependencies) && catalogues(
            module,
            facts,
            ranges,
            uses,
            counts,
            &drivers,
            observed,
            &dependencies,
            module.connects.len(),
            catalog.machines@,
        );
    let c = lemma_machine_connect(module, uses, counts, facts, module.connects.len(), m);
    let connect = module.connects[c];
    assert(machine_of(
        module,
        facts,
        ranges,
        &drivers,
        connect,
        observed,
        &dependencies,
        machine,
    ));
    let candidate = choose|candidate: FsmAnalysisCandidate| #[trigger]
        candidate.drawn_from(module, facts, connect) && analysis_of(
            module,
            ranges,
            &drivers,
            observed,
            &dependencies,
            &candidate,
            machine,
        );
    assert(module.connect_ok(connect));
    let own = machine.register_result;
    lemma_read_by_none(module, uses, own, c);
    lemma_own_unseen(module, uses, own, c);
    lemma_indistinct(
        module,
        uses,
        &drivers,
        observed,
        &dependencies,
        ranges,
        &candidate,
        machine,
        env,
        other,
        trace,
        i,
        j,
    );
}

} // verus!
