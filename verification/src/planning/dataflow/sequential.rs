//! Sharing registers and latches that store the same.

use super::canonical::{even_env, map_ok, same_value, sound_map};
use super::optimize::{aliased, identity_map, DataflowChanges};
use super::substitution::{
    lemma_with_inputs, renamed_connects, renamed_instances, renamed_operations, renamed_resets,
    rewrite_connects, rewrite_instances, rewrite_operations, with_inputs,
};
use crate::collections::KeyMap;
use crate::error::{Invariant, SynthError};
use crate::word::module::{KindView, ModuleView, SignalRef, ValueKind, WordModule};
use crate::word::semantics::{word_of, Env};
use crate::word::types::{
    op_inputs, Edge, Enable, LatchView, OpKind, OpView, RegisterView, Reset, ResetKind, ValueId,
};
use vstd::prelude::*;

verus! {

/// A value reads some bits.
pub open spec fn reads(module: ModuleView, value: int, reference: SignalRef) -> bool {
    0 <= value < module.values.len() && module.values[value].kind == KindView::Signal(reference)
}

/// The first read of the bits that a value reads.
pub open spec fn is_first_read(module: ModuleView, value: int, reference: SignalRef) -> bool {
    reads(module, value, reference) && forall|v: int|
        0 <= v < value ==> !(#[trigger] reads(module, v, reference))
}

/// What a value stands for among the sequential operands: reads of the same
/// bits are one.
pub open spec fn operand_id(module: ModuleView, canonical: Seq<ValueId>, value: ValueId) -> ValueId {
    let other = canonical[value.raw as int];
    match module.kind(other) {
        KindView::Signal(reference) => ValueId {
            raw: (choose|v: int| #[trigger] is_first_read(module, v, reference)) as u32,
        },
        _ => other,
    }
}

pub open spec fn operand_ids(module: ModuleView, canonical: Seq<ValueId>) -> spec_fn(ValueId) -> ValueId {
    |value: ValueId| operand_id(module, canonical, value)
}

/// A register or latch by what it stores and when.
#[verifier::ext_equal]
pub struct SequentialKey {
    pub region: u32,
    pub kind: OpView,
}

/// A register or latch without its name.
pub open spec fn nameless(kind: OpView) -> OpView {
    match kind {
        OpView::Register(register) => OpView::Register(RegisterView { name: None, ..register }),
        OpView::Latch(latch) => OpView::Latch(LatchView { name: None, ..latch }),
        _ => kind,
    }
}

/// A connection is the only one of its value.
pub open spec fn is_sole(module: ModuleView, value: ValueId, connect: int) -> bool {
    &&& 0 <= connect < module.connects.len()
    &&& module.connects[connect].value == value
    &&& forall|c: int|
        0 <= c < module.connects.len() && (#[trigger] module.connects[c]).value == value ==> c
            == connect
}

/// A value that is connected once, to a signal that may go.
pub open spec fn is_shareable(module: ModuleView, value: ValueId) -> bool {
    exists|c: int| #[trigger]
        is_sole(module, value, c) && !module.signals[module.connects[c].target.signal.raw as int].preserved
}

/// The key of an operation that may be shared.
pub open spec fn sharing_key(
    module: ModuleView,
    regions: Seq<Option<u32>>,
    canonical: Seq<ValueId>,
    operation: int,
) -> Option<SequentialKey> {
    let kind = module.operations[operation].kind;
    match regions[operation] {
        Some(region) => if is_shareable(module, module.operations[operation].result) && (kind
            is Register || kind is Latch) {
            Some(
                SequentialKey {
                    region,
                    kind: nameless(with_inputs(kind, operand_ids(module, canonical))),
                },
            )
        } else {
            None
        },
        None => None,
    }
}

/// The first operation with a key.
pub open spec fn is_first_with(
    module: ModuleView,
    regions: Seq<Option<u32>>,
    canonical: Seq<ValueId>,
    key: SequentialKey,
    operation: int,
) -> bool {
    &&& 0 <= operation < module.operations.len()
    &&& sharing_key(module, regions, canonical, operation) == Some(key)
    &&& forall|j: int|
        0 <= j < operation ==> #[trigger] sharing_key(module, regions, canonical, j) != Some(key)
}

pub open spec fn first_with(
    module: ModuleView,
    regions: Seq<Option<u32>>,
    canonical: Seq<ValueId>,
    key: SequentialKey,
) -> int {
    choose|operation: int| #[trigger] is_first_with(module, regions, canonical, key, operation)
}

/// The results among the first operations that repeat an earlier one, each with
/// the result of the first of its key.
pub open spec fn shared(
    module: ModuleView,
    regions: Seq<Option<u32>>,
    canonical: Seq<ValueId>,
    count: nat,
) -> Seq<(ValueId, ValueId)>
    decreases count,
{
    if count == 0 {
        seq![]
    } else {
        let below = shared(module, regions, canonical, (count - 1) as nat);
        match sharing_key(module, regions, canonical, count - 1) {
            Some(key) => {
                let first = first_with(module, regions, canonical, key);
                if first < count - 1 {
                    below.push(
                        (
                            module.operations[count - 1].result,
                            module.operations[first].result,
                        ),
                    )
                } else {
                    below
                }
            },
            None => below,
        }
    }
}

/// A key that occurs has a first operation.
proof fn lemma_first(
    module: ModuleView,
    regions: Seq<Option<u32>>,
    canonical: Seq<ValueId>,
    operation: int,
)
    requires
        0 <= operation < module.operations.len(),
        sharing_key(module, regions, canonical, operation) is Some,
    ensures
        ({
            let key = sharing_key(module, regions, canonical, operation)->0;
            let first = first_with(module, regions, canonical, key);
            is_first_with(module, regions, canonical, key, first) && first <= operation
        }),
    decreases operation,
{
    let key = sharing_key(module, regions, canonical, operation)->0;
    if exists|j: int|
        0 <= j < operation && #[trigger] sharing_key(module, regions, canonical, j) == Some(key) {
        let j = choose|j: int|
            0 <= j < operation && #[trigger] sharing_key(module, regions, canonical, j) == Some(
                key,
            );
        lemma_first(module, regions, canonical, j);
    } else {
        assert(is_first_with(module, regions, canonical, key, operation));
        let first = first_with(module, regions, canonical, key);
        assert(is_first_with(module, regions, canonical, key, first));
        if first > operation {
            assert(sharing_key(module, regions, canonical, operation) != Some(key));
        }
    }
}

pub open spec fn flag(set: bool) -> u64 {
    if set {
        1
    } else {
        0
    }
}

/// The numbers of one reset.
pub open spec fn reset_row(reset: Reset) -> Seq<u64> {
    seq![
        flag(reset.kind is Async),
        reset.value.raw as u64,
        flag(reset.active_high),
        reset.reset_value.raw as u64,
    ]
}

pub open spec fn resets_row(resets: Seq<Reset>) -> Seq<u64>
    decreases resets.len(),
{
    if resets.len() == 0 {
        seq![]
    } else {
        resets_row(resets.drop_last()) + reset_row(resets.last())
    }
}

pub open spec fn enable_number(enable: Option<Enable>) -> u64 {
    match enable {
        Some(enable) => enable.value.raw as u64,
        None => 0,
    }
}

pub open spec fn enable_flag(enable: Option<Enable>) -> u64 {
    match enable {
        Some(enable) => flag(enable.active_high),
        None => 2,
    }
}

/// The fixed numbers of a key.
pub open spec fn head_row(key: SequentialKey) -> Seq<u64> {
    match key.kind {
        OpView::Register(register) => seq![
            key.region as u64,
            flag(register.edge is Neg),
            register.d.raw as u64,
            register.clock.raw as u64,
            enable_number(register.enable),
            enable_flag(register.enable),
        ],
        OpView::Latch(latch) => seq![
            key.region as u64,
            2,
            latch.d.raw as u64,
            0,
            latch.enable.value.raw as u64,
            flag(latch.enable.active_high),
        ],
        _ => seq![0, 3, 0, 0, 0, 0],
    }
}

pub open spec fn key_resets(key: SequentialKey) -> Seq<Reset> {
    match key.kind {
        OpView::Register(register) => register.resets,
        OpView::Latch(latch) => latch.resets,
        _ => seq![],
    }
}

/// A key as a row of numbers.
pub open spec fn sequential_row(key: SequentialKey) -> Seq<u64> {
    head_row(key) + resets_row(key_resets(key))
}

proof fn lemma_resets_len(resets: Seq<Reset>)
    ensures
        resets_row(resets).len() == 4 * resets.len(),
    decreases resets.len(),
{
    if resets.len() > 0 {
        lemma_resets_len(resets.drop_last());
    }
}

proof fn lemma_resets_row(left: Seq<Reset>, right: Seq<Reset>)
    requires
        resets_row(left) == resets_row(right),
    ensures
        left == right,
    decreases left.len(),
{
    lemma_resets_len(left);
    lemma_resets_len(right);
    if left.len() > 0 {
        lemma_resets_len(left.drop_last());
        lemma_resets_len(right.drop_last());
        let n = 4 * (left.len() - 1);
        let row = resets_row(left);
        assert(row.take(n) =~= resets_row(left.drop_last()));
        assert(resets_row(right).take(n) =~= resets_row(right.drop_last()));
        lemma_resets_row(left.drop_last(), right.drop_last());
        let a = left.last();
        let b = right.last();
        assert(row.skip(n) =~= reset_row(a));
        assert(resets_row(right).skip(n) =~= reset_row(b));
        assert(reset_row(a)[0] == reset_row(b)[0]);
        assert(reset_row(a)[1] == reset_row(b)[1]);
        assert(reset_row(a)[2] == reset_row(b)[2]);
        assert(reset_row(a)[3] == reset_row(b)[3]);
        assert(a == b);
        assert(left =~= left.drop_last().push(a));
        assert(right =~= right.drop_last().push(b));
    } else {
        assert(left =~= right);
    }
}

/// A nameless register or latch.
pub open spec fn is_stored(kind: OpView) -> bool {
    ||| kind matches OpView::Register(register) && register.name is None
    ||| kind matches OpView::Latch(latch) && latch.name is None
}

/// Different keys have different rows.
pub proof fn sequential_rows_are_faithful(left: SequentialKey, right: SequentialKey)
    requires
        is_stored(left.kind),
        is_stored(right.kind),
        sequential_row(left) == sequential_row(right),
    ensures
        left == right,
{
    assert(sequential_row(left).take(6) =~= head_row(left));
    assert(sequential_row(right).take(6) =~= head_row(right));
    assert(sequential_row(left).skip(6) =~= resets_row(key_resets(left)));
    assert(sequential_row(right).skip(6) =~= resets_row(key_resets(right)));
    lemma_resets_row(key_resets(left), key_resets(right));
    lemma_heads(left, right);
}

proof fn lemma_heads(left: SequentialKey, right: SequentialKey)
    requires
        is_stored(left.kind),
        is_stored(right.kind),
        head_row(left) == head_row(right),
        key_resets(left) == key_resets(right),
    ensures
        left == right,
{
    let a = head_row(left);
    let b = head_row(right);
    assert(a[0] == b[0] && a[1] == b[1] && a[2] == b[2]);
    assert(a[3] == b[3] && a[4] == b[4] && a[5] == b[5]);
    match (left.kind, right.kind) {
        (OpView::Register(l), OpView::Register(r)) => {
            assert(l.enable == r.enable) by {
                if l.enable is Some && r.enable is Some {
                    assert(l.enable->0.value.raw == r.enable->0.value.raw);
                    assert(l.enable->0.value == r.enable->0.value);
                    assert(l.enable->0.active_high == r.enable->0.active_high);
                }
            }
            assert(l.edge == r.edge);
            assert(l.d.raw == r.d.raw);
            assert(l.clock.raw == r.clock.raw);
            assert(l.d == r.d && l.clock == r.clock);
            assert(l == r);
        },
        (OpView::Latch(l), OpView::Latch(r)) => {
            assert(l.enable.value.raw == r.enable.value.raw);
            assert(l.enable == r.enable);
            assert(l.d.raw == r.d.raw);
            assert(l == r);
        },
        _ => {},
    }
}

/// Operands with one identity have one word.
proof fn lemma_operand_word(module: ModuleView, canonical: Seq<ValueId>, env: Env, value: ValueId)
    requires
        module.wf(),
        module.has(value),
        sound_map(module, canonical),
        even_env(module, env),
    ensures
        word_of(module, env, operand_id(module, canonical, value)) == word_of(module, env, value),
{
    let other = canonical[value.raw as int];
    assert(same_value(module, value, other));
    if let KindView::Signal(reference) = module.kind(other) {
        lemma_first_read(module, other.raw as int, reference);
        let first = choose|v: int| #[trigger] is_first_read(module, v, reference);
        assert(is_first_read(module, first, reference));
        assert(word_of(module, env, ValueId { raw: first as u32 }) =~= word_of(
            module,
            env,
            other,
        ));
    }
}

proof fn lemma_first_read(module: ModuleView, value: int, reference: SignalRef)
    requires
        reads(module, value, reference),
    ensures
        exists|v: int| #[trigger] is_first_read(module, v, reference) && v <= value,
    decreases value,
{
    if exists|v: int| 0 <= v < value && #[trigger] reads(module, v, reference) {
        let v = choose|v: int| 0 <= v < value && #[trigger] reads(module, v, reference);
        lemma_first_read(module, v, reference);
    } else {
        assert(is_first_read(module, value, reference));
    }
}

proof fn lemma_first_read_unique(module: ModuleView, left: int, right: int, reference: SignalRef)
    requires
        is_first_read(module, left, reference),
        is_first_read(module, right, reference),
    ensures
        left == right,
{
    if left < right {
        assert(!reads(module, left, reference));
    } else if right < left {
        assert(!reads(module, right, reference));
    }
}

/// Registers and latches that share a key store the same: their operands have
/// the same words, and they agree on everything but their names.
pub proof fn shared_operands_agree(
    module: ModuleView,
    regions: Seq<Option<u32>>,
    canonical: Seq<ValueId>,
    env: Env,
    left: int,
    right: int,
    k: int,
)
    requires
        module.wf(),
        sound_map(module, canonical),
        even_env(module, env),
        0 <= left < module.operations.len(),
        0 <= right < module.operations.len(),
        sharing_key(module, regions, canonical, left) is Some,
        sharing_key(module, regions, canonical, left) == sharing_key(
            module,
            regions,
            canonical,
            right,
        ),
        0 <= k < op_inputs(module.operations[left].kind).len(),
    ensures
        op_inputs(module.operations[right].kind).len() == op_inputs(
            module.operations[left].kind,
        ).len(),
        word_of(module, env, op_inputs(module.operations[left].kind)[k]) == word_of(
            module,
            env,
            op_inputs(module.operations[right].kind)[k],
        ),
{
    let f = operand_ids(module, canonical);
    let l = module.operations[left].kind;
    let r = module.operations[right].kind;
    lemma_with_inputs(l, f);
    lemma_with_inputs(r, f);
    assert(op_inputs(nameless(with_inputs(l, f))) =~= op_inputs(with_inputs(l, f)));
    assert(op_inputs(nameless(with_inputs(r, f))) =~= op_inputs(with_inputs(r, f)));
    assert(op_inputs(l).map_values(f) == op_inputs(r).map_values(f));
    assert(op_inputs(l).map_values(f)[k] == op_inputs(r).map_values(f)[k]);
    assert(module.operation_ok(left));
    assert(module.operation_ok(right));
    let a = op_inputs(l)[k];
    let b = op_inputs(r)[k];
    lemma_operand_word(module, canonical, env, a);
    lemma_operand_word(module, canonical, env, b);
}


pub open spec fn reference_row(reference: SignalRef) -> Seq<u64> {
    seq![reference.signal.raw as u64, reference.lsb as u64, reference.width as u64]
}

proof fn lemma_reference_row(left: SignalRef, right: SignalRef)
    requires
        reference_row(left) == reference_row(right),
    ensures
        left == right,
{
    let a = reference_row(left);
    let b = reference_row(right);
    assert(a[0] == b[0] && a[1] == b[1] && a[2] == b[2]);
    assert(left.signal.raw == right.signal.raw);
}

fn row_of_reference(reference: SignalRef) -> (row: Vec<u64>)
    ensures
        row@ == reference_row(reference),
{
    let mut row: Vec<u64> = Vec::new();
    row.push(reference.signal.raw as u64);
    row.push(reference.lsb as u64);
    row.push(reference.width as u64);
    assert(row@ =~= reference_row(reference));
    row
}

/// A table of the first reads among the first values.
spec fn lists_reads(module: ModuleView, table: Map<Seq<u64>, u64>, count: int) -> bool {
    forall|reference: SignalRef|
        if exists|v: int| 0 <= v < count && #[trigger] reads(module, v, reference) {
            table.dom().contains(#[trigger] reference_row(reference)) && is_first_read(
                module,
                table[reference_row(reference)] as int,
                reference,
            )
        } else {
            !table.dom().contains(reference_row(reference))
        }
}

/// Lists the first read of every run of bits that is read.
fn list_reads(module: &WordModule) -> (table: KeyMap)
    requires
        module@.wf(),
    ensures
        lists_reads(module@, table@, module@.values.len() as int),
{
    let ghost view = module@;
    let mut table = KeyMap::new();
    let mut v: usize = 0;
    while v < module.values.len()
        invariant
            view == module@,
            v <= view.values.len(),
            lists_reads(view, table@, v as int),
        decreases module.values.len() - v,
    {
        let ghost before = table@;
        let stored = &module.values[v];
        assert(stored@ == view.values[v as int]);
        if let ValueKind::Signal(reference) = &stored.kind {
            let reference = *reference;
            assert(reads(view, v as int, reference));
            let row = row_of_reference(reference);
            if table.get(&row).is_none() {
                assert(is_first_read(view, v as int, reference));
                table.insert(row, v as u64);
            }
        }
        proof {
            assert forall|reference: SignalRef|
                if exists|w: int| 0 <= w < v + 1 && #[trigger] reads(view, w, reference) {
                    table@.dom().contains(#[trigger] reference_row(reference)) && is_first_read(
                        view,
                        table@[reference_row(reference)] as int,
                        reference,
                    )
                } else {
                    !table@.dom().contains(reference_row(reference))
                } by {
                let row = reference_row(reference);
                let now = reads(view, v as int, reference);
                let seen = exists|w: int| 0 <= w < v && #[trigger] reads(view, w, reference);
                if exists|w: int| 0 <= w < v + 1 && #[trigger] reads(view, w, reference) {
                    let w = choose|w: int| 0 <= w < v + 1 && #[trigger] reads(view, w, reference);
                    if w < v {
                        assert(seen);
                    }
                    assert(seen || now);
                }
                if table@ != before {
                    let other = view.values[v as int].kind->Signal_0;
                    if reference_row(other) == row {
                        lemma_reference_row(other, reference);
                    }
                }
                if now {
                    assert(0 <= v < v + 1 && reads(view, v as int, reference));
                }
                if seen {
                    let w = choose|w: int| 0 <= w < v && #[trigger] reads(view, w, reference);
                    assert(0 <= w < v + 1 && reads(view, w, reference));
                }
            }
        }
        v += 1;
    }
    table
}

/// The identity of an operand.
fn find_operand(
    module: &WordModule,
    canonical: &Vec<ValueId>,
    table: &KeyMap,
    value: ValueId,
) -> (operand: ValueId)
    requires
        module@.wf(),
        map_ok(module@, canonical@),
        lists_reads(module@, table@, module@.values.len() as int),
        module@.has(value),
    ensures
        operand == operand_id(module@, canonical@, value),
{
    let other = canonical[value.raw as usize];
    assert(module@.has(canonical@[value.raw as int]));
    let stored = &module.values[other.raw as usize];
    assert(stored@ == module@.values[other.raw as int]);
    match &stored.kind {
        ValueKind::Signal(reference) => {
            let reference = *reference;
            let row = row_of_reference(reference);
            assert(reads(module@, other.raw as int, reference));
            assert(table@.dom().contains(reference_row(reference)));
            match table.get(&row) {
                Some(first) => {
                    proof {
                        let held = choose|v: int| #[trigger] is_first_read(module@, v, reference);
                        assert(is_first_read(module@, first as int, reference));
                        lemma_first_read_unique(module@, first as int, held, reference);
                    }
                    ValueId { raw: first as u32 }
                },
                None => other,
            }
        },
        _ => other,
    }
}

/// Which values are connected once, and where.
struct Targets {
    first: Vec<Option<usize>>,
    repeated: Vec<bool>,
}

spec fn counts_targets(module: ModuleView, targets: Targets, count: int) -> bool {
    &&& targets.first@.len() == module.values.len()
    &&& targets.repeated@.len() == module.values.len()
    &&& forall|v: ValueId|
        module.has(v) ==> target_counted(module, targets, #[trigger] targets.first@[v.raw as int], v, count)
}

spec fn target_counted(
    module: ModuleView,
    targets: Targets,
    first: Option<usize>,
    value: ValueId,
    count: int,
) -> bool {
    match first {
        None => forall|c: int|
            0 <= c < count ==> (#[trigger] module.connects[c]).value != value,
        Some(place) => {
            &&& place < count
            &&& module.connects[place as int].value == value
            &&& !targets.repeated@[value.raw as int] ==> forall|c: int|
                0 <= c < count && (#[trigger] module.connects[c]).value == value ==> c == place
            &&& targets.repeated@[value.raw as int] ==> exists|c: int|
                0 <= c < count && c != place && (#[trigger] module.connects[c]).value == value
        },
    }
}

fn count_targets(module: &WordModule) -> (targets: Targets)
    requires
        module@.wf(),
    ensures
        counts_targets(module@, targets, module@.connects.len() as int),
{
    let ghost view = module@;
    let mut first: Vec<Option<usize>> = Vec::new();
    first.resize(module.values.len(), None);
    let mut repeated: Vec<bool> = Vec::new();
    repeated.resize(module.values.len(), false);
    let mut targets = Targets { first, repeated };
    let mut c: usize = 0;
    while c < module.connects.len()
        invariant
            view == module@,
            view.wf(),
            c <= view.connects.len(),
            counts_targets(view, targets, c as int),
        decreases module.connects.len() - c,
    {
        let ghost before = targets;
        let value = module.connects[c].value;
        assert(view.connect_ok(view.connects[c as int]));
        let place: usize = value.raw as usize;
        assert(target_counted(view, before, before.first@[value.raw as int], value, c as int));
        if targets.first[place].is_none() {
            targets.first.set(place, Some(c));
            targets.repeated.set(place, false);
        } else {
            targets.repeated.set(place, true);
        }
        proof {
            assert forall|v: ValueId| view.has(v) implies target_counted(
                view,
                targets,
                #[trigger] targets.first@[v.raw as int],
                v,
                c + 1,
            ) by {
                assert(target_counted(view, before, before.first@[v.raw as int], v, c as int));
                if v == value {
                    if before.first@[v.raw as int] is Some {
                        assert(view.connects[c as int].value == v);
                    }
                } else {
                    assert(v.raw != value.raw);
                    if before.first@[v.raw as int] is Some && before.repeated@[v.raw as int] {
                        let first_place = before.first@[v.raw as int]->0;
                        let other = choose|d: int|
                            0 <= d < c && d != first_place && (
                            #[trigger] view.connects[d]).value == v;
                        assert(0 <= other < c + 1 && view.connects[other].value == v);
                    }
                }
            }
        }
        c += 1;
    }
    targets
}

/// Whether a value is connected once, to a signal that may go.
fn find_shareable(module: &WordModule, targets: &Targets, value: ValueId) -> (shareable: bool)
    requires
        module@.wf(),
        module@.has(value),
        counts_targets(module@, *targets, module@.connects.len() as int),
    ensures
        shareable == is_shareable(module@, value),
{
    let place: usize = value.raw as usize;
    assert(target_counted(
        module@,
        *targets,
        targets.first@[value.raw as int],
        value,
        module@.connects.len() as int,
    ));
    match targets.first[place] {
        None => {
            assert(!is_shareable(module@, value));
            false
        },
        Some(connect) => {
            if targets.repeated[place] {
                proof {
                    let other = choose|c: int|
                        0 <= c < module@.connects.len() && c != connect && (
                        #[trigger] module@.connects[c]).value == value;
                    assert forall|c: int| !(#[trigger] is_sole(module@, value, c)) by {
                        assert(module@.connects[other].value == value);
                        assert(module@.connects[connect as int].value == value);
                    }
                }
                return false;
            }
            assert(is_sole(module@, value, connect as int));
            assert(module@.connect_ok(module@.connects[connect as int]));
            let signal: usize = module.connects[connect].target.signal.raw as usize;
            proof {
                assert forall|c: int| #[trigger] is_sole(module@, value, c) implies c
                    == connect by {
                    assert(module@.connects[c].value == value);
                }
            }
            !module.signals[signal].preserved
        },
    }
}

fn flag_of(set: bool) -> (number: u64)
    ensures
        number == flag(set),
{
    if set {
        1
    } else {
        0
    }
}

fn push_resets(
    row: &mut Vec<u64>,
    resets: &Vec<Reset>,
    module: &WordModule,
    canonical: &Vec<ValueId>,
    table: &KeyMap,
)
    requires
        module@.wf(),
        map_ok(module@, canonical@),
        lists_reads(module@, table@, module@.values.len() as int),
        forall|i: int|
            0 <= i < resets@.len() ==> module@.has((#[trigger] resets@[i]).value) && module@.has(
                resets@[i].reset_value,
            ),
    ensures
        final(row)@ == old(row)@ + resets_row(
            renamed_resets(resets@, operand_ids(module@, canonical@)),
        ),
{
    let ghost start = row@;
    let ghost renamed = renamed_resets(resets@, operand_ids(module@, canonical@));
    let mut i: usize = 0;
    assert(renamed.take(0).len() == 0);
    assert(row@ =~= start + resets_row(renamed.take(0)));
    while i < resets.len()
        invariant
            module@.wf(),
            map_ok(module@, canonical@),
            lists_reads(module@, table@, module@.values.len() as int),
            forall|i: int|
                0 <= i < resets@.len() ==> module@.has((#[trigger] resets@[i]).value)
                    && module@.has(resets@[i].reset_value),
            renamed == renamed_resets(resets@, operand_ids(module@, canonical@)),
            i <= resets@.len(),
            row@ == start + resets_row(renamed.take(i as int)),
        decreases resets.len() - i,
    {
        let reset = resets[i];
        assert(module@.has(resets@[i as int].value));
        let kind: u64 = match reset.kind {
            ResetKind::Async => 1,
            ResetKind::Sync => 0,
        };
        let ghost before = row@;
        row.push(kind);
        row.push(find_operand(module, canonical, table, reset.value).raw as u64);
        row.push(flag_of(reset.active_high));
        row.push(find_operand(module, canonical, table, reset.reset_value).raw as u64);
        proof {
            assert(renamed.take(i + 1).drop_last() =~= renamed.take(i as int));
            assert(renamed.take(i + 1).last() == renamed[i as int]);
            assert(row@ =~= before + reset_row(renamed[i as int]));
            assert(row@ =~= start + resets_row(renamed.take(i + 1)));
        }
        i += 1;
    }
    assert(renamed.take(i as int) =~= renamed);
}

/// The row of an operation that may be shared.
#[verifier::rlimit(40)]
fn find_row(
    module: &WordModule,
    regions: &Vec<Option<u32>>,
    canonical: &Vec<ValueId>,
    table: &KeyMap,
    targets: &Targets,
    operation: usize,
) -> (row: Option<Vec<u64>>)
    requires
        module@.wf(),
        map_ok(module@, canonical@),
        regions@.len() == module@.operations.len(),
        lists_reads(module@, table@, module@.values.len() as int),
        counts_targets(module@, *targets, module@.connects.len() as int),
        operation < module@.operations.len(),
    ensures
        match row {
            Some(numbers) => sharing_key(module@, regions@, canonical@, operation as int) is Some
                && numbers@ == sequential_row(
                sharing_key(module@, regions@, canonical@, operation as int)->0,
            ),
            None => sharing_key(module@, regions@, canonical@, operation as int) is None,
        },
{
    let ghost f = operand_ids(module@, canonical@);
    let region = match regions[operation] {
        Some(region) => region,
        None => return None,
    };
    let stored = &module.operations[operation];
    assert(stored@ == module@.operations[operation as int]);
    assert(module@.operation_ok(operation as int));
    if !find_shareable(module, targets, stored.result) {
        return None;
    }
    let ghost inputs = op_inputs(stored.kind@);
    assert(forall|i: int| 0 <= i < inputs.len() ==> module@.has(#[trigger] inputs[i]));
    match &stored.kind {
        OpKind::Register(register) => {
            let ghost head = seq![register.d, register.clock]
                + crate::word::types::enable_inputs(register.enable);
            assert(inputs[0] == register.d && inputs[1] == register.clock);
            proof {
                if register.enable is Some {
                    assert(inputs[2] == register.enable->0.value);
                }
                crate::word::module::lemma_reset_inputs(register.resets@);
                assert forall|i: int| 0 <= i < register.resets@.len() implies module@.has(
                    (#[trigger] register.resets@[i]).value,
                ) && module@.has(register.resets@[i].reset_value) by {
                    assert(inputs[head.len() + 2 * i] == register.resets@[i].value);
                    assert(inputs[head.len() + 2 * i + 1] == register.resets@[i].reset_value);
                }
            }
            let mut row: Vec<u64> = Vec::new();
            row.push(region as u64);
            let edge: u64 = match register.edge {
                Edge::Neg => 1,
                Edge::Pos => 0,
            };
            row.push(edge);
            row.push(find_operand(module, canonical, table, register.d).raw as u64);
            row.push(find_operand(module, canonical, table, register.clock).raw as u64);
            match register.enable {
                Some(enable) => {
                    row.push(find_operand(module, canonical, table, enable.value).raw as u64);
                    row.push(flag_of(enable.active_high));
                },
                None => {
                    row.push(0);
                    row.push(2);
                },
            }
            let ghost key = sharing_key(module@, regions@, canonical@, operation as int)->0;
            assert(row@ =~= head_row(key));
            push_resets(&mut row, &register.resets, module, canonical, table);
            Some(row)
        },
        OpKind::Latch(latch) => {
            assert(inputs[0] == latch.d && inputs[1] == latch.enable.value);
            proof {
                crate::word::module::lemma_reset_inputs(latch.resets@);
                assert forall|i: int| 0 <= i < latch.resets@.len() implies module@.has(
                    (#[trigger] latch.resets@[i]).value,
                ) && module@.has(latch.resets@[i].reset_value) by {
                    assert(inputs[2 + 2 * i] == latch.resets@[i].value);
                    assert(inputs[2 + 2 * i + 1] == latch.resets@[i].reset_value);
                }
            }
            let mut row: Vec<u64> = Vec::new();
            row.push(region as u64);
            row.push(2);
            row.push(find_operand(module, canonical, table, latch.d).raw as u64);
            row.push(0);
            row.push(find_operand(module, canonical, table, latch.enable.value).raw as u64);
            row.push(flag_of(latch.enable.active_high));
            let ghost key = sharing_key(module@, regions@, canonical@, operation as int)->0;
            assert(row@ =~= head_row(key));
            push_resets(&mut row, &latch.resets, module, canonical, table);
            Some(row)
        },
        _ => None,
    }
}


/// A table of the keys among the first operations.
spec fn lists_keys(
    module: ModuleView,
    regions: Seq<Option<u32>>,
    canonical: Seq<ValueId>,
    table: Map<Seq<u64>, u64>,
    count: int,
) -> bool {
    forall|key: SequentialKey|
        is_stored(key.kind) ==> if occurs(module, regions, canonical, key, count) {
            table.dom().contains(#[trigger] sequential_row(key)) && table[sequential_row(key)]
                == module.operations[first_with(module, regions, canonical, key)].result.raw
        } else {
            !table.dom().contains(sequential_row(key))
        }
}

spec fn occurs(
    module: ModuleView,
    regions: Seq<Option<u32>>,
    canonical: Seq<ValueId>,
    key: SequentialKey,
    count: int,
) -> bool {
    exists|j: int|
        0 <= j < count && #[trigger] sharing_key(module, regions, canonical, j) == Some(key)
}

/// The registers and latches that repeat an earlier one.
#[verifier::rlimit(40)]
fn find_shared(module: &WordModule, regions: &Vec<Option<u32>>, canonical: &Vec<ValueId>) -> (aliases:
    Vec<(ValueId, ValueId)>)
    requires
        module@.wf(),
        map_ok(module@, canonical@),
        regions@.len() == module@.operations.len(),
    ensures
        aliases@ == shared(module@, regions@, canonical@, module@.operations.len()),
        forall|i: int|
            0 <= i < aliases@.len() ==> module@.has((#[trigger] aliases@[i]).0) && module@.has(
                aliases@[i].1,
            ),
{
    let ghost view = module@;
    let reads_table = list_reads(module);
    let targets = count_targets(module);
    let mut table = KeyMap::new();
    let mut aliases: Vec<(ValueId, ValueId)> = Vec::new();
    let mut i: usize = 0;
    while i < module.operations.len()
        invariant
            view == module@,
            view.wf(),
            map_ok(view, canonical@),
            regions@.len() == view.operations.len(),
            lists_reads(view, reads_table@, view.values.len() as int),
            counts_targets(view, targets, view.connects.len() as int),
            i <= view.operations.len(),
            lists_keys(view, regions@, canonical@, table@, i as int),
            aliases@ == shared(view, regions@, canonical@, i as nat),
            forall|k: int|
                0 <= k < aliases@.len() ==> view.has((#[trigger] aliases@[k]).0) && view.has(
                    aliases@[k].1,
                ),
        decreases module.operations.len() - i,
    {
        let ghost before = table@;
        let ghost found = sharing_key(view, regions@, canonical@, i as int);
        let result = module.operations[i].result;
        assert(view.operations[i as int] == module.operations@[i as int]@);
        assert(view.operation_ok(i as int));
        if let Some(row) = find_row(module, regions, canonical, &reads_table, &targets, i) {
            let ghost key = found->0;
            let ghost first = first_with(view, regions@, canonical@, key);
            proof {
                lemma_first(view, regions@, canonical@, i as int);
                assert(is_stored(key.kind));
                assert(view.operation_ok(first));
            }
            match table.get(&row) {
                Some(representative) => {
                    assert(occurs(view, regions@, canonical@, key, i as int));
                    proof {
                        let j = choose|j: int|
                            0 <= j < i && #[trigger] sharing_key(view, regions@, canonical@, j)
                                == Some(key);
                        lemma_first(view, regions@, canonical@, j);
                        assert(first < i);
                        assert(representative == view.operations[first].result.raw);
                        assert(view.operations[first].result == (ValueId {
                            raw: representative as u32,
                        }));
                    }
                    aliases.push((result, ValueId { raw: representative as u32 }));
                },
                None => {
                    proof {
                        assert(!occurs(view, regions@, canonical@, key, i as int));
                        assert(sharing_key(view, regions@, canonical@, first) == Some(key));
                        assert(first == i);
                    }
                    table.insert(row, result.raw as u64);
                },
            }
        }
        proof {
            assert forall|key: SequentialKey| is_stored(key.kind) implies if occurs(
                view,
                regions@,
                canonical@,
                key,
                i + 1,
            ) {
                table@.dom().contains(#[trigger] sequential_row(key))
                    && table@[sequential_row(key)] == view.operations[first_with(
                    view,
                    regions@,
                    canonical@,
                    key,
                )].result.raw
            } else {
                !table@.dom().contains(sequential_row(key))
            } by {
                let seen = occurs(view, regions@, canonical@, key, i as int);
                let now = found == Some(key);
                if occurs(view, regions@, canonical@, key, i + 1) {
                    let j = choose|j: int|
                        0 <= j < i + 1 && #[trigger] sharing_key(view, regions@, canonical@, j)
                            == Some(key);
                    if j < i {
                        assert(seen);
                    }
                    assert(seen || now);
                }
                if seen {
                    let j = choose|j: int|
                        0 <= j < i && #[trigger] sharing_key(view, regions@, canonical@, j)
                            == Some(key);
                    assert(0 <= j < i + 1 && sharing_key(view, regions@, canonical@, j) == Some(
                        key,
                    ));
                }
                if now {
                    assert(0 <= i < i + 1 && sharing_key(view, regions@, canonical@, i as int)
                        == Some(key));
                }
                if found is Some && sequential_row(found->0) == sequential_row(key) {
                    sequential_rows_are_faithful(found->0, key);
                }
            }
        }
        i += 1;
    }
    aliases
}

/// Aliases keep a map inside a module.
proof fn lemma_aliased(module: ModuleView, map: Seq<ValueId>, aliases: Seq<(ValueId, ValueId)>)
    requires
        map_ok(module, map),
        forall|i: int|
            0 <= i < aliases.len() ==> module.has((#[trigger] aliases[i]).0) && module.has(
                aliases[i].1,
            ),
    ensures
        map_ok(module, aliased(map, aliases)),
    decreases aliases.len(),
{
    if aliases.len() > 0 {
        assert forall|i: int| 0 <= i < aliases.drop_last().len() implies module.has(
            (#[trigger] aliases.drop_last()[i]).0,
        ) && module.has(aliases.drop_last()[i].1) by {
            assert(aliases.drop_last()[i] == aliases[i]);
        }
        lemma_aliased(module, map, aliases.drop_last());
        assert(module.has(aliases[aliases.len() - 1].0));
        let below = aliased(map, aliases.drop_last());
        let all = aliased(map, aliases);
        assert forall|v: int| 0 <= v < all.len() implies module.has(#[trigger] all[v]) by {
            if v != aliases.last().0.raw {
                assert(all[v] == below[v]);
            }
        }
    }
}

/// No connection goes.
pub open spec fn none_dropped(count: nat) -> Seq<bool> {
    Seq::new(count, |i: int| false)
}

/// A module in which every shared register or latch is used through the first
/// of its kind.
pub open spec fn with_shared(
    module: ModuleView,
    regions: Seq<Option<u32>>,
    canonical: Seq<ValueId>,
) -> ModuleView {
    let aliases = shared(module, regions, canonical, module.operations.len());
    let map = aliased(identity_map(module.values.len()), aliases);
    if aliases.len() == 0 {
        module
    } else {
        ModuleView {
            operations: renamed_operations(module, map),
            connects: renamed_connects(module.connects, none_dropped(module.connects.len()), map),
            instances: renamed_instances(module, map),
            ..module
        }
    }
}

/// Uses registers and latches that store the same through the first of them,
/// region by region.
pub fn share_equivalent_sequential_values_by(
    module: &mut WordModule,
    regions: &Vec<Option<u32>>,
    canonical: &Vec<ValueId>,
) -> (result: Result<DataflowChanges, SynthError>)
    requires
        old(module)@.wf(),
        map_ok(old(module)@, canonical@),
        regions@.len() == old(module)@.operations.len(),
    ensures
        final(module)@.wf(),
        final(module)@ == with_shared(old(module)@, regions@, canonical@),
        result matches Ok(changes) && {
            let aliases = shared(old(module)@, regions@, canonical@, old(module)@.operations.len());
            &&& changes.representatives@ == aliased(
                identity_map(old(module)@.values.len()),
                aliases,
            )
            &&& changes.changed == (aliases.len() > 0)
        },
{
    let ghost start = module@;
    let aliases = find_shared(module, regions, canonical);
    let count: usize = module.values.len();
    if aliases.len() == 0 {
        assert(aliases@ =~= seq![]);
        return Ok(DataflowChanges::identity(count));
    }
    let changes = match DataflowChanges::from_aliases(count, &aliases) {
        Ok(changes) => changes,
        Err(error) => {
            proof {
                assert forall|i: int| 0 <= i < aliases@.len() implies (
                #[trigger] aliases@[i]).0.raw < count by {
                    assert(start.has(aliases@[i].0));
                }
            }
            return Err(error);
        },
    };
    proof {
        lemma_aliased(start, identity_map(start.values.len()), aliases@);
    }
    let mut kept: Vec<bool> = Vec::new();
    kept.resize(module.connects.len(), false);
    assert(kept@ =~= none_dropped(start.connects.len()));
    rewrite_operations(module, &changes.representatives);
    assert(map_ok(module@, changes.representatives@));
    rewrite_instances(module, &changes.representatives);
    assert(map_ok(module@, changes.representatives@));
    rewrite_connects(module, &kept, &changes.representatives);
    Ok(changes)
}

/// Shares registers and latches of values that stand for themselves.
pub fn share_equivalent_sequential_values_in_regions(
    module: &mut WordModule,
    regions: &Vec<Option<u32>>,
) -> (result: Result<DataflowChanges, SynthError>)
    requires
        old(module)@.wf(),
    ensures
        final(module)@.wf(),
        regions@.len() != old(module)@.operations.len() ==> result == Err::<
            DataflowChanges,
            SynthError,
        >(SynthError::Invariant(Invariant::UnknownOperation)) && final(module)@ == old(module)@,
        regions@.len() == old(module)@.operations.len() ==> {
            let canonical = identity_map(old(module)@.values.len());
            let aliases = shared(old(module)@, regions@, canonical, old(module)@.operations.len());
            &&& final(module)@ == with_shared(old(module)@, regions@, canonical)
            &&& result matches Ok(changes) && changes.representatives@ == aliased(
                canonical,
                aliases,
            ) && changes.changed == (aliases.len() > 0)
        },
{
    if regions.len() != module.operations.len() {
        return Err(SynthError::Invariant(Invariant::UnknownOperation));
    }
    let identity = DataflowChanges::identity(module.values.len());
    share_equivalent_sequential_values_by(module, regions, &identity.representatives)
}

} // verus!
