//! Instances of memory cells.

use super::clocks::{same_source, same_value};
use super::naming::{instance_names, unique_name};
use super::pins::{
    collect_requests, first_for_pin, pin_requests, pins_numbered, request_views, PinRequest, PinSource, Request,
};
use super::target::TargetMemory;
use crate::error::{Invariant, SynthError};
use crate::word::emit::{exhausted, lemma_stable, lemma_stable_trans, stable};
use crate::word::module::{
    slice_type, InstanceConnection, KindView, Memory, MemoryReadPort, MemoryWritePort, ModuleView, SignalRef,
    ValueKind, WordModule,
};
use crate::word::resources::{kept, lemma_kept, lemma_kept_trans};
use crate::word::types::{OpKind, OpView, SourceSpan, ValueId};
use vstd::prelude::*;
use vstd::string::{StrSliceExecFns, StringExecFns};

verus! {

/// A pin and the value that it is bound to.
#[derive(Debug)]
pub struct PinBinding {
    pub pin: String,
    pub value: ValueId,
    pub span: SourceSpan,
}

/// Names in the order of their characters.
pub open spec fn name_less(left: Seq<char>, right: Seq<char>) -> bool
    decreases left.len(),
{
    if right.len() == 0 {
        false
    } else if left.len() == 0 {
        true
    } else if left[0] != right[0] {
        left[0] < right[0]
    } else {
        name_less(left.skip(1), right.skip(1))
    }
}

proof fn lemma_name_irreflexive(a: Seq<char>)
    ensures
        !name_less(a, a),
    decreases a.len(),
{
    if a.len() > 0 {
        lemma_name_irreflexive(a.skip(1));
    }
}

proof fn lemma_name_trans(a: Seq<char>, b: Seq<char>, c: Seq<char>)
    requires
        name_less(a, b),
        name_less(b, c),
    ensures
        name_less(a, c),
    decreases a.len(),
{
    if a.len() > 0 && a[0] == b[0] && b[0] == c[0] {
        lemma_name_trans(a.skip(1), b.skip(1), c.skip(1));
    }
}

proof fn lemma_name_total(a: Seq<char>, b: Seq<char>)
    requires
        a != b,
    ensures
        name_less(a, b) || name_less(b, a),
    decreases a.len(),
{
    if a.len() == 0 || b.len() == 0 {
        if a.len() == b.len() {
            assert(a =~= b);
        }
    } else if a[0] == b[0] {
        assert(a =~= seq![a[0]] + a.skip(1));
        assert(b =~= seq![b[0]] + b.skip(1));
        lemma_name_total(a.skip(1), b.skip(1));
    }
}

fn name_precedes(left: &String, right: &String) -> (less: bool)
    ensures
        less == name_less(left@, right@),
{
    let a = left.as_str();
    let b = right.as_str();
    let left_len: usize = a.unicode_len();
    let right_len: usize = b.unicode_len();
    assert(a@.skip(0) =~= a@);
    assert(b@.skip(0) =~= b@);
    let mut i: usize = 0;
    while i < left_len && i < right_len
        invariant
            a@ == left@,
            b@ == right@,
            left_len == a@.len(),
            right_len == b@.len(),
            i <= left_len,
            i <= right_len,
            name_less(a@, b@) == name_less(a@.skip(i as int), b@.skip(i as int)),
        decreases left_len - i,
    {
        let x = a.get_char(i);
        let y = b.get_char(i);
        assert(a@.skip(i as int)[0] == x);
        assert(b@.skip(i as int)[0] == y);
        if x != y {
            return x < y;
        }
        assert(a@.skip(i as int).skip(1) =~= a@.skip(i + 1));
        assert(b@.skip(i as int).skip(1) =~= b@.skip(i + 1));
        i += 1;
    }
    i < right_len
}

pub open spec fn pins_ordered(bindings: Seq<PinBinding>) -> bool {
    forall|i: int, j: int|
        0 <= i < j < bindings.len() ==> name_less(
            #[trigger] bindings[i].pin@,
            #[trigger] bindings[j].pin@,
        )
}

/// A value carries what a request asks for.
pub open spec fn carries(module: ModuleView, value: ValueId, source: PinSource) -> bool {
    module.has(value) && match source {
        PinSource::Bit(whole, bit) => module.op_of(value) == Some(
            OpView::Extract { value: whole, lsb: bit, width: 1 },
        ),
        PinSource::Whole(whole) => same_source(module, value, whole),
        PinSource::Driven(signal, bit) => module.kind(value) == KindView::Signal(
            SignalRef { signal, lsb: bit, width: 1 },
        ),
    }
}

pub open spec fn request_bound(
    module: ModuleView,
    bindings: Seq<PinBinding>,
    request: Request,
) -> bool {
    exists|i: int|
        0 <= i < bindings.len() && (#[trigger] bindings[i]).pin@ == request.pin && carries(
            module,
            bindings[i].value,
            request.source,
        )
}

pub open spec fn pin_listed(bindings: Seq<PinBinding>, pin: Seq<char>) -> bool {
    exists|i: int| 0 <= i < bindings.len() && (#[trigger] bindings[i]).pin@ == pin
}

pub open spec fn bindings_present(module: ModuleView, bindings: Seq<PinBinding>) -> bool {
    forall|i: int| 0 <= i < bindings.len() ==> module.has((#[trigger] bindings[i]).value)
}

/// What a request asks for is there.
pub open spec fn request_ok(module: ModuleView, source: PinSource) -> bool {
    match source {
        PinSource::Bit(value, bit) => module.has(value) && bit < module.ty(value).width,
        PinSource::Whole(value) => module.has(value),
        PinSource::Driven(signal, bit) => module.signal_ref_ok(
            SignalRef { signal, lsb: bit, width: 1 },
        ),
    }
}

proof fn lemma_carries_stable(
    before: ModuleView,
    after: ModuleView,
    value: ValueId,
    source: PinSource,
)
    requires
        stable(before, after),
        carries(before, value, source),
    ensures
        carries(after, value, source),
{
    assert(before.value_ok(value.raw as int));
    assert(after.values[value.raw as int] == before.values[value.raw as int]);
    assert(after.op_of(value) == before.op_of(value));
}

/// The place of a pin among ordered ones.
fn pin_place(bindings: &Vec<PinBinding>, pin: &String) -> (place: usize)
    ensures
        place <= bindings@.len(),
        forall|k: int| 0 <= k < place ==> name_less((#[trigger] bindings@[k]).pin@, pin@),
        place < bindings@.len() ==> !name_less(bindings@[place as int].pin@, pin@),
{
    let mut i: usize = 0;
    while i < bindings.len() && name_precedes(&bindings[i].pin, pin)
        invariant
            i <= bindings@.len(),
            forall|k: int| 0 <= k < i ==> name_less((#[trigger] bindings@[k]).pin@, pin@),
        decreases bindings.len() - i,
    {
        i += 1;
    }
    i
}

/// What one more binding leaves of the others.
pub open spec fn bindings_grow(
    before: ModuleView,
    after: ModuleView,
    old_bindings: Seq<PinBinding>,
    bindings: Seq<PinBinding>,
    request: Request,
) -> bool {
    &&& pins_ordered(bindings)
    &&& bindings_present(after, bindings)
    &&& request_bound(after, bindings, request)
    &&& forall|other: Request| #[trigger]
        request_bound(before, old_bindings, other) ==> request_bound(after, bindings, other)
    &&& forall|pin: Seq<char>| #[trigger]
        pin_listed(bindings, pin) ==> pin_listed(old_bindings, pin) || pin == request.pin
}

/// A value that a pin is bound to is what another request for the pin asks for.
pub open spec fn holds_request(module: ModuleView, bound: ValueId, source: PinSource) -> bool {
    match source {
        PinSource::Bit(..) => carries(module, bound, source),
        PinSource::Whole(value) => same_source(module, bound, value),
        PinSource::Driven(signal, _) => carries(module, bound, source) && module.ty(bound)
            == slice_type(module.signals[signal.raw as int].ty, 1),
    }
}

/// The value that a pin is bound to by the first request for it.
pub open spec fn bound_to(
    before: ModuleView,
    after: ModuleView,
    value: ValueId,
    source: PinSource,
) -> bool {
    match source {
        PinSource::Whole(whole) => value == whole,
        _ => value.raw >= before.values.len() && holds_request(after, value, source),
    }
}

/// What the first request for a pin binds it to is what another one asks for.
pub open spec fn sources_meet(module: ModuleView, first: PinSource, second: PinSource) -> bool {
    match (first, second) {
        (PinSource::Bit(a, i), PinSource::Bit(b, j)) => a == b && i == j,
        (PinSource::Driven(a, i), PinSource::Driven(b, j)) => a == b && i == j,
        (PinSource::Whole(value), _) => holds_request(module, value, second),
        (_, PinSource::Whole(value)) => first is Driven && holds_request(module, value, first),
        _ => false,
    }
}

/// What requests ask for is there.
pub open spec fn all_ok(module: ModuleView, requests: Seq<Request>) -> bool {
    forall|r: int| 0 <= r < requests.len() ==> request_ok(module, (#[trigger] requests[r]).source)
}

/// Two requests for one pin ask for different things.
pub open spec fn requests_clash(module: ModuleView, requests: Seq<Request>) -> bool {
    exists|i: int, j: int|
        0 <= i < j < requests.len() && #[trigger] requests[i].pin == #[trigger] requests[j].pin
            && first_for_pin(requests, i) && !sources_meet(
            module,
            requests[i].source,
            requests[j].source,
        )
}

/// A cell cannot be placed: two requests for one pin clash, or what one asks for
/// is not there.
pub open spec fn placing_fails(
    module: ModuleView,
    requests: Seq<Request>,
    error: SynthError,
) -> bool {
    ||| error == SynthError::Invariant(Invariant::ConflictingPin) && requests_clash(
        module,
        requests,
    )
    ||| exists|r: int|
        0 <= r < requests.len() && !request_ok(module, (#[trigger] requests[r]).source)
}

/// Bindings are as they were, or one for a pin that had none was put among them.
pub open spec fn added(
    before: Seq<PinBinding>,
    after: Seq<PinBinding>,
    request: Request,
    value: ValueId,
) -> bool {
    ||| after == before && pin_listed(before, request.pin)
    ||| {
        &&& !pin_listed(before, request.pin)
        &&& after.len() == before.len() + 1
        &&& forall|k: int|
            0 <= k < after.len() ==> before.contains(#[trigger] after[k]) || (after[k].pin@
                == request.pin && after[k].value == value)
    }
}

/// Every pin is bound by the first request for it.
pub open spec fn bound_by_first(
    start: ModuleView,
    module: ModuleView,
    bindings: Seq<PinBinding>,
    requests: Seq<Request>,
    count: int,
) -> bool {
    forall|k: int|
        0 <= k < bindings.len() ==> has_first(start, module, #[trigger] bindings[k], requests, count)
}

pub open spec fn has_first(
    start: ModuleView,
    module: ModuleView,
    binding: PinBinding,
    requests: Seq<Request>,
    count: int,
) -> bool {
    exists|r: int| #[trigger] binds_first(start, module, binding, requests, count, r)
}

pub open spec fn binds_first(
    start: ModuleView,
    module: ModuleView,
    binding: PinBinding,
    requests: Seq<Request>,
    count: int,
    r: int,
) -> bool {
    &&& 0 <= r < count
    &&& requests[r].pin == binding.pin@
    &&& first_for_pin(requests, r)
    &&& module.has(binding.value)
    &&& bound_to(start, module, binding.value, requests[r].source)
}

proof fn lemma_binds_stable(
    start: ModuleView,
    before: ModuleView,
    after: ModuleView,
    binding: PinBinding,
    requests: Seq<Request>,
    count: int,
    more: int,
    r: int,
)
    requires
        before.wf(),
        stable(before, after),
        binds_first(start, before, binding, requests, count, r),
        request_ok(start, requests[r].source),
        stable(start, before),
        count <= more,
    ensures
        binds_first(start, after, binding, requests, more, r),
{
    assert(before.value_ok(binding.value.raw as int));
    assert(after.values[binding.value.raw as int] == before.values[binding.value.raw as int]);
    assert(after.op_of(binding.value) == before.op_of(binding.value));
    if let PinSource::Driven(signal, bit) = requests[r].source {
        assert(after.signals[signal.raw as int] == before.signals[signal.raw as int]);
    }
}

proof fn lemma_bound_more(
    start: ModuleView,
    before: ModuleView,
    after: ModuleView,
    rows: Seq<PinBinding>,
    more: Seq<PinBinding>,
    requests: Seq<Request>,
    place: int,
    value: ValueId,
)
    requires
        stable(start, before),
        stable(before, after),
        0 <= place < requests.len(),
        all_ok(start, requests),
        bound_by_first(start, before, rows, requests, place),
        bindings_present(after, more),
        added(rows, more, requests[place], value),
        more != rows ==> bound_to(before, after, value, requests[place].source),
        forall|r: int| 0 <= r < place ==> pin_listed(rows, (#[trigger] requests[r]).pin),
    ensures
        bound_by_first(start, after, more, requests, place + 1),
{
    assert forall|k: int| 0 <= k < more.len() implies has_first(
        start,
        after,
        #[trigger] more[k],
        requests,
        place + 1,
    ) by {
        let binding = more[k];
        if rows.contains(binding) {
            let q = choose|q: int| 0 <= q < rows.len() && rows[q] == binding;
            assert(has_first(start, before, rows[q], requests, place));
            let r = choose|r: int| #[trigger]
                binds_first(start, before, rows[q], requests, place, r);
            assert(request_ok(start, requests[r].source));
            lemma_binds_stable(start, before, after, binding, requests, place, place + 1, r);
        } else {
            assert(more != rows) by {
                if more == rows {
                    assert(rows[k] == binding);
                }
            }
            assert(!pin_listed(rows, requests[place].pin));
            assert forall|r: int| 0 <= r < place implies (#[trigger] requests[r]).pin
                != requests[place].pin by {
                assert(pin_listed(rows, requests[r].pin));
            }
            assert(binds_first(start, after, binding, requests, place + 1, place));
        }
    }
}

/// What a pin is bound to by its first request differs from what another one asks
/// for, so the two clash.
proof fn lemma_clash(
    start: ModuleView,
    module: ModuleView,
    bindings: Seq<PinBinding>,
    requests: Seq<Request>,
    k: int,
    j: int,
)
    requires
        start.wf(),
        stable(start, module),
        0 <= j < requests.len(),
        0 <= k < bindings.len(),
        bound_by_first(start, module, bindings, requests, j),
        bindings[k].pin@ == requests[j].pin,
        forall|r: int| 0 <= r <= j ==> request_ok(start, (#[trigger] requests[r]).source),
        !holds_request(module, bindings[k].value, requests[j].source),
    ensures
        requests_clash(start, requests),
{
    let binding = bindings[k];
    assert(has_first(start, module, binding, requests, j));
    let r = choose|r: int| #[trigger]
        binds_first(start, module, binding, requests, j, r);
    let first = requests[r].source;
    let second = requests[j].source;
    assert(request_ok(start, first));
    assert(request_ok(start, second));
    assert(requests[r].pin == requests[j].pin);
    if sources_meet(start, first, second) {
        assert(module.value_ok(binding.value.raw as int));
        match (first, second) {
            (PinSource::Whole(value), _) => {
                assert(start.value_ok(value.raw as int));
                assert(module.values[value.raw as int] == start.values[value.raw as int]);
                assert(module.op_of(value) == start.op_of(value));
                if let PinSource::Driven(signal, bit) = second {
                    assert(module.signals[signal.raw as int] == start.signals[signal.raw as int]);
                }
                if let PinSource::Whole(other) = second {
                    assert(module.values[other.raw as int] == start.values[other.raw as int]);
                }
            },
            (PinSource::Driven(signal, bit), PinSource::Whole(value)) => {
                assert(module.values[value.raw as int] == start.values[value.raw as int]);
                assert(module.signals[signal.raw as int] == start.signals[signal.raw as int]);
            },
            _ => {},
        }
        assert(false);
    }
}

/// Binds a pin to a value, unless it is bound to another one.
fn bind_macro_pin(
    module: &WordModule,
    bindings: &mut Vec<PinBinding>,
    request: &PinRequest,
    value: ValueId,
    Ghost(before): Ghost<ModuleView>,
) -> (result: Result<(), SynthError>)
    requires
        stable(before, module@),
        pins_ordered(old(bindings)@),
        bindings_present(before, old(bindings)@),
        carries(module@, value, request.source),
        forall|other: ValueId|
            module@.has(other) && same_source(module@, other, value) ==> #[trigger] carries(
                module@,
                other,
                request.source,
            ),
    ensures
        match result {
            Ok(()) => bindings_grow(
                before,
                module@,
                old(bindings)@,
                final(bindings)@,
                request@,
            ),
            Err(error) => {
                &&& error == SynthError::Invariant(Invariant::ConflictingPin)
                &&& exists|k: int|
                    0 <= k < old(bindings)@.len() && (#[trigger] old(bindings)@[k]).pin@
                        == request.pin@ && !same_source(module@, old(bindings)@[k].value, value)
            },
        },
        result is Ok ==> added(old(bindings)@, final(bindings)@, request@, value),
{
    let ghost start = bindings@;
    let place = pin_place(bindings, &request.pin);
    proof {
        assert forall|other: Request| #[trigger] request_bound(before, start, other) implies exists|
            i: int,
        |
            0 <= i < start.len() && (#[trigger] start[i]).pin@ == other.pin && carries(
                module@,
                start[i].value,
                other.source,
            ) by {
            let i = choose|i: int|
                0 <= i < start.len() && (#[trigger] start[i]).pin@ == other.pin && carries(
                    before,
                    start[i].value,
                    other.source,
                );
            lemma_carries_stable(before, module@, start[i].value, other.source);
        }
    }
    if place < bindings.len() && bindings[place].pin == request.pin {
        assert(start[place as int].pin@ == request.pin@);
        assert(before.has(start[place as int].value));
        if same_value(module, bindings[place].value, value) {
            proof {
                assert(carries(module@, start[place as int].value, request.source));
                assert(request_bound(module@, start, request@));
                assert forall|other: Request| #[trigger]
                    request_bound(before, start, other) implies request_bound(
                    module@,
                    start,
                    other,
                ) by {}
            }
            return Ok(());
        }
        assert(start[place as int].pin@ == request@.pin);
        return Err(SynthError::Invariant(Invariant::ConflictingPin));
    }
    let binding = PinBinding { pin: request.pin.clone(), value, span: request.span };
    let ghost made = binding;
    bindings.insert(place, binding);
    proof {
        let rows = bindings@;
        assert(rows =~= start.insert(place as int, made));
        assert(made.pin@ == request.pin@);
        assert forall|i: int, j: int| 0 <= i < j < rows.len() implies name_less(
            #[trigger] rows[i].pin@,
            #[trigger] rows[j].pin@,
        ) by {
            if i < place && j > place {
                assert(name_less(start[i].pin@, start[j - 1].pin@));
            } else if i < place && j == place {
                assert(name_less(start[i].pin@, request.pin@));
            } else if i == place {
                assert(start[place as int].pin@ != request.pin@);
                lemma_name_total(start[place as int].pin@, request.pin@);
                if j - 1 > place {
                    assert(name_less(start[place as int].pin@, start[j - 1].pin@));
                    lemma_name_trans(
                        request.pin@,
                        start[place as int].pin@,
                        start[j - 1].pin@,
                    );
                }
            } else if i > place {
                assert(name_less(start[i - 1].pin@, start[j - 1].pin@));
            } else {
                assert(name_less(start[i].pin@, start[j].pin@));
            }
        }
        assert forall|i: int| 0 <= i < rows.len() implies module@.has((#[trigger] rows[i]).value) by {
            if i < place {
                assert(before.has(start[i].value));
            } else if i > place {
                assert(before.has(start[i - 1].value));
            }
        }
        assert(!pin_listed(start, request.pin@)) by {
            if pin_listed(start, request.pin@) {
                let k = choose|k: int| 0 <= k < start.len() && (#[trigger] start[k]).pin@ == request.pin@;
                lemma_name_irreflexive(request.pin@);
                if k > place {
                    assert(name_less(start[place as int].pin@, start[k].pin@));
                }
            }
        }
        assert forall|k: int| 0 <= k < rows.len() implies start.contains(#[trigger] rows[k]) || (
        rows[k].pin@ == request.pin@ && rows[k].value == value) by {
            if k < place {
                assert(rows[k] == start[k]);
            } else if k > place {
                assert(rows[k] == start[k - 1]);
            }
        }
        assert(rows[place as int].pin@ == request.pin@);
        assert(request_bound(module@, rows, request@));
        assert forall|other: Request| #[trigger] request_bound(before, start, other) implies request_bound(
            module@,
            rows,
            other,
        ) by {
            let i = choose|i: int|
                0 <= i < start.len() && (#[trigger] start[i]).pin@ == other.pin && carries(
                    module@,
                    start[i].value,
                    other.source,
                );
            let j = if i < place {
                i
            } else {
                i + 1
            };
            assert(rows[j] == start[i]);
        }
        assert forall|pin: Seq<char>| #[trigger] pin_listed(rows, pin) implies pin_listed(start, pin)
            || pin == request.pin@ by {
            let i = choose|i: int| 0 <= i < rows.len() && (#[trigger] rows[i]).pin@ == pin;
            if i < place {
                assert(start[i].pin@ == pin);
            } else if i > place {
                assert(start[i - 1].pin@ == pin);
            }
        }
    }
    Ok(())
}

/// Whether a value is one bit of another.
fn extracts(module: &WordModule, value: ValueId, whole: ValueId, bit: u32) -> (found: bool)
    requires
        module@.wf(),
        module@.has(value),
    ensures
        found == carries(module@, value, PinSource::Bit(whole, bit)),
{
    assert(module@.value_ok(value.raw as int));
    match &module.values[value.raw as usize].kind {
        ValueKind::Operation(operation) => {
            proof {
                assert(module@.operations[operation.raw as int].kind
                    == module.operations@[operation.raw as int].kind@);
            }
            match &module.operations[operation.raw as usize].kind {
                OpKind::Extract { value: source, lsb, width } => source.raw == whole.raw && *lsb
                    == bit && *width == 1,
                _ => false,
            }
        },
        _ => false,
    }
}

/// Binds a pin as a request asks.
#[verifier::rlimit(30)]
fn put_request(module: &mut WordModule, bindings: &mut Vec<PinBinding>, request: &PinRequest)
    -> (result: Result<(), SynthError>)
    requires
        old(module)@.wf(),
        pins_ordered(old(bindings)@),
        bindings_present(old(module)@, old(bindings)@),
    ensures
        stable(old(module)@, final(module)@),
        match result {
            Ok(()) => bindings_grow(
                old(module)@,
                final(module)@,
                old(bindings)@,
                final(bindings)@,
                request@,
            ),
            Err(error) => exhausted(final(module)@, error) || (error == SynthError::Invariant(
                Invariant::ConflictingPin,
            ) && exists|k: int|
                0 <= k < old(bindings)@.len() && (#[trigger] old(bindings)@[k]).pin@
                    == request.pin@ && !holds_request(
                    old(module)@,
                    old(bindings)@[k].value,
                    request.source,
                )) || !request_ok(old(module)@, request.source),
        },
        result is Ok ==> exists|value: ValueId| #[trigger]
            added(old(bindings)@, final(bindings)@, request@, value) && (final(bindings)@ != old(
                bindings,
            )@ ==> bound_to(old(module)@, final(module)@, value, request.source)),
{
    let ghost start = module@;
    let ghost rows = bindings@;
    proof {
        lemma_stable(start, start);
    }
    match request.source {
        PinSource::Bit(whole, bit) => {
            if whole.raw as usize >= module.values.len() || bit >= module.values[
                whole.raw as usize].ty.width {
                return Err(SynthError::Invariant(Invariant::MissingBit));
            }
            let place = pin_place(bindings, &request.pin);
            if place < bindings.len() && bindings[place].pin == request.pin {
                assert(start.has(rows[place as int].value));
                if extracts(module, bindings[place].value, whole, bit) {
                    assert(rows[place as int].pin@ == request.pin@);
                    assert(request_bound(start, rows, request@));
                    assert(pin_listed(rows, request.pin@));
                    assert(added(rows, bindings@, request@, whole));
                    return Ok(());
                }
            }
            let value = match module.emit_extract(whole, bit, 1, request.span) {
                Ok(value) => value,
                Err(error) => return Err(error),
            };
            proof {
                assert forall|other: ValueId|
                    module@.has(other) && same_source(module@, other, value) implies #[trigger] carries(
                    module@,
                    other,
                    request.source,
                ) by {}
            }
            let result = bind_macro_pin(module, bindings, request, value, Ghost(start));
            proof {
                if result is Err {
                    let k = choose|k: int|
                        0 <= k < rows.len() && (#[trigger] rows[k]).pin@ == request.pin@
                            && !same_source(module@, rows[k].value, value);
                    lemma_name_irreflexive(request.pin@);
                    if k < place {
                        assert(name_less(rows[k].pin@, request.pin@));
                    }
                    if k > place {
                        assert(name_less(rows[place as int].pin@, rows[k].pin@));
                    }
                    assert(!carries(start, rows[k].value, request.source));
                }
            }
            result
        },
        PinSource::Whole(value) => {
            if value.raw as usize >= module.values.len() {
                return Err(SynthError::Invariant(Invariant::UnknownValue));
            }
            bind_macro_pin(module, bindings, request, value, Ghost(start))
        },
        PinSource::Driven(signal, bit) => {
            let value = match module.read_signal_slice(signal, bit, 1, request.span) {
                Ok(value) => value,
                Err(error) => return Err(error),
            };
            proof {
                lemma_stable(start, module@);
            }
            bind_macro_pin(module, bindings, request, value, Ghost(start))
        },
    }
}

/// The text of a name.
pub open spec fn pin_of(module: ModuleView, connection: InstanceConnection) -> Seq<char> {
    module.names[connection.pin.raw as int]
}

/// A cell is placed: its pins are bound as the ports ask, in the order of their
/// names.
pub open spec fn cell_placed(
    module: ModuleView,
    connections: Seq<InstanceConnection>,
    requests: Seq<Request>,
) -> bool {
    &&& forall|i: int| 0 <= i < connections.len() ==> module.has((#[trigger] connections[i]).value)
    &&& forall|i: int, j: int|
        0 <= i < j < connections.len() ==> name_less(
            pin_of(module, #[trigger] connections[i]),
            pin_of(module, #[trigger] connections[j]),
        )
    &&& forall|r: int|
        0 <= r < requests.len() ==> connection_serves(module, connections, #[trigger] requests[r])
    &&& forall|i: int|
        0 <= i < connections.len() ==> pin_asked(
            requests,
            pin_of(module, #[trigger] connections[i]),
        )
}

pub open spec fn connection_serves(
    module: ModuleView,
    connections: Seq<InstanceConnection>,
    request: Request,
) -> bool {
    exists|i: int|
        0 <= i < connections.len() && pin_of(module, #[trigger] connections[i]) == request.pin
            && carries(module, connections[i].value, request.source)
}

pub open spec fn pin_asked(requests: Seq<Request>, pin: Seq<char>) -> bool {
    exists|r: int| 0 <= r < requests.len() && (#[trigger] requests[r]).pin == pin
}

/// Binds all pins.
fn put_requests(module: &mut WordModule, requests: &Vec<PinRequest>) -> (result: Result<
    Vec<PinBinding>,
    SynthError,
>)
    requires
        old(module)@.wf(),
    ensures
        stable(old(module)@, final(module)@),
        match result {
            Ok(bindings) => {
                &&& pins_ordered(bindings@)
                &&& bindings_present(final(module)@, bindings@)
                &&& forall|r: int|
                    0 <= r < requests@.len() ==> request_bound(
                        final(module)@,
                        bindings@,
                        (#[trigger] requests@[r])@,
                    )
                &&& forall|pin: Seq<char>| #[trigger]
                    pin_listed(bindings@, pin) ==> pin_asked(request_views(requests@), pin)
            },
            Err(error) => exhausted(final(module)@, error) || (error == SynthError::Invariant(
                Invariant::ConflictingPin,
            ) && requests_clash(old(module)@, request_views(requests@))) || exists|r: int|
                0 <= r < requests@.len() && !request_ok(
                    old(module)@,
                    (#[trigger] requests@[r]).source,
                ),
        },
{
    let ghost start = module@;
    let ghost views = request_views(requests@);
    proof {
        lemma_stable(start, start);
    }
    let ghost sound = all_ok(start, views);
    let mut bindings: Vec<PinBinding> = Vec::new();
    let mut i: usize = 0;
    while i < requests.len()
        invariant
            start == old(module)@,
            stable(start, module@),
            views == request_views(requests@),
            i <= requests@.len(),
            pins_ordered(bindings@),
            sound == all_ok(start, views),
            sound ==> bound_by_first(start, module@, bindings@, views, i as int),
            bindings_present(module@, bindings@),
            forall|r: int|
                0 <= r < i ==> request_bound(module@, bindings@, (#[trigger] requests@[r])@),
            forall|pin: Seq<char>| #[trigger] pin_listed(bindings@, pin) ==> pin_asked(views, pin),
        decreases requests.len() - i,
    {
        let ghost before = module@;
        let ghost rows = bindings@;
        let request = &requests[i];
        match put_request(module, &mut bindings, request) {
            Ok(()) => {},
            Err(error) => {
                proof {
                    lemma_stable_trans(start, before, module@);
                    assert(requests@[i as int].source == request.source);
                    assert(views[i as int] == request@);
                    if !sound {
                        let r = choose|r: int|
                            0 <= r < views.len() && !request_ok(
                                start,
                                (#[trigger] views[r]).source,
                            );
                        assert(requests@[r].source == views[r].source);
                    } else {
                        assert(request_ok(start, views[i as int].source));
                        lemma_request_ok_stable(start, before, request.source);
                        if !exhausted(module@, error) {
                            let k = choose|k: int|
                                0 <= k < rows.len() && (#[trigger] rows[k]).pin@ == request.pin@
                                    && !holds_request(before, rows[k].value, request.source);
                            lemma_clash(start, before, rows, views, k, i as int);
                        }
                    }
                }
                return Err(error);
            },
        }
        proof {
            lemma_stable_trans(start, before, module@);
            assert forall|r: int| 0 <= r < i + 1 implies request_bound(
                module@,
                bindings@,
                (#[trigger] requests@[r])@,
            ) by {
                if r < i {
                    assert(request_bound(before, rows, requests@[r]@));
                }
            }
            assert forall|pin: Seq<char>| #[trigger] pin_listed(bindings@, pin) implies pin_asked(
                views,
                pin,
            ) by {
                if !pin_listed(rows, pin) {
                    assert(views[i as int].pin == pin);
                }
            }
            assert(views[i as int] == request@);
            if sound {
                assert forall|r: int| 0 <= r < i implies pin_listed(rows, (#[trigger] views[r]).pin) by {
                    assert(views[r] == requests@[r]@);
                    assert(request_bound(before, rows, requests@[r]@));
                    let q = choose|q: int|
                        0 <= q < rows.len() && (#[trigger] rows[q]).pin@ == views[r].pin && carries(
                            before,
                            rows[q].value,
                            views[r].source,
                        );
                }
                let value = choose|value: ValueId| #[trigger]
                    added(rows, bindings@, request@, value) && (bindings@ != rows ==> bound_to(
                        before,
                        module@,
                        value,
                        request.source,
                    ));
                lemma_bound_more(start, before, module@, rows, bindings@, views, i as int, value);
            }
        }
        i += 1;
    }
    Ok(bindings)
}

proof fn lemma_request_ok_stable(before: ModuleView, after: ModuleView, source: PinSource)
    requires
        stable(before, after),
        request_ok(before, source),
    ensures
        request_ok(after, source),
{
}

/// Turns bindings into the connections of an instance.
fn name_pins(module: &mut WordModule, bindings: &Vec<PinBinding>) -> (result: Result<
    Vec<InstanceConnection>,
    SynthError,
>)
    requires
        old(module)@.wf(),
    ensures
        final(module)@.wf(),
        final(module)@ == (ModuleView { names: final(module)@.names, ..old(module)@ }),
        old(module)@.names.len() <= final(module)@.names.len(),
        forall|k: int|
            0 <= k < old(module)@.names.len() ==> #[trigger] final(module)@.names[k] == old(module)@.names[k],
        result matches Err(error) ==> exhausted(final(module)@, error),
        result matches Ok(connections) ==> {
            &&& connections@.len() == bindings@.len()
            &&& forall|i: int|
                0 <= i < connections@.len() ==> (#[trigger] connections@[i]).pin.raw < final(module)@.names.len() && pin_of(final(module)@, connections@[i]) == bindings@[i].pin@
                    && connections@[i].value == bindings@[i].value && connections@[i].source
                    == bindings@[i].span
        },
{
    let ghost start = module@;
    let mut connections: Vec<InstanceConnection> = Vec::new();
    let mut i: usize = 0;
    while i < bindings.len()
        invariant
            start == old(module)@,
            module@.wf(),
            module@ == (ModuleView { names: module@.names, ..start }),
            start.names.len() <= module@.names.len(),
            forall|k: int|
                0 <= k < start.names.len() ==> #[trigger] module@.names[k] == start.names[k],
            i <= bindings@.len(),
            connections@.len() == i,
            forall|k: int|
                0 <= k < i ==> (#[trigger] connections@[k]).pin.raw < module@.names.len() && pin_of(
                    module@,
                    connections@[k],
                ) == bindings@[k].pin@ && connections@[k].value == bindings@[k].value
                    && connections@[k].source == bindings@[k].span,
        decreases bindings.len() - i,
    {
        let ghost before = module@;
        let ghost rows = connections@;
        let pin = match module.intern_name(bindings[i].pin.clone()) {
            Ok(pin) => pin,
            Err(error) => return Err(error),
        };
        connections.push(
            InstanceConnection { pin, value: bindings[i].value, source: bindings[i].span },
        );
        proof {
            assert forall|k: int| 0 <= k < i + 1 implies (#[trigger] connections@[k]).pin.raw
                < module@.names.len() && pin_of(module@, connections@[k]) == bindings@[k].pin@
                && connections@[k].value == bindings@[k].value && connections@[k].source
                == bindings@[k].span by {
                if k < i {
                    assert(connections@[k] == rows[k]);
                    assert(before.names[rows[k].pin.raw as int]
                        == module@.names[rows[k].pin.raw as int]);
                }
            }
        }
        i += 1;
    }
    Ok(connections)
}

/// Places a cell for a memory.
#[verifier::rlimit(40)]
pub fn materialize_macro(
    module: &mut WordModule,
    memory: &Memory,
    reads: &Vec<MemoryReadPort>,
    writes: &Vec<MemoryWritePort>,
    cell: &String,
    target: &TargetMemory,
) -> (result: Result<(), SynthError>)
    requires
        old(module)@.wf(),
        memory.name.raw < old(module)@.names.len(),
        pins_numbered(*target),
    ensures
        kept(old(module)@, final(module)@),
        final(module)@ == (ModuleView {
            values: final(module)@.values,
            operations: final(module)@.operations,
            instances: final(module)@.instances,
            names: final(module)@.names,
            ..old(module)@
        }),
        old(module)@.names.len() <= final(module)@.names.len(),
        result is Ok ==> {
            let last = final(module)@.instances.last();
            &&& final(module)@.instances == old(module)@.instances.push(last)
            &&& last.source == memory.source
            &&& final(module)@.names[last.cell.raw as int] == cell@
            &&& super::storage::named_after(
                final(module)@.names[last.name.raw as int],
                old(module)@.names[memory.name.raw as int],
            )
            &&& cell_placed(
                final(module)@,
                last.connections,
                pin_requests(reads@, writes@, *target),
            )
        },
        result matches Err(error) ==> exhausted(final(module)@, error) || placing_fails(
            old(module)@,
            pin_requests(reads@, writes@, *target),
            error,
        ),
{
    let ghost start = module@;
    let ghost asked = pin_requests(reads@, writes@, *target);
    let base = module.names[memory.name.raw as usize].clone();
    let requests = collect_requests(reads, writes, target);
    let bindings = match put_requests(module, &requests) {
        Ok(bindings) => bindings,
        Err(error) => {
            proof {
                lemma_kept(start, module@);
                if !exhausted(module@, error) && !(error == SynthError::Invariant(
                    Invariant::ConflictingPin,
                ) && requests_clash(start, asked)) {
                    let r = choose|r: int|
                        0 <= r < requests@.len() && !request_ok(
                            start,
                            (#[trigger] requests@[r]).source,
                        );
                    assert(request_views(requests@)[r].source == requests@[r].source);
                    assert(asked[r].source == requests@[r].source);
                }
            }
            return Err(error);
        },
    };
    let ghost first = module@;
    proof {
        lemma_kept(start, first);
    }
    let connections = match name_pins(module, &bindings) {
        Ok(connections) => connections,
        Err(error) => {
            proof {
                lemma_kept(first, module@);
                lemma_kept_trans(start, first, module@);
            }
            return Err(error);
        },
    };
    let ghost second = module@;
    let ghost rows = connections@;
    proof {
        lemma_kept(first, second);
        lemma_kept_trans(start, first, second);
    }
    let taken = instance_names(module);
    let name = match unique_name(&base, &taken) {
        Ok(name) => name,
        Err(error) => return Err(error),
    };
    let ghost text = name@;
    assert(super::storage::named_after(text, base@));
    proof {
        assert forall|i: int| 0 <= i < rows.len() implies second.has((#[trigger] rows[i]).value) by {
            assert(first.has(bindings@[i].value));
        }
    }
    let result = module.add_instance(name, cell.clone(), connections, memory.source);
    proof {
        let after = module@;
        lemma_kept_trans(start, second, after);
        if result is Ok {
            assert forall|i: int| 0 <= i < rows.len() implies pin_of(after, #[trigger] rows[i])
                == bindings@[i].pin@ by {
                assert(pin_of(second, rows[i]) == bindings@[i].pin@);
                assert(after.names[rows[i].pin.raw as int] == second.names[rows[i].pin.raw as int]);
            }
            assert forall|r: int| 0 <= r < asked.len() implies connection_serves(
                after,
                rows,
                #[trigger] asked[r],
            ) by {
                assert(asked[r] == requests@[r]@);
                assert(request_bound(first, bindings@, requests@[r]@));
                let i = choose|i: int|
                    0 <= i < bindings@.len() && (#[trigger] bindings@[i]).pin@ == asked[r].pin
                        && carries(first, bindings@[i].value, asked[r].source);
                assert(pin_of(after, rows[i]) == asked[r].pin);
                assert(first.value_ok(bindings@[i].value.raw as int));
                assert(after.op_of(rows[i].value) == first.op_of(rows[i].value));
                assert(carries(after, rows[i].value, asked[r].source));
            }
            assert forall|i: int| 0 <= i < rows.len() implies pin_asked(
                asked,
                pin_of(after, #[trigger] rows[i]),
            ) by {
                assert(bindings@[i].pin@ == pin_of(after, rows[i]));
                assert(pin_listed(bindings@, pin_of(after, rows[i])));
            }
            assert forall|i: int, j: int| 0 <= i < j < rows.len() implies name_less(
                pin_of(after, #[trigger] rows[i]),
                pin_of(after, #[trigger] rows[j]),
            ) by {
                assert(name_less(bindings@[i].pin@, bindings@[j].pin@));
            }
        }
    }
    result
}

} // verus!
