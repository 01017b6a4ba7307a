//! What the pins of a memory cell are bound to.

use super::clocks::{same_source, same_value};
use super::target::{TargetMemory, TargetMemoryReadPort, TargetMemoryWritePort};
use crate::word::module::{
    MemoryReadPort, MemoryReadTiming, MemoryWritePort, ModuleView, WordModule,
};
use crate::word::types::{SignalId, SourceSpan, ValueId};
use vstd::prelude::*;

verus! {

/// What a pin is bound to: one bit of a value, a value of one bit as it is, or
/// one bit of a signal.
#[derive(Clone, Copy, PartialEq, Eq, Structural, Debug)]
pub enum PinSource {
    Bit(ValueId, u32),
    Whole(ValueId),
    Driven(SignalId, u32),
}

#[derive(Debug)]
pub struct PinRequest {
    pub pin: String,
    pub source: PinSource,
    pub span: SourceSpan,
}

pub struct Request {
    pub pin: Seq<char>,
    pub source: PinSource,
    pub span: SourceSpan,
}

impl View for PinRequest {
    type V = Request;

    open spec fn view(&self) -> Request {
        Request { pin: self.pin@, source: self.source, span: self.span }
    }
}

pub open spec fn request_views(requests: Seq<PinRequest>) -> Seq<Request> {
    Seq::new(requests.len(), |i: int| requests[i]@)
}

/// The bits of a value at a row of pins.
pub open spec fn value_requests(pins: Seq<String>, value: ValueId, span: SourceSpan) -> Seq<
    Request,
> {
    Seq::new(
        pins.len(),
        |i: int| Request { pin: pins[i]@, source: PinSource::Bit(value, i as u32), span },
    )
}

/// The bits of a signal at a row of pins.
pub open spec fn signal_requests(pins: Seq<String>, signal: SignalId, span: SourceSpan) -> Seq<
    Request,
> {
    Seq::new(
        pins.len(),
        |i: int| Request { pin: pins[i]@, source: PinSource::Driven(signal, i as u32), span },
    )
}

pub open spec fn whole_request(pin: Seq<char>, value: ValueId, span: SourceSpan) -> Seq<Request> {
    seq![Request { pin, source: PinSource::Whole(value), span }]
}

/// What a read port asks of the pins.
pub open spec fn read_requests(source: MemoryReadPort, port: TargetMemoryReadPort) -> Seq<Request> {
    value_requests(port.address_pins@, source.address, source.source) + signal_requests(
        port.data_pins@,
        source.data,
        source.source,
    ) + match (source.timing, port.clock) {
        (MemoryReadTiming::Synchronous { clock, enable, disabled }, Some(pin)) => whole_request(
            pin.pin@,
            clock.value,
            source.source,
        ) + match (enable, port.enable) {
            (Some(enable), Some(pin)) => whole_request(pin.pin@, enable.value, source.source),
            _ => Seq::<Request>::empty(),
        },
        _ => Seq::<Request>::empty(),
    }
}

/// What a write port asks of the pins.
pub open spec fn write_requests(source: MemoryWritePort, port: TargetMemoryWritePort) -> Seq<
    Request,
> {
    value_requests(port.address_pins@, source.address, source.source) + value_requests(
        port.data_pins@,
        source.data,
        source.source,
    ) + whole_request(port.clock.pin@, source.clock.value, source.source) + (match (
        source.enable,
        port.enable,
    ) {
        (Some(enable), Some(pin)) => whole_request(pin.pin@, enable.value, source.source),
        _ => Seq::<Request>::empty(),
    }) + (match source.mask {
        Some(mask) => value_requests(port.mask_pins@, mask.value, source.source),
        None => Seq::<Request>::empty(),
    })
}

pub open spec fn reads_requests(
    reads: Seq<MemoryReadPort>,
    ports: Seq<TargetMemoryReadPort>,
    count: nat,
) -> Seq<Request>
    decreases count,
{
    if count == 0 {
        seq![]
    } else {
        reads_requests(reads, ports, (count - 1) as nat) + read_requests(
            reads[count - 1],
            ports[count - 1],
        )
    }
}

pub open spec fn writes_requests(
    writes: Seq<MemoryWritePort>,
    ports: Seq<TargetMemoryWritePort>,
    count: nat,
) -> Seq<Request>
    decreases count,
{
    if count == 0 {
        seq![]
    } else {
        writes_requests(writes, ports, (count - 1) as nat) + write_requests(
            writes[count - 1],
            ports[count - 1],
        )
    }
}

pub open spec fn shorter(left: nat, right: nat) -> nat {
    if left <= right {
        left
    } else {
        right
    }
}

/// What all ports ask of the pins, each beside the one at its place.
pub open spec fn pin_requests(
    reads: Seq<MemoryReadPort>,
    writes: Seq<MemoryWritePort>,
    target: TargetMemory,
) -> Seq<Request> {
    reads_requests(reads, target.read_ports@, shorter(reads.len(), target.read_ports@.len()))
        + writes_requests(
        writes,
        target.write_ports@,
        shorter(writes.len(), target.write_ports@.len()),
    )
}

/// Every bit has a number.
pub open spec fn pins_numbered(target: TargetMemory) -> bool {
    &&& forall|i: int|
        0 <= i < target.read_ports@.len() ==> (#[trigger] target.read_ports@[i]).address_pins@.len()
            <= u32::MAX && target.read_ports@[i].data_pins@.len() <= u32::MAX
    &&& forall|i: int|
        0 <= i < target.write_ports@.len() ==> (
        #[trigger] target.write_ports@[i]).address_pins@.len() <= u32::MAX
            && target.write_ports@[i].data_pins@.len() <= u32::MAX
            && target.write_ports@[i].mask_pins@.len() <= u32::MAX
}

fn push_value_bits(
    requests: &mut Vec<PinRequest>,
    pins: &Vec<String>,
    value: ValueId,
    span: SourceSpan,
)
    requires
        pins@.len() <= u32::MAX,
    ensures
        request_views(final(requests)@) == request_views(old(requests)@) + value_requests(
            pins@,
            value,
            span,
        ),
{
    let ghost start = request_views(requests@);
    let mut i: usize = 0;
    while i < pins.len()
        invariant
            pins@.len() <= u32::MAX,
            i <= pins@.len(),
            request_views(requests@) == start + value_requests(pins@, value, span).take(i as int),
        decreases pins.len() - i,
    {
        let ghost row = request_views(requests@);
        requests.push(
            PinRequest { pin: pins[i].clone(), source: PinSource::Bit(value, i as u32), span },
        );
        assert(request_views(requests@) =~= row.push(value_requests(pins@, value, span)[i as int]));
        assert(value_requests(pins@, value, span).take(i + 1) =~= value_requests(
            pins@,
            value,
            span,
        ).take(i as int).push(value_requests(pins@, value, span)[i as int]));
        i += 1;
    }
    assert(value_requests(pins@, value, span).take(i as int) =~= value_requests(
        pins@,
        value,
        span,
    ));
    assert(start + value_requests(pins@, value, span).take(0) =~= start);
}

fn push_signal_bits(
    requests: &mut Vec<PinRequest>,
    pins: &Vec<String>,
    signal: SignalId,
    span: SourceSpan,
)
    requires
        pins@.len() <= u32::MAX,
    ensures
        request_views(final(requests)@) == request_views(old(requests)@) + signal_requests(
            pins@,
            signal,
            span,
        ),
{
    let ghost start = request_views(requests@);
    let mut i: usize = 0;
    while i < pins.len()
        invariant
            pins@.len() <= u32::MAX,
            i <= pins@.len(),
            request_views(requests@) == start + signal_requests(pins@, signal, span).take(i as int),
        decreases pins.len() - i,
    {
        let ghost row = request_views(requests@);
        requests.push(
            PinRequest { pin: pins[i].clone(), source: PinSource::Driven(signal, i as u32), span },
        );
        assert(request_views(requests@) =~= row.push(
            signal_requests(pins@, signal, span)[i as int],
        ));
        assert(signal_requests(pins@, signal, span).take(i + 1) =~= signal_requests(
            pins@,
            signal,
            span,
        ).take(i as int).push(signal_requests(pins@, signal, span)[i as int]));
        i += 1;
    }
    assert(signal_requests(pins@, signal, span).take(i as int) =~= signal_requests(
        pins@,
        signal,
        span,
    ));
}

fn push_whole(requests: &mut Vec<PinRequest>, pin: &String, value: ValueId, span: SourceSpan)
    ensures
        request_views(final(requests)@) == request_views(old(requests)@) + whole_request(
            pin@,
            value,
            span,
        ),
{
    let ghost start = request_views(requests@);
    requests.push(PinRequest { pin: pin.clone(), source: PinSource::Whole(value), span });
    assert(request_views(requests@) =~= start + whole_request(pin@, value, span));
}

fn push_read(requests: &mut Vec<PinRequest>, source: &MemoryReadPort, port: &TargetMemoryReadPort)
    requires
        port.address_pins@.len() <= u32::MAX,
        port.data_pins@.len() <= u32::MAX,
    ensures
        request_views(final(requests)@) == request_views(old(requests)@) + read_requests(
            *source,
            *port,
        ),
{
    let ghost start = request_views(requests@);
    push_value_bits(requests, &port.address_pins, source.address, source.source);
    push_signal_bits(requests, &port.data_pins, source.data, source.source);
    if let MemoryReadTiming::Synchronous { clock, enable, disabled } = source.timing {
        if let Some(pin) = &port.clock {
            push_whole(requests, &pin.pin, clock.value, source.source);
            if let Some(enable) = enable {
                if let Some(pin) = &port.enable {
                    push_whole(requests, &pin.pin, enable.value, source.source);
                }
            }
        }
    }
    assert(request_views(requests@) =~= start + read_requests(*source, *port));
}

fn push_write(
    requests: &mut Vec<PinRequest>,
    source: &MemoryWritePort,
    port: &TargetMemoryWritePort,
)
    requires
        port.address_pins@.len() <= u32::MAX,
        port.data_pins@.len() <= u32::MAX,
        port.mask_pins@.len() <= u32::MAX,
    ensures
        request_views(final(requests)@) == request_views(old(requests)@) + write_requests(
            *source,
            *port,
        ),
{
    let ghost start = request_views(requests@);
    push_value_bits(requests, &port.address_pins, source.address, source.source);
    push_value_bits(requests, &port.data_pins, source.data, source.source);
    push_whole(requests, &port.clock.pin, source.clock.value, source.source);
    if let Some(enable) = source.enable {
        if let Some(pin) = &port.enable {
            push_whole(requests, &pin.pin, enable.value, source.source);
        }
    }
    if let Some(mask) = source.mask {
        push_value_bits(requests, &port.mask_pins, mask.value, source.source);
    }
    assert(request_views(requests@) =~= start + write_requests(*source, *port));
}

/// Lists what all ports ask of the pins.
pub fn collect_requests(
    reads: &Vec<MemoryReadPort>,
    writes: &Vec<MemoryWritePort>,
    target: &TargetMemory,
) -> (requests: Vec<PinRequest>)
    requires
        pins_numbered(*target),
    ensures
        request_views(requests@) == pin_requests(reads@, writes@, *target),
{
    let mut requests: Vec<PinRequest> = Vec::new();
    assert(request_views(requests@) =~= reads_requests(reads@, target.read_ports@, 0));
    let mut i: usize = 0;
    while i < reads.len() && i < target.read_ports.len()
        invariant
            pins_numbered(*target),
            i <= reads@.len(),
            i <= target.read_ports@.len(),
            request_views(requests@) == reads_requests(reads@, target.read_ports@, i as nat),
        decreases reads.len() - i,
    {
        push_read(&mut requests, &reads[i], &target.read_ports[i]);
        i += 1;
    }
    let ghost first = request_views(requests@);
    let mut j: usize = 0;
    assert(first + writes_requests(writes@, target.write_ports@, 0) =~= first);
    while j < writes.len() && j < target.write_ports.len()
        invariant
            pins_numbered(*target),
            j <= writes@.len(),
            j <= target.write_ports@.len(),
            request_views(requests@) == first + writes_requests(
                writes@,
                target.write_ports@,
                j as nat,
            ),
        decreases writes.len() - j,
    {
        push_write(&mut requests, &writes[j], &target.write_ports[j]);
        assert(request_views(requests@) =~= first + writes_requests(
            writes@,
            target.write_ports@,
            (j + 1) as nat,
        ));
        j += 1;
    }
    requests
}

/// Whether two requests for one pin are for the same thing.
pub open spec fn sources_match(module: ModuleView, left: PinSource, right: PinSource) -> bool {
    match (left, right) {
        (PinSource::Driven(a, i), PinSource::Driven(b, j)) => a == b && i == j,
        (PinSource::Driven(..), _) => false,
        (_, PinSource::Driven(..)) => false,
        _ => source_bit(left) == source_bit(right) && same_source(
            module,
            source_value(left),
            source_value(right),
        ),
    }
}

pub open spec fn source_bit(source: PinSource) -> int {
    match source {
        PinSource::Bit(_, bit) => bit as int,
        PinSource::Whole(_) => 0,
        PinSource::Driven(_, bit) => bit as int,
    }
}

pub open spec fn source_value(source: PinSource) -> ValueId {
    match source {
        PinSource::Bit(value, _) => value,
        PinSource::Whole(value) => value,
        PinSource::Driven(..) => arbitrary(),
    }
}

/// The first request for its pin.
pub open spec fn first_for_pin(requests: Seq<Request>, index: int) -> bool {
    forall|k: int| 0 <= k < index ==> (#[trigger] requests[k]).pin != requests[index].pin
}

/// All requests for a pin are for the same thing as the first one.
pub open spec fn requests_agree(module: ModuleView, requests: Seq<Request>) -> bool {
    forall|i: int, j: int|
        0 <= i < j < requests.len() && #[trigger] requests[i].pin == #[trigger] requests[j].pin
            && first_for_pin(requests, i) ==> sources_match(
            module,
            requests[i].source,
            requests[j].source,
        )
}

fn same_binding(module: &WordModule, left: PinSource, right: PinSource) -> (same: bool)
    ensures
        same == sources_match(module@, left, right),
{
    match (left, right) {
        (PinSource::Driven(a, i), PinSource::Driven(b, j)) => a.raw == b.raw && i == j,
        (PinSource::Bit(a, i), PinSource::Bit(b, j)) => i == j && same_value(module, a, b),
        (PinSource::Bit(a, i), PinSource::Whole(b)) => i == 0 && same_value(module, a, b),
        (PinSource::Whole(a), PinSource::Bit(b, j)) => j == 0 && same_value(module, a, b),
        (PinSource::Whole(a), PinSource::Whole(b)) => same_value(module, a, b),
        _ => false,
    }
}

fn first_place(requests: &Vec<PinRequest>, pin: &String, end: usize) -> (place: usize)
    requires
        end <= requests@.len(),
    ensures
        place <= end,
        forall|k: int| 0 <= k < place ==> (#[trigger] requests@[k]).pin@ != pin@,
        place < end ==> requests@[place as int].pin@ == pin@,
{
    let mut i: usize = 0;
    while i < end && requests[i].pin != *pin
        invariant
            i <= end <= requests@.len(),
            forall|k: int| 0 <= k < i ==> (#[trigger] requests@[k]).pin@ != pin@,
        decreases end - i,
    {
        i += 1;
    }
    i
}

/// Whether all ports ask the same of the pins that they share.
pub fn bindings_are_consistent(
    module: &WordModule,
    reads: &Vec<MemoryReadPort>,
    writes: &Vec<MemoryWritePort>,
    target: &TargetMemory,
) -> (consistent: bool)
    requires
        pins_numbered(*target),
    ensures
        consistent == requests_agree(module@, pin_requests(reads@, writes@, *target)),
{
    let requests = collect_requests(reads, writes, target);
    let ghost rows = request_views(requests@);
    let mut j: usize = 0;
    while j < requests.len()
        invariant
            rows == request_views(requests@),
            rows == pin_requests(reads@, writes@, *target),
            j <= requests@.len(),
            forall|i: int, k: int|
                0 <= i < k < j && #[trigger] rows[i].pin == #[trigger] rows[k].pin && first_for_pin(
                    rows,
                    i,
                ) ==> sources_match(module@, rows[i].source, rows[k].source),
        decreases requests.len() - j,
    {
        let place = first_place(&requests, &requests[j].pin, j);
        proof {
            assert forall|k: int| 0 <= k < place implies (#[trigger] rows[k]).pin
                != rows[j as int].pin by {
                assert(requests@[k].pin@ != requests@[j as int].pin@);
            }
            assert forall|i: int| 0 <= i < j && #[trigger] rows[i].pin == rows[j as int].pin
                && first_for_pin(rows, i) implies i == place by {
                if i > place {
                    assert(rows[place as int].pin == rows[i].pin);
                }
            }
        }
        if place < j {
            if !same_binding(module, requests[place].source, requests[j].source) {
                proof {
                    assert(rows[place as int].pin == rows[j as int].pin);
                    assert(first_for_pin(rows, place as int));
                }
                return false;
            }
        }
        j += 1;
    }
    true
}

proof fn lemma_reads_listed(
    reads: Seq<MemoryReadPort>,
    ports: Seq<TargetMemoryReadPort>,
    count: nat,
    i: int,
)
    requires
        0 <= i < count,
    ensures
        exists|start: int|
            0 <= start && start + read_requests(reads[i], ports[i]).len() <= reads_requests(
                reads,
                ports,
                count,
            ).len() && #[trigger] reads_requests(reads, ports, count).subrange(
                start,
                start + read_requests(reads[i], ports[i]).len(),
            ) == read_requests(reads[i], ports[i]),
    decreases count,
{
    let all = reads_requests(reads, ports, count);
    let below = reads_requests(reads, ports, (count - 1) as nat);
    let own = read_requests(reads[i], ports[i]);
    if i == count - 1 {
        let start = below.len() as int;
        assert(all.subrange(start, start + own.len()) =~= own);
    } else {
        lemma_reads_listed(reads, ports, (count - 1) as nat, i);
        let start = choose|start: int|
            0 <= start && start + own.len() <= below.len() && #[trigger] below.subrange(
                start,
                start + own.len(),
            ) == own;
        assert(all.subrange(start, start + own.len()) =~= below.subrange(start, start + own.len()));
    }
}

proof fn lemma_writes_listed(
    writes: Seq<MemoryWritePort>,
    ports: Seq<TargetMemoryWritePort>,
    count: nat,
    i: int,
)
    requires
        0 <= i < count,
    ensures
        exists|start: int|
            0 <= start && start + write_requests(writes[i], ports[i]).len() <= writes_requests(
                writes,
                ports,
                count,
            ).len() && #[trigger] writes_requests(writes, ports, count).subrange(
                start,
                start + write_requests(writes[i], ports[i]).len(),
            ) == write_requests(writes[i], ports[i]),
    decreases count,
{
    let all = writes_requests(writes, ports, count);
    let below = writes_requests(writes, ports, (count - 1) as nat);
    let own = write_requests(writes[i], ports[i]);
    if i == count - 1 {
        let start = below.len() as int;
        assert(all.subrange(start, start + own.len()) =~= own);
    } else {
        lemma_writes_listed(writes, ports, (count - 1) as nat, i);
        let start = choose|start: int|
            0 <= start && start + own.len() <= below.len() && #[trigger] below.subrange(
                start,
                start + own.len(),
            ) == own;
        assert(all.subrange(start, start + own.len()) =~= below.subrange(start, start + own.len()));
    }
}

/// What each port asks of the pins is listed in one piece.
pub proof fn lemma_requests_listed(
    reads: Seq<MemoryReadPort>,
    writes: Seq<MemoryWritePort>,
    target: TargetMemory,
)
    requires
        target.read_ports@.len() == reads.len(),
        target.write_ports@.len() == writes.len(),
    ensures
        forall|i: int|
            0 <= i < reads.len() ==> listed_at(
                pin_requests(reads, writes, target),
                #[trigger] read_requests(reads[i], target.read_ports@[i]),
            ),
        forall|i: int|
            0 <= i < writes.len() ==> listed_at(
                pin_requests(reads, writes, target),
                #[trigger] write_requests(writes[i], target.write_ports@[i]),
            ),
{
    let all = pin_requests(reads, writes, target);
    let first = reads_requests(reads, target.read_ports@, reads.len());
    let second = writes_requests(writes, target.write_ports@, writes.len());
    assert(all == first + second);
    assert forall|i: int| 0 <= i < reads.len() implies listed_at(
        all,
        #[trigger] read_requests(reads[i], target.read_ports@[i]),
    ) by {
        let own = read_requests(reads[i], target.read_ports@[i]);
        lemma_reads_listed(reads, target.read_ports@, reads.len(), i);
        let start = choose|start: int|
            0 <= start && start + own.len() <= first.len() && #[trigger] first.subrange(
                start,
                start + own.len(),
            ) == own;
        assert(all.subrange(start, start + own.len()) =~= first.subrange(start, start + own.len()));
    }
    assert forall|i: int| 0 <= i < writes.len() implies listed_at(
        all,
        #[trigger] write_requests(writes[i], target.write_ports@[i]),
    ) by {
        let own = write_requests(writes[i], target.write_ports@[i]);
        lemma_writes_listed(writes, target.write_ports@, writes.len(), i);
        let start = choose|start: int|
            0 <= start && start + own.len() <= second.len() && #[trigger] second.subrange(
                start,
                start + own.len(),
            ) == own;
        let shift = first.len() + start;
        assert(all.subrange(shift, shift + own.len()) =~= second.subrange(start, start + own.len()));
    }
}

/// Requests are among others, in one piece.
pub open spec fn listed_at(all: Seq<Request>, own: Seq<Request>) -> bool {
    exists|start: int|
        0 <= start && start + own.len() <= all.len() && #[trigger] all.subrange(
            start,
            start + own.len(),
        ) == own
}

} // verus!
