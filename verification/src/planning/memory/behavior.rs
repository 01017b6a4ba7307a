//! What the ports of a memory cell do, and that suiting cells do what memories do.

use super::bank::write_fits;
use super::clocks::writes_of;
use super::macros::{
    all_writes_apart, clock_suits, disabled_suits, enable_suits, lemma_collected_writes,
    mask_suits, read_during_write_suits, reads_of, suits, timing_suits,
};
use super::pieces::{enabled_or_free, lemma_one_bit, truth, written};
use super::pins::{
    lemma_requests_listed, pin_requests, read_requests, requests_agree, write_requests, PinSource,
    Request,
};
use super::target::{
    TargetMemory, TargetMemoryClock, TargetMemoryDisabledRead, TargetMemoryEdge,
    TargetMemoryEnable, TargetMemoryReadDuringWrite, TargetMemoryReadPort, TargetMemoryWritePort,
};
use crate::word::module::{
    DisabledRead, MemoryClock, MemoryReadPort, MemoryReadTiming, MemoryWritePort, ModuleView,
    ReadDuringWrite,
};
use crate::word::semantics::{lemma_eval_width, word_of, Env};
use crate::word::types::{BitVal, Edge, Enable, MemoryId};
use vstd::prelude::*;

verus! {

/// The levels of a cell's pins.
pub type Levels = spec_fn(Seq<char>) -> bool;

/// The levels of a row of pins, the first one lowest.
pub open spec fn pin_word(pins: Seq<String>, level: Levels) -> Seq<bool> {
    Seq::new(pins.len(), |i: int| level(pins[i]@))
}

/// A port of a cell is on: it has no enable pin, or the pin has its active level.
pub open spec fn port_on(enable: Option<TargetMemoryEnable>, level: Levels) -> bool {
    match enable {
        None => true,
        Some(enable) => if enable.active_high {
            level(enable.pin@)
        } else {
            !level(enable.pin@)
        },
    }
}

/// A clock pin goes over its active edge.
pub open spec fn pin_ticks(clock: TargetMemoryClock, before: Levels, after: Levels) -> bool {
    match clock.edge {
        TargetMemoryEdge::Rising => !before(clock.pin@) && after(clock.pin@),
        TargetMemoryEdge::Falling => before(clock.pin@) && !after(clock.pin@),
    }
}

/// What a write port stores upon a word when it is on.
pub open spec fn cell_stores(
    port: TargetMemoryWritePort,
    level: Levels,
    word: Seq<bool>,
) -> Seq<bool> {
    Seq::new(
        port.data_pins@.len(),
        |i: int|
            if port.mask_granularity == 0 || level(
                port.mask_pins@[i / port.mask_granularity as int]@,
            ) == port.mask_active_high {
                level(port.data_pins@[i]@)
            } else {
                word[i]
            },
    )
}

/// What a disabled read of a cell gives, where that is defined.
pub open spec fn cell_disabled(kind: TargetMemoryDisabledRead, held: Seq<bool>) -> Option<
    Seq<bool>,
> {
    match kind {
        TargetMemoryDisabledRead::Hold => Some(held),
        TargetMemoryDisabledRead::Undefined => None,
    }
}

/// What a read of a cell gives of a word that is written at once, where that is defined.
pub open spec fn cell_collides(
    kind: TargetMemoryReadDuringWrite,
    held: Seq<bool>,
    before: Seq<bool>,
    after: Seq<bool>,
) -> Option<Seq<bool>> {
    match kind {
        TargetMemoryReadDuringWrite::OldData => Some(before),
        TargetMemoryReadDuringWrite::NewData => Some(after),
        TargetMemoryReadDuringWrite::NoChange => Some(held),
        TargetMemoryReadDuringWrite::Undefined => None,
    }
}

/// A clock goes over its active edge.
pub open spec fn clock_ticks(module: ModuleView, clock: MemoryClock, before: Env, after: Env) -> bool {
    match clock.edge {
        Edge::Pos => !truth(module, before, clock.value) && truth(module, after, clock.value),
        Edge::Neg => truth(module, before, clock.value) && !truth(module, after, clock.value),
    }
}

/// What a disabled read gives, where that is defined.
pub open spec fn read_disabled(kind: DisabledRead, held: Seq<bool>) -> Option<Seq<bool>> {
    match kind {
        DisabledRead::Hold => Some(held),
        DisabledRead::Undefined => None,
    }
}

/// What a read gives of a word that is written at once, where that is defined.
pub open spec fn read_collides(
    kind: ReadDuringWrite,
    held: Seq<bool>,
    before: Seq<bool>,
    after: Seq<bool>,
) -> Option<Seq<bool>> {
    match kind {
        ReadDuringWrite::OldData => Some(before),
        ReadDuringWrite::NewData => Some(after),
        ReadDuringWrite::NoChange => Some(held),
        ReadDuringWrite::Undefined => None,
    }
}

/// A pin has the level that is asked for.
pub open spec fn pin_wired(module: ModuleView, env: Env, request: Request, level: Levels) -> bool {
    match request.source {
        PinSource::Bit(value, bit) => bit < word_of(module, env, value).len() ==> level(request.pin)
            == word_of(module, env, value)[bit as int],
        PinSource::Whole(value) => word_of(module, env, value) == seq![level(request.pin)],
        PinSource::Driven(signal, bit) => (env.signal)(signal.raw as int, bit as int) == level(
            request.pin,
        ),
    }
}

/// The pins of a cell have the levels of what the ports of a memory ask for.
pub open spec fn wired(module: ModuleView, env: Env, requests: Seq<Request>, level: Levels) -> bool {
    forall|r: int| 0 <= r < requests.len() ==> pin_wired(module, env, #[trigger] requests[r], level)
}

/// What the ports of a memory ask of the pins of a cell.
pub open spec fn cell_requests(module: ModuleView, memory: MemoryId, target: TargetMemory) -> Seq<
    Request,
> {
    pin_requests(
        reads_of(module.memory_reads, memory, module.memory_reads.len()),
        writes_of(module.memory_writes, memory, module.memory_writes.len()),
        target,
    )
}

proof fn lemma_pin_row(
    module: ModuleView,
    env: Env,
    requests: Seq<Request>,
    level: Levels,
    row: Seq<Request>,
    start: int,
)
    requires
        wired(module, env, requests, level),
        0 <= start,
        start + row.len() <= requests.len(),
        requests.subrange(start, start + row.len()) == row,
    ensures
        wired(module, env, row, level),
{
    assert forall|r: int| 0 <= r < row.len() implies pin_wired(
        module,
        env,
        #[trigger] row[r],
        level,
    ) by {
        assert(requests.subrange(start, start + row.len())[r] == requests[start + r]);
    }
}

/// A suiting cell writes as the memory does: each write port ticks when the clock of the
/// write does, is on exactly when the write is enabled, is given its address and data, and
/// stores what the write makes of a word.
#[verifier::rlimit(40)]
pub proof fn suiting_cells_write_alike(
    module: ModuleView,
    facts: Seq<Option<Seq<BitVal>>>,
    ranges: Seq<Option<(u128, u128)>>,
    memory: MemoryId,
    target: TargetMemory,
    i: int,
    earlier: Env,
    env: Env,
    before: Levels,
    level: Levels,
    word: Seq<bool>,
)
    requires
        module.wf(),
        suits(module, facts, ranges, memory, target),
        0 <= i < target.write_ports@.len(),
        wired(module, earlier, cell_requests(module, memory, target), before),
        wired(module, env, cell_requests(module, memory, target), level),
        write_fits(
            module,
            writes_of(module.memory_writes, memory, module.memory_writes.len())[i],
            module.memories[memory.raw as int].element_type.width as int,
        ),
        word.len() == module.memories[memory.raw as int].element_type.width,
    ensures
        ({
            let write = writes_of(module.memory_writes, memory, module.memory_writes.len())[i];
            let port = target.write_ports@[i];
            let address = word_of(module, env, write.address);
            &&& pin_ticks(port.clock, before, level) == clock_ticks(
                module,
                write.clock,
                earlier,
                env,
            )
            &&& port_on(port.enable, level) == enabled_or_free(module, env, write.enable)
            &&& port.address_pins@.len() <= address.len()
            &&& pin_word(port.address_pins@, level) == address.take(
                port.address_pins@.len() as int,
            )
            &&& pin_word(port.data_pins@, level) == word_of(module, env, write.data)
            &&& cell_stores(port, level, word) == written(
                module,
                env,
                word,
                write.data,
                write.mask,
            )
        }),
{
    let reads = reads_of(module.memory_reads, memory, module.memory_reads.len());
    let writes = writes_of(module.memory_writes, memory, module.memory_writes.len());
    let write = writes[i];
    let port = target.write_ports@[i];
    let requests = cell_requests(module, memory, target);
    lemma_collected_writes(module, memory, module.memory_writes.len());
    assert(module.write_port_ok(write));
    lemma_requests_listed(reads, writes, target);
    let own = write_requests(write, port);
    let start = choose|start: int|
        0 <= start && start + own.len() <= requests.len() && #[trigger] requests.subrange(
            start,
            start + own.len(),
        ) == own;
    lemma_pin_row(module, earlier, requests, before, own, start);
    lemma_pin_row(module, env, requests, level, own, start);
    lemma_eval_width(module, env, write.address.raw as int);
    lemma_eval_width(module, env, write.data.raw as int);
    let a = port.address_pins@.len() as int;
    let d = port.data_pins@.len() as int;
    assert forall|k: int| 0 <= k < a implies level(#[trigger] port.address_pins@[k]@) == word_of(
        module,
        env,
        write.address,
    )[k] by {
        assert(pin_wired(module, env, own[k], level));
    }
    assert forall|k: int| 0 <= k < d implies level(#[trigger] port.data_pins@[k]@) == word_of(
        module,
        env,
        write.data,
    )[k] by {
        assert(pin_wired(module, env, own[a + k], level));
    }
    assert(pin_word(port.address_pins@, level) =~= word_of(module, env, write.address).take(a));
    assert(pin_word(port.data_pins@, level) =~= word_of(module, env, write.data));
    assert(pin_wired(module, env, own[a + d], level));
    assert(pin_wired(module, earlier, own[a + d], before));
    lemma_one_bit(word_of(module, env, write.clock.value));
    lemma_one_bit(word_of(module, earlier, write.clock.value));
    if write.enable is Some {
        assert(own[a + d + 1].source == PinSource::Whole(write.enable->0.value));
        assert(pin_wired(module, env, own[a + d + 1], level));
        lemma_one_bit(word_of(module, env, write.enable->0.value));
    }
    if write.mask is Some {
        let mask = write.mask->0;
        let from = own.len() - port.mask_pins@.len();
        lemma_eval_width(module, env, mask.value.raw as int);
        assert forall|k: int| 0 <= k < port.mask_pins@.len() implies level(
            #[trigger] port.mask_pins@[k]@,
        ) == word_of(module, env, mask.value)[k] by {
            assert(own[from + k].source == PinSource::Bit(mask.value, k as u32));
            assert(pin_wired(module, env, own[from + k], level));
        }
        let whole = module.memories[memory.raw as int].element_type.width as int;
        let gran = mask.granularity as int;
        assert forall|k: int| 0 <= k < whole implies 0 <= #[trigger] (k / gran)
            < port.mask_pins@.len() by {
            vstd::arithmetic::div_mod::lemma_div_is_ordered(k, whole - 1, gran);
            vstd::arithmetic::div_mod::lemma_div_pos_is_pos(k, gran);
        }
    }
    assert(cell_stores(port, level, word) =~= written(module, env, word, write.data, write.mask));
}

/// A suiting cell reads as the memory does: each read port is given its address and hands
/// its data to the signal of the read; where the read is clocked, the port ticks with it, is
/// on exactly when it is enabled, and gives the same when it is not and when the word is
/// written at once.
#[verifier::rlimit(40)]
pub proof fn suiting_cells_read_alike(
    module: ModuleView,
    facts: Seq<Option<Seq<BitVal>>>,
    ranges: Seq<Option<(u128, u128)>>,
    memory: MemoryId,
    target: TargetMemory,
    i: int,
    earlier: Env,
    env: Env,
    before: Levels,
    level: Levels,
)
    requires
        module.wf(),
        suits(module, facts, ranges, memory, target),
        0 <= i < target.read_ports@.len(),
        wired(module, earlier, cell_requests(module, memory, target), before),
        wired(module, env, cell_requests(module, memory, target), level),
    ensures
        ({
            let read = reads_of(module.memory_reads, memory, module.memory_reads.len())[i];
            let port = target.read_ports@[i];
            let address = word_of(module, env, read.address);
            &&& port.address_pins@.len() <= address.len()
            &&& pin_word(port.address_pins@, level) == address.take(
                port.address_pins@.len() as int,
            )
            &&& pin_word(port.data_pins@, level) == Seq::new(
                module.memories[memory.raw as int].element_type.width as nat,
                |k: int| (env.signal)(read.data.raw as int, k),
            )
            &&& match read.timing {
                MemoryReadTiming::Asynchronous => port.clock is None && port_on(port.enable, level),
                MemoryReadTiming::Synchronous { clock, enable, disabled } => {
                    &&& port.clock matches Some(pin) && pin_ticks(pin, before, level) == clock_ticks(
                        module,
                        clock,
                        earlier,
                        env,
                    )
                    &&& port_on(port.enable, level) == enabled_or_free(module, env, enable)
                    &&& forall|held: Seq<bool>| #[trigger]
                        cell_disabled(port.disabled, held) == read_disabled(disabled, held)
                    &&& forall|held: Seq<bool>, old_word: Seq<bool>, new_word: Seq<bool>| #[trigger]
                        cell_collides(port.read_during_write, held, old_word, new_word)
                            == read_collides(read.read_during_write, held, old_word, new_word)
                },
            }
        }),
{
    let reads = reads_of(module.memory_reads, memory, module.memory_reads.len());
    let writes = writes_of(module.memory_writes, memory, module.memory_writes.len());
    let read = reads[i];
    let port = target.read_ports@[i];
    let requests = cell_requests(module, memory, target);
    lemma_requests_listed(reads, writes, target);
    let own = read_requests(read, port);
    let start = choose|start: int|
        0 <= start && start + own.len() <= requests.len() && #[trigger] requests.subrange(
            start,
            start + own.len(),
        ) == own;
    lemma_pin_row(module, earlier, requests, before, own, start);
    lemma_pin_row(module, env, requests, level, own, start);
    lemma_eval_width(module, env, read.address.raw as int);
    let a = port.address_pins@.len() as int;
    let d = port.data_pins@.len() as int;
    assert forall|k: int| 0 <= k < a implies level(#[trigger] port.address_pins@[k]@) == word_of(
        module,
        env,
        read.address,
    )[k] by {
        assert(pin_wired(module, env, own[k], level));
    }
    assert forall|k: int| 0 <= k < d implies level(#[trigger] port.data_pins@[k]@) == (env.signal)(
        read.data.raw as int,
        k,
    ) by {
        assert(pin_wired(module, env, own[a + k], level));
    }
    assert(pin_word(port.address_pins@, level) =~= word_of(module, env, read.address).take(a));
    assert(pin_word(port.data_pins@, level) =~= Seq::new(
        module.memories[memory.raw as int].element_type.width as nat,
        |k: int| (env.signal)(read.data.raw as int, k),
    ));
    if let MemoryReadTiming::Synchronous { clock, enable, disabled } = read.timing {
        assert(own[a + d].source == PinSource::Whole(clock.value));
        assert(pin_wired(module, env, own[a + d], level));
        assert(pin_wired(module, earlier, own[a + d], before));
        lemma_one_bit(word_of(module, env, clock.value));
        lemma_one_bit(word_of(module, earlier, clock.value));
        if enable is Some {
            assert(own[a + d + 1].source == PinSource::Whole(enable->0.value));
            assert(pin_wired(module, env, own[a + d + 1], level));
            lemma_one_bit(word_of(module, env, enable->0.value));
        }
    }
}

/// A bit that enables: none is needed, or it has the active level.
pub open spec fn bit_enables(enable: Option<Enable>, bit: bool) -> bool {
    match enable {
        None => true,
        Some(enable) => bit == enable.active_high,
    }
}

/// An enable pin does what an enable does, whatever the bit.
pub open spec fn enables_alike(source: Option<Enable>, target: Option<TargetMemoryEnable>) -> bool {
    &&& source is Some <==> target is Some
    &&& forall|bit: bool| #[trigger]
        bit_enables(source, bit) == port_on(target, |pin: Seq<char>| bit)
}

/// A bit goes over an active edge.
pub open spec fn edge_ticks(edge: Edge, before: bool, after: bool) -> bool {
    match edge {
        Edge::Pos => !before && after,
        Edge::Neg => before && !after,
    }
}

/// A clock pin does what a clock does, whatever the bits.
pub open spec fn ticks_alike(source: MemoryClock, target: TargetMemoryClock) -> bool {
    forall|before: bool, after: bool| #[trigger]
        edge_ticks(source.edge, before, after) == pin_ticks(
            target,
            |pin: Seq<char>| before,
            |pin: Seq<char>| after,
        )
}

/// Enable pins suit exactly where they do what the enables do.
pub proof fn enable_pins_suit_by_what_they_do(
    source: Option<Enable>,
    target: Option<TargetMemoryEnable>,
)
    ensures
        enable_suits(source, target) <==> enables_alike(source, target),
{
    if enables_alike(source, target) {
        assert(bit_enables(source, true) == port_on(target, |pin: Seq<char>| true));
    }
}

/// Clock pins suit exactly where they do what the clocks do.
pub proof fn clock_pins_suit_by_what_they_do(source: MemoryClock, target: TargetMemoryClock)
    ensures
        clock_suits(source, target) <==> ticks_alike(source, target),
{
    if ticks_alike(source, target) {
        assert(edge_ticks(source.edge, false, true) == (source.edge is Pos));
    }
}

/// What disabled reads give decides whether they suit.
pub proof fn disabled_reads_suit_by_what_they_give(
    source: DisabledRead,
    target: TargetMemoryDisabledRead,
)
    ensures
        disabled_suits(source, target) <==> forall|held: Seq<bool>| #[trigger]
            cell_disabled(target, held) == read_disabled(source, held),
{
    let held = Seq::<bool>::empty();
    if cell_disabled(target, held) == read_disabled(source, held) {
        assert(disabled_suits(source, target));
    }
}

/// What reads give of words that are written at once decides whether they suit.
pub proof fn colliding_reads_suit_by_what_they_give(
    source: ReadDuringWrite,
    target: TargetMemoryReadDuringWrite,
)
    ensures
        read_during_write_suits(source, target) <==> forall|
            held: Seq<bool>,
            before: Seq<bool>,
            after: Seq<bool>,
        | #[trigger]
            cell_collides(target, held, before, after) == read_collides(
                source,
                held,
                before,
                after,
            ),
{
    let held = seq![false];
    let before = seq![true];
    let after = Seq::<bool>::empty();
    assert(held[0] != before[0]);
    assert(after.len() != held.len());
    if cell_collides(target, held, before, after) == read_collides(source, held, before, after) {
        assert(read_during_write_suits(source, target));
    }
}

/// A read port of a cell does what a read does, pin by pin.
pub open spec fn reads_alike(
    module: ModuleView,
    width: int,
    read: MemoryReadPort,
    port: TargetMemoryReadPort,
) -> bool {
    &&& module.ty(read.address).width == port.address_pins@.len()
    &&& port.data_pins@.len() == width
    &&& match read.timing {
        MemoryReadTiming::Asynchronous => port.clock is None && port.enable is None,
        MemoryReadTiming::Synchronous { clock, enable, disabled } => {
            &&& port.clock matches Some(pin) && ticks_alike(clock, pin)
            &&& enables_alike(enable, port.enable)
            &&& forall|held: Seq<bool>| #[trigger]
                cell_disabled(port.disabled, held) == read_disabled(disabled, held)
            &&& forall|held: Seq<bool>, before: Seq<bool>, after: Seq<bool>| #[trigger]
                cell_collides(port.read_during_write, held, before, after) == read_collides(
                    read.read_during_write,
                    held,
                    before,
                    after,
                )
        },
    }
}

/// A write port of a cell does what a write does, pin by pin.
pub open spec fn writes_alike(
    module: ModuleView,
    write: MemoryWritePort,
    port: TargetMemoryWritePort,
) -> bool {
    &&& module.ty(write.address).width == port.address_pins@.len()
    &&& module.ty(write.data).width == port.data_pins@.len()
    &&& ticks_alike(write.clock, port.clock)
    &&& enables_alike(write.enable, port.enable)
    &&& match write.mask {
        None => port.mask_pins@.len() == 0 && port.mask_granularity == 0,
        Some(mask) => port.mask_pins@.len() == module.ty(mask.value).width && port.mask_granularity
            == mask.granularity && port.mask_active_high == mask.active_high,
    }
}

/// A cell whose ports do what those of a memory do, and whose pins are asked for nothing
/// twofold, suits it.
pub proof fn cells_that_do_alike_suit(
    module: ModuleView,
    facts: Seq<Option<Seq<BitVal>>>,
    ranges: Seq<Option<(u128, u128)>>,
    memory: MemoryId,
    target: TargetMemory,
)
    requires
        module.wf(),
        memory.raw < module.memories.len(),
        ({
            let reads = reads_of(module.memory_reads, memory, module.memory_reads.len());
            let writes = writes_of(module.memory_writes, memory, module.memory_writes.len());
            let shape = module.memories[memory.raw as int];
            &&& target.depth == shape.depth
            &&& target.word_width == shape.element_type.width
            &&& target.read_ports@.len() == reads.len()
            &&& target.write_ports@.len() == writes.len()
            &&& writes.len() > 0 ==> target.kind is Ram
            &&& forall|i: int|
                0 <= i < reads.len() ==> reads_alike(
                    module,
                    shape.element_type.width as int,
                    #[trigger] reads[i],
                    target.read_ports@[i],
                )
            &&& forall|i: int|
                0 <= i < writes.len() ==> writes_alike(
                    module,
                    #[trigger] writes[i],
                    target.write_ports@[i],
                )
            &&& all_writes_apart(module, facts, writes)
            &&& requests_agree(module, cell_requests(module, memory, target))
        }),
    ensures
        suits(module, facts, ranges, memory, target),
{
    let reads = reads_of(module.memory_reads, memory, module.memory_reads.len());
    let writes = writes_of(module.memory_writes, memory, module.memory_writes.len());
    let shape = module.memories[memory.raw as int];
    lemma_collected_writes(module, memory, module.memory_writes.len());
    lemma_collected_reads(module, memory, module.memory_reads.len());
    assert forall|i: int| 0 <= i < reads.len() implies super::macros::read_suits(
        module,
        ranges,
        shape,
        #[trigger] reads[i],
        target.read_ports@[i],
    ) by {
        let read = reads[i];
        let port = target.read_ports@[i];
        assert(module.read_port_ok(read));
        assert(reads_alike(module, shape.element_type.width as int, read, port));
        if let MemoryReadTiming::Synchronous { clock, enable, disabled } = read.timing {
            clock_pins_suit_by_what_they_do(clock, port.clock->0);
            enable_pins_suit_by_what_they_do(enable, port.enable);
            disabled_reads_suit_by_what_they_give(disabled, port.disabled);
            colliding_reads_suit_by_what_they_give(read.read_during_write, port.read_during_write);
        }
        assert(timing_suits(read.timing, port));
    }
    assert forall|i: int| 0 <= i < writes.len() implies super::macros::write_suits(
        module,
        ranges,
        shape,
        #[trigger] writes[i],
        target.write_ports@[i],
    ) by {
        let write = writes[i];
        let port = target.write_ports@[i];
        assert(module.write_port_ok(write));
        assert(writes_alike(module, write, port));
        clock_pins_suit_by_what_they_do(write.clock, port.clock);
        enable_pins_suit_by_what_they_do(write.enable, port.enable);
        assert(mask_suits(module, write.mask, port));
    }
}

proof fn lemma_collected_reads(module: ModuleView, memory: MemoryId, count: nat)
    requires
        module.wf(),
        count <= module.memory_reads.len(),
    ensures
        forall|i: int|
            0 <= i < reads_of(module.memory_reads, memory, count).len() ==> module.read_port_ok(
                #[trigger] reads_of(module.memory_reads, memory, count)[i],
            ),
    decreases count,
{
    if count > 0 {
        lemma_collected_reads(module, memory, (count - 1) as nat);
        assert(module.read_port_ok(module.memory_reads[count - 1]));
        let before = reads_of(module.memory_reads, memory, (count - 1) as nat);
        let found = reads_of(module.memory_reads, memory, count);
        assert forall|i: int| 0 <= i < found.len() implies module.read_port_ok(
            #[trigger] found[i],
        ) by {
            if i < before.len() {
                assert(module.read_port_ok(before[i]));
            }
        }
    }
}

} // verus!
