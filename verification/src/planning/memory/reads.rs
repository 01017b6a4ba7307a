//! Reads of a bank of registers.

use super::bank::{write_present, writes_present, Bank};
use super::clocks::{clocks_agree, same_clock};
use super::pieces::{
    address_match, and, enabled, enabled_or_free, lemma_one_bit, lemma_types_kept, lets_through,
    mask_active, normalize_enable, or, selects, truth, truth_or_free, unknown_value,
};
use super::storage::only_connected;
use crate::error::{Invariant, SynthError};
use crate::word::bits::{any_bit, nat_of};
use crate::word::emit::{lemma_stable, lemma_stable_trans, ran_out, stable};
use crate::word::module::{
    binary_type, DisabledRead, LValue, MemoryClock, MemoryReadPort, MemoryReadTiming,
    MemoryWriteMask, MemoryWritePort, ModuleView, ReadDuringWrite, WordModule,
};
use crate::word::resources::{kept, lemma_kept, lemma_kept_trans};
use crate::word::semantics::{binary_bits, lemma_eval_width, word_of, Env};
use crate::word::types::{BinaryOp, Enable, OpView, RegisterOp, SourceSpan, UnaryOp, ValueId};
use vstd::arithmetic::power2::pow2;
use crate::word::emit::exhausted;
use vstd::prelude::*;

verus! {

/// The last word that an address selects.
pub open spec fn last_selected(
    module: ModuleView,
    env: Env,
    address: ValueId,
    index: int,
    count: int,
) -> bool {
    &&& 0 <= index < count
    &&& selects(module, env, address, index as nat)
    &&& forall|j: int| index < j < count ==> !#[trigger] selects(module, env, address, j as nat)
}

/// Where every word has an address of its own, the address is the number of the
/// word that is selected.
pub proof fn addresses_select_words(
    module: ModuleView,
    env: Env,
    address: ValueId,
    count: int,
)
    requires
        count <= pow2(module.ty(address).width as nat),
        nat_of(word_of(module, env, address)) < count,
    ensures
        last_selected(module, env, address, nat_of(word_of(module, env, address)) as int, count),
        forall|i: int| #[trigger]
            last_selected(module, env, address, i, count) ==> i == nat_of(
                word_of(module, env, address),
            ),
{
    let place = pow2(module.ty(address).width as nat);
    assert forall|j: int| 0 <= j < count implies #[trigger] selects(
        module,
        env,
        address,
        j as nat,
    ) == (j == nat_of(word_of(module, env, address))) by {
        vstd::arithmetic::div_mod::lemma_small_mod(j as nat, place);
    }
}

pub open spec fn same_widths(module: ModuleView, words: Seq<ValueId>, width: int) -> bool {
    forall|i: int|
        0 <= i < words.len() ==> module.has(#[trigger] words[i]) && module.ty(words[i]).width
            == width
}

/// A value that stands for the word that an address selects.
pub open spec fn stands_selected(
    before: ModuleView,
    after: ModuleView,
    address: ValueId,
    words: Seq<ValueId>,
    count: int,
    value: ValueId,
) -> bool {
    forall|env: Env, i: int| #[trigger]
        last_selected(before, env, address, i, count) ==> word_of(after, env, value) == word_of(
            before,
            env,
            words[i],
        )
}

/// Chooses the word that an address selects, the last one of several; what comes
/// of an address that selects none is not known.
#[verifier::rlimit(30)]
pub fn select_word(
    module: &mut WordModule,
    address: ValueId,
    words: &Vec<ValueId>,
    source: SourceSpan,
) -> (result: Result<ValueId, SynthError>)
    requires
        old(module)@.wf(),
        old(module)@.has(address),
        words@.len() <= u32::MAX,
        words@.len() > 0,
        same_widths(old(module)@, words@, old(module)@.ty(words@[0]).width as int),
    ensures
        stable(old(module)@, final(module)@),
        result matches Err(error) ==> ran_out(final(module)@, error),
        result matches Ok(value) ==> {
            &&& final(module)@.has(value)
            &&& final(module)@.ty(value).width == old(module)@.ty(words@[0]).width
            &&& stands_selected(
                old(module)@,
                final(module)@,
                address,
                words@,
                words@.len() as int,
                value,
            )
        },
{
    let ghost start = module@;
    let ghost width = start.ty(words@[0]).width;
    assert(start.has(words@[0]));
    assert(start.value_ok(words@[0].raw as int));
    let ty = module.values[words[0].raw as usize].ty;
    let mut selected = match unknown_value(module, ty, source) {
        Ok(selected) => selected,
        Err(error) => return Err(error),
    };
    let mut i: usize = 0;
    while i < words.len()
        invariant
            start == old(module)@,
            stable(start, module@),
            start.has(address),
            words@.len() <= u32::MAX,
            width == start.ty(words@[0]).width,
            same_widths(start, words@, width as int),
            i <= words@.len(),
            module@.has(selected),
            module@.ty(selected).width == width,
            stands_selected(start, module@, address, words@, i as int, selected),
        decreases words.len() - i,
    {
        let ghost before = module@;
        let ghost was = selected;
        assert(start.has(words@[i as int]));
        proof {
            lemma_types_kept(start, before, address);
            lemma_types_kept(start, before, words@[i as int]);
        }
        let condition = match address_match(module, address, i as u32, source) {
            Ok(condition) => condition,
            Err(error) => {
                proof {
                    lemma_stable_trans(start, before, module@);
                }
                return Err(error);
            },
        };
        let ghost middle = module@;
        proof {
            lemma_stable_trans(start, before, middle);
            lemma_types_kept(start, middle, words@[i as int]);
            lemma_types_kept(before, middle, selected);
        }
        selected = match module.emit_mux(condition, words[i], selected, source) {
            Ok(selected) => selected,
            Err(error) => {
                proof {
                    lemma_stable_trans(start, middle, module@);
                }
                return Err(error);
            },
        };
        proof {
            let after = module@;
            lemma_stable_trans(start, middle, after);
            assert forall|env: Env, k: int| #[trigger]
                last_selected(start, env, address, k, i + 1) implies word_of(after, env, selected)
                == word_of(start, env, words@[k]) by {
                assert(word_of(before, env, address) == word_of(start, env, address));
                assert(word_of(middle, env, condition) == seq![
                    selects(before, env, address, i as nat),
                ]);
                assert(selects(before, env, address, i as nat) == selects(
                    start,
                    env,
                    address,
                    i as nat,
                ));
                assert(word_of(middle, env, words@[i as int]) == word_of(
                    start,
                    env,
                    words@[i as int],
                ));
                assert(word_of(middle, env, was) == word_of(before, env, was));
                if k < i {
                    let j = i as int;
                    assert(k < j < i + 1);
                    assert(!selects(start, env, address, j as nat));
                    assert(last_selected(start, env, address, k, i as int));
                }
            }
        }
        i += 1;
    }
    Ok(selected)
}

/// Two addresses are the same number.
pub open spec fn addresses_meet(
    module: ModuleView,
    env: Env,
    left: ValueId,
    right: ValueId,
) -> bool {
    any_bit(
        binary_bits(
            BinaryOp::Eq,
            word_of(module, env, left),
            module.ty(left),
            word_of(module, env, right),
            module.ty(right),
            binary_type(BinaryOp::Eq, module.ty(left), module.ty(right)),
        ),
    )
}

pub open spec fn mask_open(module: ModuleView, env: Env, mask: Option<MemoryWriteMask>) -> bool {
    match mask {
        Some(mask) => lets_through(module, env, mask),
        None => true,
    }
}

/// A write of something at an address.
pub open spec fn write_meets(
    module: ModuleView,
    env: Env,
    address: ValueId,
    write: MemoryWritePort,
) -> bool {
    addresses_meet(module, env, address, write.address) && enabled_or_free(
        module,
        env,
        write.enable,
    ) && mask_open(module, env, write.mask)
}

/// One of the first writes with a clock is at an address.
pub open spec fn collides(
    module: ModuleView,
    env: Env,
    address: ValueId,
    clock: MemoryClock,
    writes: Seq<MemoryWritePort>,
    count: nat,
) -> bool
    decreases count,
{
    if count == 0 {
        false
    } else {
        (clocks_agree(module, writes[count - 1].clock, clock) && write_meets(
            module,
            env,
            address,
            writes[count - 1],
        )) || collides(module, env, address, clock, writes, (count - 1) as nat)
    }
}

/// A condition that a write is at an address.
#[verifier::rlimit(30)]
fn put_meeting(module: &mut WordModule, read: &MemoryReadPort, write: &MemoryWritePort) -> (result:
    Result<ValueId, SynthError>)
    requires
        old(module)@.wf(),
        old(module)@.has(read.address),
        write_present(old(module)@, *write),
    ensures
        stable(old(module)@, final(module)@),
        result matches Err(error) ==> ran_out(final(module)@, error),
        result matches Ok(value) ==> {
            &&& final(module)@.has(value)
            &&& final(module)@.ty(value).width == 1
            &&& forall|env: Env| #[trigger]
                truth(final(module)@, env, value) == write_meets(
                    old(module)@,
                    env,
                    read.address,
                    *write,
                )
        },
{
    let ghost start = module@;
    let selected = match module.emit_binary(
        BinaryOp::Eq,
        read.address,
        write.address,
        read.source,
    ) {
        Ok(selected) => selected,
        Err(error) => return Err(error),
    };
    let ghost first = module@;
    let active: Option<ValueId> = match write.enable {
        None => None,
        Some(enable) => match normalize_enable(module, enable, write.source) {
            Ok(active) => Some(active),
            Err(error) => {
                proof {
                    lemma_stable_trans(start, first, module@);
                }
                return Err(error);
            },
        },
    };
    let ghost second = module@;
    proof {
        if write.enable is None {
            lemma_stable(first, second);
        }
        lemma_stable_trans(start, first, second);
        lemma_types_kept(first, second, selected);
    }
    let both = match and(module, selected, active, read.source) {
        Ok(both) => both,
        Err(error) => {
            proof {
                lemma_stable_trans(start, second, module@);
            }
            return Err(error);
        },
    };
    let ghost third = module@;
    proof {
        lemma_stable_trans(start, second, third);
    }
    let open: Option<ValueId> = match write.mask {
        None => None,
        Some(mask) => match mask_active(module, mask, write.source) {
            Ok(open) => Some(open),
            Err(error) => {
                proof {
                    lemma_stable_trans(start, third, module@);
                }
                return Err(error);
            },
        },
    };
    let ghost fourth = module@;
    proof {
        if write.mask is None {
            lemma_stable(third, fourth);
        }
        lemma_stable_trans(start, third, fourth);
        lemma_types_kept(third, fourth, both);
    }
    let result = and(module, both, open, read.source);
    proof {
        lemma_stable_trans(start, fourth, module@);
        if result is Ok {
            assert forall|env: Env| #[trigger] truth(module@, env, result->Ok_0) == write_meets(
                start,
                env,
                read.address,
                *write,
            ) by {
                assert(word_of(second, env, selected) == word_of(first, env, selected));
                assert(truth(second, env, selected) == addresses_meet(
                    start,
                    env,
                    read.address,
                    write.address,
                ));
                if write.enable is Some {
                    let enable = write.enable->0;
                    assert(truth(second, env, active->0) == enabled(first, env, enable));
                    assert(word_of(first, env, enable.value) == word_of(start, env, enable.value));
                }
                assert(truth(third, env, both) == (addresses_meet(
                    start,
                    env,
                    read.address,
                    write.address,
                ) && enabled_or_free(start, env, write.enable)));
                assert(word_of(fourth, env, both) == word_of(third, env, both));
                if write.mask is Some {
                    let mask = write.mask->0;
                    assert(truth(fourth, env, open->0) == lets_through(third, env, mask));
                    assert(word_of(third, env, mask.value) == word_of(start, env, mask.value));
                }
            }
        }
    }
    result
}

/// What meets an address stays so.
proof fn lemma_meeting_stable(
    before: ModuleView,
    after: ModuleView,
    env: Env,
    address: ValueId,
    write: MemoryWritePort,
)
    requires
        stable(before, after),
        before.has(address),
        write_present(before, write),
    ensures
        write_meets(after, env, address, write) == write_meets(before, env, address, write),
{
    assert(word_of(after, env, address) == word_of(before, env, address));
    assert(word_of(after, env, write.address) == word_of(before, env, write.address));
    if write.enable is Some {
        let value = write.enable->0.value;
        assert(word_of(after, env, value) == word_of(before, env, value));
    }
    if write.mask is Some {
        let value = write.mask->0.value;
        assert(word_of(after, env, value) == word_of(before, env, value));
    }
}

proof fn lemma_agreeing_stable(
    before: ModuleView,
    after: ModuleView,
    left: MemoryClock,
    right: MemoryClock,
)
    requires
        stable(before, after),
        before.has(left.value),
        before.has(right.value),
    ensures
        clocks_agree(after, left, right) == clocks_agree(before, left, right),
{
}

/// A condition that a write with the clock of a read is at its address; nothing,
/// where no write has that clock.
#[verifier::rlimit(30)]
fn read_collision(
    module: &mut WordModule,
    read: &MemoryReadPort,
    clock: MemoryClock,
    writes: &Vec<MemoryWritePort>,
) -> (result: Result<Option<ValueId>, SynthError>)
    requires
        old(module)@.wf(),
        old(module)@.has(read.address),
        old(module)@.has(clock.value),
        writes_present(old(module)@, writes@),
    ensures
        stable(old(module)@, final(module)@),
        result matches Err(error) ==> ran_out(final(module)@, error),
        result matches Ok(found) ==> match found {
            Some(value) => {
                &&& final(module)@.has(value)
                &&& final(module)@.ty(value).width == 1
                &&& forall|env: Env| #[trigger]
                    truth(final(module)@, env, value) == collides(
                        old(module)@,
                        env,
                        read.address,
                        clock,
                        writes@,
                        writes@.len(),
                    )
            },
            None => forall|env: Env| !#[trigger]
                collides(old(module)@, env, read.address, clock, writes@, writes@.len()),
        },
{
    let ghost start = module@;
    proof {
        lemma_stable(start, start);
    }
    let mut found: Option<ValueId> = None;
    let mut i: usize = 0;
    while i < writes.len()
        invariant
            start == old(module)@,
            stable(start, module@),
            start.has(read.address),
            start.has(clock.value),
            writes_present(start, writes@),
            i <= writes@.len(),
            match found {
                Some(value) => {
                    &&& module@.has(value)
                    &&& module@.ty(value).width == 1
                    &&& forall|env: Env| #[trigger]
                        truth(module@, env, value) == collides(
                            start,
                            env,
                            read.address,
                            clock,
                            writes@,
                            i as nat,
                        )
                },
                None => forall|env: Env| !#[trigger]
                    collides(start, env, read.address, clock, writes@, i as nat),
            },
        decreases writes.len() - i,
    {
        let write = &writes[i];
        let ghost before = module@;
        let ghost was = found;
        assert(write_present(start, writes@[i as int]));
        proof {
            lemma_agreeing_stable(start, before, write.clock, clock);
        }
        if same_clock(module, write.clock, clock) {
            let meeting = match put_meeting(module, read, write) {
                Ok(meeting) => meeting,
                Err(error) => {
                    proof {
                        lemma_stable_trans(start, before, module@);
                    }
                    return Err(error);
                },
            };
            let ghost middle = module@;
            proof {
                lemma_stable_trans(start, before, middle);
                if found is Some {
                    lemma_types_kept(before, middle, found->0);
                }
            }
            match or(module, found, meeting, read.source) {
                Ok(value) => {
                    found = Some(value);
                },
                Err(error) => {
                    proof {
                        lemma_stable_trans(start, middle, module@);
                    }
                    return Err(error);
                },
            }
            proof {
                lemma_stable_trans(start, middle, module@);
                assert forall|env: Env| #[trigger] truth(module@, env, found->0) == collides(
                    start,
                    env,
                    read.address,
                    clock,
                    writes@,
                    (i + 1) as nat,
                ) by {
                    lemma_meeting_stable(start, before, env, read.address, *write);
                    assert(truth(middle, env, meeting) == write_meets(
                        before,
                        env,
                        read.address,
                        *write,
                    ));
                    if was is Some {
                        assert(word_of(middle, env, was->0) == word_of(before, env, was->0));
                        assert(truth(before, env, was->0) == collides(
                            start,
                            env,
                            read.address,
                            clock,
                            writes@,
                            i as nat,
                        ));
                    } else {
                        assert(!collides(start, env, read.address, clock, writes@, i as nat));
                    }
                }
            }
        } else {
            proof {
                assert forall|env: Env|
                    #![trigger collides(start, env, read.address, clock, writes@, (i + 1) as nat)]
                    collides(start, env, read.address, clock, writes@, (i + 1) as nat) == collides(
                        start,
                        env,
                        read.address,
                        clock,
                        writes@,
                        i as nat,
                    ) by {}
                if found is Some {
                    assert forall|env: Env| #[trigger] truth(module@, env, found->0) == collides(
                        start,
                        env,
                        read.address,
                        clock,
                        writes@,
                        (i + 1) as nat,
                    ) by {
                        assert(truth(before, env, was->0) == collides(
                            start,
                            env,
                            read.address,
                            clock,
                            writes@,
                            i as nat,
                        ));
                    }
                }
            }
        }
        i += 1;
    }
    Ok(found)
}

/// The words that a read sees: those to come, where it sees new data with its
/// clock.
pub open spec fn seen_word(
    module: ModuleView,
    bank: Bank,
    clock: MemoryClock,
    mode: ReadDuringWrite,
    index: int,
) -> ValueId {
    if mode is NewData && clocks_agree(module, bank.clocks@[index], clock) {
        bank.next@[index]
    } else {
        bank.words@[index]
    }
}

fn seen_words(module: &WordModule, bank: &Bank, clock: MemoryClock, mode: ReadDuringWrite)
    -> (words: Vec<ValueId>)
    requires
        bank.words@.len() == bank.next@.len(),
        bank.words@.len() == bank.clocks@.len(),
    ensures
        words@.len() == bank.words@.len(),
        forall|i: int|
            0 <= i < words@.len() ==> #[trigger] words@[i] == seen_word(
                module@,
                *bank,
                clock,
                mode,
                i,
            ),
{
    let mut words: Vec<ValueId> = Vec::new();
    let mut i: usize = 0;
    while i < bank.words.len()
        invariant
            bank.words@.len() == bank.next@.len(),
            bank.words@.len() == bank.clocks@.len(),
            i <= bank.words@.len(),
            words@.len() == i,
            forall|k: int|
                0 <= k < i ==> #[trigger] words@[k] == seen_word(module@, *bank, clock, mode, k),
        decreases bank.words.len() - i,
    {
        let forward: bool = match mode {
            ReadDuringWrite::NewData => same_clock(module, bank.clocks[i], clock),
            _ => false,
        };
        words.push(
            if forward {
                bank.next[i]
            } else {
                bank.words[i]
            },
        );
        i += 1;
    }
    words
}

/// Whether a read gives way to a write: it is active, and its mode does not say
/// what is read.
pub open spec fn gives_way(
    module: ModuleView,
    env: Env,
    read: MemoryReadPort,
    clock: MemoryClock,
    enable: Option<Enable>,
    writes: Seq<MemoryWritePort>,
) -> bool {
    (read.read_during_write is NoChange || read.read_during_write is Undefined) && collides(
        module,
        env,
        read.address,
        clock,
        writes,
        writes.len(),
    ) && enabled_or_free(module, env, enable)
}

/// What a synchronous read takes into its register.
pub open spec fn data_read(
    start: ModuleView,
    module: ModuleView,
    bank: Bank,
    read: MemoryReadPort,
    clock: MemoryClock,
    enable: Option<Enable>,
    disabled: DisabledRead,
    writes: Seq<MemoryWritePort>,
    data: ValueId,
) -> bool {
    forall|env: Env, i: int| #[trigger]
        last_selected(start, env, read.address, i, bank.words@.len() as int) && (
        disabled is Undefined ==> enabled_or_free(start, env, enable)) && (
        read.read_during_write is Undefined ==> !gives_way(
            start,
            env,
            read,
            clock,
            enable,
            writes,
        )) ==> word_of(module, env, data) == word_of(
            start,
            env,
            seen_word(start, bank, clock, read.read_during_write, i),
        )
}

/// When a synchronous read takes something into its register.
pub open spec fn enable_read(
    start: ModuleView,
    module: ModuleView,
    read: MemoryReadPort,
    clock: MemoryClock,
    enable: Option<Enable>,
    disabled: DisabledRead,
    writes: Seq<MemoryWritePort>,
    effective: Option<Enable>,
) -> bool {
    forall|env: Env| #[trigger]
        enabled_or_free(module, env, effective) == ((disabled is Hold ==> enabled_or_free(
            start,
            env,
            enable,
        )) && (read.read_during_write is NoChange ==> !gives_way(
            start,
            env,
            read,
            clock,
            enable,
            writes,
        )))
}

/// The value that a read becomes.
pub open spec fn read_made(
    start: ModuleView,
    module: ModuleView,
    bank: Bank,
    read: MemoryReadPort,
    writes: Seq<MemoryWritePort>,
    value: ValueId,
) -> bool {
    match read.timing {
        MemoryReadTiming::Asynchronous => stands_selected(
            start,
            module,
            read.address,
            bank.words@,
            bank.words@.len() as int,
            value,
        ),
        MemoryReadTiming::Synchronous { clock, enable, disabled } => {
            &&& module.op_of(value) matches Some(OpView::Register(register))
            &&& register.name == start.signals[read.data.raw as int].name
            &&& register.clock == clock.value
            &&& register.edge == clock.edge
            &&& register.resets == Seq::<crate::word::types::Reset>::empty()
            &&& data_read(
                start,
                module,
                bank,
                read,
                clock,
                enable,
                disabled,
                writes,
                register.d,
            )
            &&& enable_read(
                start,
                module,
                read,
                clock,
                enable,
                disabled,
                writes,
                register.enable,
            )
        },
    }
}

/// What a read refers to is there.
pub open spec fn read_present(module: ModuleView, read: MemoryReadPort) -> bool {
    &&& module.has(read.address)
    &&& read.data.raw < module.signals.len()
    &&& read.timing matches MemoryReadTiming::Synchronous { clock, enable, disabled } ==> {
        &&& module.has(clock.value)
        &&& enable is Some ==> module.has(enable->0.value)
    }
}

pub open spec fn read_fits(module: ModuleView, read: MemoryReadPort) -> bool {
    read.timing matches MemoryReadTiming::Synchronous { clock, enable, disabled } ==> {
        &&& module.ty(clock.value).width == 1
        &&& enable is Some ==> module.ty(enable->0.value).width == 1
    }
}

pub open spec fn bank_present(module: ModuleView, bank: Bank) -> bool {
    &&& 0 < bank.words@.len() <= u32::MAX
    &&& bank.next@.len() == bank.words@.len()
    &&& bank.clocks@.len() == bank.words@.len()
    &&& same_widths(module, bank.words@, module.ty(bank.words@[0]).width as int)
    &&& same_widths(module, bank.next@, module.ty(bank.words@[0]).width as int)
}

/// A word where a condition is as wanted, and an unknown word elsewhere.
fn put_unless_unknown(
    module: &mut WordModule,
    condition: ValueId,
    wanted: bool,
    word: ValueId,
    source: SourceSpan,
) -> (result: Result<ValueId, SynthError>)
    requires
        old(module)@.wf(),
        old(module)@.has(condition),
        old(module)@.ty(condition).width == 1,
        old(module)@.has(word),
    ensures
        stable(old(module)@, final(module)@),
        result matches Err(error) ==> ran_out(final(module)@, error),
        result matches Ok(value) ==> {
            &&& final(module)@.has(value)
            &&& final(module)@.ty(value).width == old(module)@.ty(word).width
            &&& forall|env: Env|
                truth(old(module)@, env, condition) == wanted ==> #[trigger] word_of(
                    final(module)@,
                    env,
                    value,
                ) == word_of(old(module)@, env, word)
        },
{
    let ghost start = module@;
    assert(start.value_ok(word.raw as int));
    let ty = module.values[word.raw as usize].ty;
    let unknown = match unknown_value(module, ty, source) {
        Ok(unknown) => unknown,
        Err(error) => return Err(error),
    };
    let ghost middle = module@;
    proof {
        lemma_types_kept(start, middle, condition);
        lemma_types_kept(start, middle, word);
    }
    let value = if wanted {
        module.emit_mux(condition, word, unknown, source)
    } else {
        module.emit_mux(condition, unknown, word, source)
    };
    proof {
        lemma_stable_trans(start, middle, module@);
        if value is Ok {
            assert forall|env: Env| truth(start, env, condition) == wanted implies #[trigger] word_of(
                module@,
                env,
                value->Ok_0,
            ) == word_of(start, env, word) by {
                lemma_eval_width(start, env, condition.raw as int);
                lemma_one_bit(word_of(start, env, condition));
                assert(word_of(middle, env, condition) == word_of(start, env, condition));
                assert(word_of(middle, env, word) == word_of(start, env, word));
            }
        }
    }
    value
}

/// An enable that is not active where a condition holds.
fn put_unless(
    module: &mut WordModule,
    enable: Option<Enable>,
    condition: ValueId,
    source: SourceSpan,
) -> (result: Result<Enable, SynthError>)
    requires
        old(module)@.wf(),
        old(module)@.has(condition),
        enable is Some ==> old(module)@.has(enable->0.value) && old(module)@.ty(
            enable->0.value,
        ).width == 1,
    ensures
        stable(old(module)@, final(module)@),
        result matches Err(error) ==> ran_out(final(module)@, error),
        result matches Ok(made) ==> {
            &&& final(module)@.has(made.value)
            &&& final(module)@.ty(made.value).width == 1
            &&& forall|env: Env| #[trigger]
                enabled(final(module)@, env, made) == (enabled_or_free(old(module)@, env, enable)
                    && !truth(old(module)@, env, condition))
        },
{
    let ghost start = module@;
    assert(start.value_ok(condition.raw as int));
    let free = match module.emit_unary(UnaryOp::LogicalNot, condition, source) {
        Ok(free) => free,
        Err(error) => return Err(error),
    };
    let ghost middle = module@;
    proof {
        assert forall|env: Env| #[trigger] truth(middle, env, free) == !truth(
            start,
            env,
            condition,
        ) by {
            lemma_one_bit(word_of(middle, env, free));
        }
    }
    match enable {
        None => Ok(Enable { value: free, active_high: true }),
        Some(held) => {
            proof {
                lemma_types_kept(start, middle, held.value);
            }
            let active = match normalize_enable(module, held, source) {
                Ok(active) => active,
                Err(error) => {
                    proof {
                        lemma_stable_trans(start, middle, module@);
                    }
                    return Err(error);
                },
            };
            let ghost third = module@;
            proof {
                lemma_stable_trans(start, middle, third);
                lemma_types_kept(middle, third, free);
            }
            let both = match and(module, active, Some(free), source) {
                Ok(both) => both,
                Err(error) => {
                    proof {
                        lemma_stable_trans(start, third, module@);
                    }
                    return Err(error);
                },
            };
            let made = Enable { value: both, active_high: true };
            proof {
                lemma_stable_trans(start, third, module@);
                assert forall|env: Env| #[trigger] enabled(module@, env, made) == (enabled(
                    start,
                    env,
                    held,
                ) && !truth(start, env, condition)) by {
                    assert(truth(module@, env, both) == (truth(third, env, active)
                        && truth_or_free(third, env, Some(free))));
                    assert(truth(third, env, active) == enabled(middle, env, held));
                    assert(word_of(middle, env, held.value) == word_of(start, env, held.value));
                    assert(word_of(third, env, free) == word_of(middle, env, free));
                    assert(truth(middle, env, free) == !truth(start, env, condition));
                }
            }
            Ok(made)
        },
    }
}

/// The data and the enable of the register of a synchronous read.
#[verifier::rlimit(60)]
#[verifier::spinoff_prover]
fn put_synchronous(
    module: &mut WordModule,
    bank: &Bank,
    writes: &Vec<MemoryWritePort>,
    read: &MemoryReadPort,
    clock: MemoryClock,
    enable: Option<Enable>,
    disabled: DisabledRead,
) -> (result: Result<(ValueId, Option<Enable>), SynthError>)
    requires
        old(module)@.wf(),
        bank_present(old(module)@, *bank),
        writes_present(old(module)@, writes@),
        old(module)@.has(read.address),
        old(module)@.has(clock.value),
        enable is Some ==> old(module)@.has(enable->0.value) && old(module)@.ty(
            enable->0.value,
        ).width == 1,
    ensures
        stable(old(module)@, final(module)@),
        result matches Err(error) ==> ran_out(final(module)@, error),
        result matches Ok(made) ==> {
            &&& final(module)@.has(made.0)
            &&& made.1 is Some ==> final(module)@.has(made.1->0.value) && final(module)@.ty(
                made.1->0.value,
            ).width == 1
            &&& data_read(
                old(module)@,
                final(module)@,
                *bank,
                *read,
                clock,
                enable,
                disabled,
                writes@,
                made.0,
            )
            &&& enable_read(
                old(module)@,
                final(module)@,
                *read,
                clock,
                enable,
                disabled,
                writes@,
                made.1,
            )
        },
{
    let ghost start = module@;
    let ghost count = bank.words@.len() as int;
    let mode = read.read_during_write;
    let words = seen_words(module, bank, clock, mode);
    proof {
        lemma_stable(start, start);
        assert(same_widths(start, words@, start.ty(words@[0]).width as int)) by {
            let width = start.ty(bank.words@[0]).width as int;
            assert forall|i: int| 0 <= i < words@.len() implies start.has(#[trigger] words@[i])
                && start.ty(words@[i]).width == width by {
                assert(words@[i] == seen_word(start, *bank, clock, mode, i));
                assert(start.has(bank.words@[i]));
                assert(start.has(bank.next@[i]));
            }
            assert(start.ty(words@[0]).width == width);
        }
    }
    let active: Option<ValueId> = match enable {
        None => None,
        Some(held) => match normalize_enable(module, held, read.source) {
            Ok(active) => Some(active),
            Err(error) => return Err(error),
        },
    };
    let ghost first = module@;
    proof {
        assert(stable(start, first));
        assert forall|i: int| 0 <= i < words@.len() implies first.has(#[trigger] words@[i])
            && first.ty(words@[i]).width == start.ty(words@[0]).width by {
            assert(start.has(words@[i]));
            lemma_types_kept(start, first, words@[i]);
        }
        assert(start.has(words@[0]));
        lemma_types_kept(start, first, words@[0]);
        assert forall|env: Env| #[trigger] truth_or_free(first, env, active) == enabled_or_free(
            start,
            env,
            enable,
        ) by {
            if enable is Some {
                assert(truth(first, env, active->0) == enabled(start, env, enable->0));
            }
        }
    }
    let selected = match select_word(module, read.address, &words, read.source) {
        Ok(selected) => selected,
        Err(error) => {
            proof {
                lemma_stable_trans(start, first, module@);
            }
            return Err(error);
        },
    };
    let ghost second = module@;
    proof {
        lemma_stable_trans(start, first, second);
        if active is Some {
            lemma_types_kept(first, second, active->0);
        }
        assert forall|env: Env, i: int| #[trigger]
            last_selected(start, env, read.address, i, count) implies word_of(second, env, selected)
            == word_of(start, env, words@[i]) by {
            assert(word_of(first, env, read.address) == word_of(start, env, read.address));
            lemma_types_kept(start, first, read.address);
            assert(forall|j: nat| #[trigger]
                selects(first, env, read.address, j) == selects(start, env, read.address, j));
            assert(last_selected(first, env, read.address, i, count));
            assert(start.has(words@[i]));
            assert(word_of(first, env, words@[i]) == word_of(start, env, words@[i]));
        }
    }
    let mut data = selected;
    let mut effective: Option<Enable> = enable;
    if let DisabledRead::Undefined = disabled {
        effective = None;
        if let Some(held) = active {
            data = match put_unless_unknown(module, held, true, selected, read.source) {
                Ok(data) => data,
                Err(error) => {
                    proof {
                        lemma_stable_trans(start, second, module@);
                    }
                    return Err(error);
                },
            };
        }
    }
    let ghost third = module@;
    proof {
        if third == second {
            lemma_stable(second, third);
        }
        lemma_stable_trans(start, second, third);
        assert forall|env: Env, i: int| #[trigger]
            last_selected(start, env, read.address, i, count) && (disabled is Undefined
            ==> enabled_or_free(start, env, enable)) implies word_of(third, env, data) == word_of(
            start,
            env,
            words@[i],
        ) by {
            assert(word_of(second, env, selected) == word_of(start, env, words@[i]));
            if disabled is Undefined && active is Some {
                assert(truth_or_free(first, env, active) == enabled_or_free(start, env, enable));
                assert(word_of(second, env, active->0) == word_of(first, env, active->0));
                assert(truth(second, env, active->0));
            }
        }
        assert forall|env: Env| #[trigger] enabled_or_free(third, env, effective) == (disabled is Hold
            ==> enabled_or_free(start, env, enable)) by {
            if effective is Some {
                let value = effective->0.value;
                assert(word_of(third, env, value) == word_of(start, env, value));
            }
        }
        if effective is Some {
            lemma_types_kept(start, third, effective->0.value);
        }
    }
    let watched: bool = match mode {
        ReadDuringWrite::NoChange => true,
        ReadDuringWrite::Undefined => true,
        _ => false,
    };
    if !watched {
        return Ok((data, effective));
    }
    proof {
        assert forall|i: int| 0 <= i < writes@.len() implies write_present(
            third,
            #[trigger] writes@[i],
        ) by {
            assert(write_present(start, writes@[i]));
        }
    }
    let found = match read_collision(module, read, clock, writes) {
        Ok(found) => found,
        Err(error) => {
            proof {
                lemma_stable_trans(start, third, module@);
            }
            return Err(error);
        },
    };
    let ghost fourth = module@;
    proof {
        lemma_stable_trans(start, third, fourth);
        assert forall|env: Env|
            #![trigger collides(start, env, read.address, clock, writes@, writes@.len())]
            collides(third, env, read.address, clock, writes@, writes@.len()) == collides(
                start,
                env,
                read.address,
                clock,
                writes@,
                writes@.len(),
            ) by {
            lemma_collides_stable(
                start,
                third,
                env,
                read.address,
                clock,
                writes@,
                writes@.len(),
            );
        }
        if effective is Some {
            lemma_types_kept(third, fourth, effective->0.value);
        }
        assert forall|env: Env| #[trigger] enabled_or_free(fourth, env, effective)
            == enabled_or_free(third, env, effective) by {
            if effective is Some {
                let value = effective->0.value;
                assert(word_of(fourth, env, value) == word_of(third, env, value));
            }
        }
    }
    let meeting = match found {
        Some(meeting) => meeting,
        None => {
            proof {
                assert forall|env: Env| !#[trigger] gives_way(
                    start,
                    env,
                    *read,
                    clock,
                    enable,
                    writes@,
                ) by {
                    assert(!collides(third, env, read.address, clock, writes@, writes@.len()));
                    assert(!collides(start, env, read.address, clock, writes@, writes@.len()));
                }
                assert forall|env: Env, i: int| #[trigger]
                    last_selected(start, env, read.address, i, count) && (disabled is Undefined
                    ==> enabled_or_free(start, env, enable)) implies word_of(fourth, env, data)
                    == word_of(start, env, words@[i]) by {
                    assert(word_of(fourth, env, data) == word_of(third, env, data));
                }
            }
            return Ok((data, effective));
        },
    };
    proof {
        if active is Some {
            lemma_types_kept(second, fourth, active->0);
        }
    }
    let collision = match and(module, meeting, active, read.source) {
        Ok(collision) => collision,
        Err(error) => {
            proof {
                lemma_stable_trans(start, fourth, module@);
            }
            return Err(error);
        },
    };
    let ghost fifth = module@;
    proof {
        lemma_stable_trans(start, fourth, fifth);
        assert forall|env: Env| #[trigger] truth(fifth, env, collision) == gives_way(
            start,
            env,
            *read,
            clock,
            enable,
            writes@,
        ) by {
            assert(truth(fourth, env, meeting) == collides(
                third,
                env,
                read.address,
                clock,
                writes@,
                writes@.len(),
            ));
            assert(collides(start, env, read.address, clock, writes@, writes@.len()) == collides(
                third,
                env,
                read.address,
                clock,
                writes@,
                writes@.len(),
            ));
            assert(truth_or_free(first, env, active) == enabled_or_free(start, env, enable));
            if active is Some {
                assert(word_of(fourth, env, active->0) == word_of(third, env, active->0));
                assert(word_of(third, env, active->0) == word_of(second, env, active->0));
                assert(word_of(second, env, active->0) == word_of(first, env, active->0));
            }
        }
        if effective is Some {
            lemma_types_kept(fourth, fifth, effective->0.value);
        }
        lemma_types_kept(fourth, fifth, data);
        assert forall|env: Env| #[trigger] word_of(fifth, env, data) == word_of(third, env, data) by {
            assert(word_of(fourth, env, data) == word_of(third, env, data));
        }
        assert forall|env: Env| #[trigger] enabled_or_free(fifth, env, effective)
            == enabled_or_free(third, env, effective) by {
            assert(enabled_or_free(fourth, env, effective) == enabled_or_free(
                third,
                env,
                effective,
            ));
            if effective is Some {
                let value = effective->0.value;
                assert(word_of(fifth, env, value) == word_of(fourth, env, value));
            }
        }
    }
    if let ReadDuringWrite::NoChange = mode {
        let made = match put_unless(module, effective, collision, read.source) {
            Ok(made) => made,
            Err(error) => {
                proof {
                    lemma_stable_trans(start, fifth, module@);
                }
                return Err(error);
            },
        };
        proof {
            lemma_stable_trans(start, fifth, module@);
            assert forall|env: Env, i: int| #[trigger]
                last_selected(start, env, read.address, i, count) && (disabled is Undefined
                ==> enabled_or_free(start, env, enable)) implies word_of(module@, env, data)
                == word_of(start, env, words@[i]) by {
                assert(word_of(module@, env, data) == word_of(fifth, env, data));
            }
            assert forall|env: Env| #[trigger] enabled_or_free(module@, env, Some(made)) == ((
            disabled is Hold ==> enabled_or_free(start, env, enable)) && !gives_way(
                start,
                env,
                *read,
                clock,
                enable,
                writes@,
            )) by {
                assert(enabled(module@, env, made) == (enabled_or_free(fifth, env, effective)
                    && !truth(fifth, env, collision)));
                assert(enabled_or_free(third, env, effective) == (disabled is Hold
                    ==> enabled_or_free(start, env, enable)));
            }
        }
        return Ok((data, Some(made)));
    }
    let ghost was = data;
    data = match put_unless_unknown(module, collision, false, data, read.source) {
        Ok(data) => data,
        Err(error) => {
            proof {
                lemma_stable_trans(start, fifth, module@);
            }
            return Err(error);
        },
    };
    proof {
        lemma_stable_trans(start, fifth, module@);
        assert forall|env: Env, i: int| #[trigger]
            last_selected(start, env, read.address, i, count) && (disabled is Undefined
            ==> enabled_or_free(start, env, enable)) && !gives_way(
            start,
            env,
            *read,
            clock,
            enable,
            writes@,
        ) implies word_of(module@, env, data) == word_of(start, env, words@[i]) by {
            assert(!truth(fifth, env, collision));
            assert(word_of(fifth, env, was) == word_of(third, env, was));
        }
        if effective is Some {
            lemma_types_kept(fifth, module@, effective->0.value);
        }
        assert forall|env: Env| #[trigger] enabled_or_free(module@, env, effective) == (disabled is Hold
            ==> enabled_or_free(start, env, enable)) by {
            assert(enabled_or_free(fifth, env, effective) == enabled_or_free(
                third,
                env,
                effective,
            ));
            if effective is Some {
                let value = effective->0.value;
                assert(word_of(module@, env, value) == word_of(fifth, env, value));
            }
        }
    }
    Ok((data, effective))
}

proof fn lemma_collides_stable(
    before: ModuleView,
    after: ModuleView,
    env: Env,
    address: ValueId,
    clock: MemoryClock,
    writes: Seq<MemoryWritePort>,
    count: nat,
)
    requires
        stable(before, after),
        before.has(address),
        before.has(clock.value),
        writes_present(before, writes),
        count <= writes.len(),
    ensures
        collides(after, env, address, clock, writes, count) == collides(
            before,
            env,
            address,
            clock,
            writes,
            count,
        ),
    decreases count,
{
    if count > 0 {
        lemma_collides_stable(before, after, env, address, clock, writes, (count - 1) as nat);
        let write = writes[count - 1];
        assert(write_present(before, write));
        lemma_meeting_stable(before, after, env, address, write);
        lemma_agreeing_stable(before, after, write.clock, clock);
    }
}

/// The value of a read.
#[verifier::rlimit(40)]
fn put_read(
    module: &mut WordModule,
    bank: &Bank,
    writes: &Vec<MemoryWritePort>,
    read: &MemoryReadPort,
) -> (result: Result<ValueId, SynthError>)
    requires
        old(module)@.wf(),
        bank_present(old(module)@, *bank),
        writes_present(old(module)@, writes@),
        read_present(old(module)@, *read),
    ensures
        stable(old(module)@, final(module)@),
        result matches Err(error) ==> exhausted(final(module)@, error) || !read_fits(old(module)@, *read),
        result matches Ok(value) ==> final(module)@.has(value) && read_made(
            old(module)@,
            final(module)@,
            *bank,
            *read,
            writes@,
            value,
        ),
{
    let ghost start = module@;
    proof {
        lemma_stable(start, start);
    }
    match read.timing {
        MemoryReadTiming::Asynchronous => select_word(
            module,
            read.address,
            &bank.words,
            read.source,
        ),
        MemoryReadTiming::Synchronous { clock, enable, disabled } => {
            if module.values[clock.value.raw as usize].ty.width != 1 {
                return Err(SynthError::Invariant(Invariant::WidthMismatch));
            }
            if let Some(held) = enable {
                if module.values[held.value.raw as usize].ty.width != 1 {
                    return Err(SynthError::Invariant(Invariant::WidthMismatch));
                }
            }
            let (data, effective) = match put_synchronous(
                module,
                bank,
                writes,
                read,
                clock,
                enable,
                disabled,
            ) {
                Ok(made) => made,
                Err(error) => return Err(error),
            };
            let ghost middle = module@;
            let register = RegisterOp {
                name: module.signals[read.data.raw as usize].name,
                d: data,
                clock: clock.value,
                edge: clock.edge,
                enable: effective,
                resets: Vec::new(),
            };
            let ghost held = register@;
            let ghost kind = OpView::Register(held);
            proof {
                assert(held.resets =~= seq![]);
                lemma_types_kept(start, middle, clock.value);
                assert(middle.value_ok(data.raw as int));
                assert(crate::word::types::op_inputs(kind) =~= seq![data, clock.value]
                    + crate::word::types::enable_inputs(effective));
                assert(middle.inputs_below(kind, middle.values.len() as int));
            }
            let value = match module.register(register, read.source) {
                Ok(value) => value,
                Err(error) => return Err(error),
            };
            proof {
                let after = module@;
                lemma_stable(middle, after);
                lemma_stable_trans(start, middle, after);
                assert(after.op_of(value) == Some(kind));
                assert forall|env: Env| #[trigger] word_of(after, env, data) == word_of(
                    middle,
                    env,
                    data,
                ) by {}
                assert forall|env: Env| #[trigger] enabled_or_free(after, env, effective)
                    == enabled_or_free(middle, env, effective) by {
                    if effective is Some {
                        let place = effective->0.value;
                        assert(word_of(after, env, place) == word_of(middle, env, place));
                    }
                }
            }
            Ok(value)
        },
    }
}

/// Makes the value that a read port gives and connects it to the signal of the
/// port.
pub fn materialize_read(
    module: &mut WordModule,
    bank: &Bank,
    writes: &Vec<MemoryWritePort>,
    read: &MemoryReadPort,
) -> (result: Result<(), SynthError>)
    requires
        old(module)@.wf(),
        bank_present(old(module)@, *bank),
        writes_present(old(module)@, writes@),
        read_present(old(module)@, *read),
    ensures
        kept(old(module)@, final(module)@),
        only_connected(old(module)@, final(module)@),
        result matches Err(error) ==> exhausted(final(module)@, error) || !read_fits(old(module)@, *read),
        result is Ok ==> {
            let connect = final(module)@.connects.last();
            &&& final(module)@.connects == old(module)@.connects.push(connect)
            &&& connect.target == LValue::whole(read.data)
            &&& connect.source == read.source
            &&& read_made(
                old(module)@,
                final(module)@,
                *bank,
                *read,
                writes@,
                connect.value,
            )
        },
{
    let ghost start = module@;
    let value = match put_read(module, bank, writes, read) {
        Ok(value) => value,
        Err(error) => {
            proof {
                lemma_kept(start, module@);
            }
            return Err(error);
        },
    };
    let ghost middle = module@;
    proof {
        lemma_kept(start, middle);
    }
    let done = module.connect(LValue::signal(read.data), value, read.source);
    proof {
        let after = module@;
        lemma_kept(middle, after);
        lemma_kept_trans(start, middle, after);
        assert(after.op_of(value) == middle.op_of(value));
        assert forall|env: Env, v: ValueId| middle.has(v) implies #[trigger] word_of(after, env, v)
            == word_of(middle, env, v) by {}
        lemma_read_made_kept(start, middle, after, *bank, *read, writes@, value);
    }
    done
}

proof fn lemma_read_made_kept(
    start: ModuleView,
    before: ModuleView,
    after: ModuleView,
    bank: Bank,
    read: MemoryReadPort,
    writes: Seq<MemoryWritePort>,
    value: ValueId,
)
    requires
        kept(before, after),
        before.has(value),
        read_made(start, before, bank, read, writes, value),
    ensures
        read_made(start, after, bank, read, writes, value),
{
    assert(before.value_ok(value.raw as int));
    assert(after.op_of(value) == before.op_of(value));
    match read.timing {
        MemoryReadTiming::Asynchronous => {
            assert forall|env: Env| #[trigger] word_of(after, env, value) == word_of(
                before,
                env,
                value,
            ) by {}
        },
        MemoryReadTiming::Synchronous { clock, enable, disabled } => {
            if let Some(OpView::Register(register)) = before.op_of(value) {
                let operation = match before.kind(value) {
                    crate::word::module::KindView::Operation(operation) => operation,
                    _ => arbitrary(),
                };
                assert(before.operation_ok(operation.raw as int));
                let inputs = crate::word::types::op_inputs(OpView::Register(register));
                assert(inputs[0] == register.d);
                assert(before.has(register.d));
                assert forall|env: Env| #[trigger] word_of(after, env, register.d) == word_of(
                    before,
                    env,
                    register.d,
                ) by {}
                if register.enable is Some {
                    assert(inputs[2] == register.enable->0.value);
                    assert(before.has(register.enable->0.value));
                }
                assert forall|env: Env| #[trigger] enabled_or_free(after, env, register.enable)
                    == enabled_or_free(before, env, register.enable) by {
                    if register.enable is Some {
                        let place = register.enable->0.value;
                        assert(word_of(after, env, place) == word_of(before, env, place));
                    }
                }
            }
        },
    }
}

} // verus!
