//! Memories as banks of registers: one register for every word.

use super::bank::{next_word, put_writes, write_present, writes_fit, writes_present, Bank};
use super::clocks::Ranges;
use super::naming::{candidate_name, signal_names, unique_name};
use crate::error::{Invariant, SynthError};
use crate::word::emit::lemma_stable;
use crate::word::module::{
    Connect, KindView, LValue, Memory, MemoryClock, MemoryWritePort, ModuleView, SignalRef,
    WordModule,
};
use crate::word::names::{append_decimal, decimal};
use crate::word::resources::{kept, lemma_kept, lemma_kept_trans};
use crate::word::semantics::{word_of, Env};
use crate::word::types::{OpView, RegisterOp, RegisterView, SignalId, ValueId};
use crate::word::emit::exhausted;
use vstd::prelude::*;
use vstd::string::StringExecFns;

verus! {

/// The name of a word of a memory, as far as it is free.
pub open spec fn word_name(memory: Seq<char>, index: nat) -> Seq<char> {
    memory + "$"@ + decimal(index)
}

pub open spec fn named_after(name: Seq<char>, base: Seq<char>) -> bool {
    exists|number: nat| name == #[trigger] candidate_name(base, number)
}

/// A new register signal and a read of it for one word.
pub open spec fn word_ready(
    module: ModuleView,
    memory: Memory,
    name: Seq<char>,
    first: int,
    index: int,
    word: ValueId,
) -> bool {
    let signal = first + index;
    &&& signal < module.signals.len()
    &&& module.signals[signal].kind is Register
    &&& module.signals[signal].ty == memory.element_type
    &&& module.signals[signal].name matches Some(id) && id.raw < module.names.len()
        && named_after(module.names[id.raw as int], word_name(name, index as nat))
    &&& module.has(word)
    &&& module.ty(word) == memory.element_type
    &&& module.kind(word) == KindView::Signal(
        SignalRef {
            signal: SignalId { raw: signal as u32 },
            lsb: 0,
            width: memory.element_type.width,
        },
    )
}

pub open spec fn words_ready(
    module: ModuleView,
    memory: Memory,
    name: Seq<char>,
    first: int,
    words: Seq<ValueId>,
) -> bool {
    forall|i: int|
        0 <= i < words.len() ==> word_ready(module, memory, name, first, i, #[trigger] words[i])
}

/// Names and everything but values, operations and signals stay.
pub open spec fn only_wider(before: ModuleView, after: ModuleView) -> bool {
    &&& after.ports == before.ports
    &&& after.connects == before.connects
    &&& after.instances == before.instances
    &&& after.memories == before.memories
    &&& after.memory_reads == before.memory_reads
    &&& after.memory_writes == before.memory_writes
    &&& before.names.len() <= after.names.len()
    &&& forall|i: int| 0 <= i < before.names.len() ==> #[trigger] after.names[i] == before.names[i]
}

/// A register signal for a word.
fn add_word(module: &mut WordModule, memory: &Memory, name: &String, index: u32) -> (result: Result<
    ValueId,
    SynthError,
>)
    requires
        old(module)@.wf(),
        memory.element_type.width >= 1,
    ensures
        kept(old(module)@, final(module)@),
        only_wider(old(module)@, final(module)@),
        result matches Err(error) ==> exhausted(final(module)@, error),
        result matches Ok(word) ==> {
            &&& final(module)@.signals.len() == old(module)@.signals.len() + 1
            &&& word_ready(
                final(module)@,
                *memory,
                name@,
                old(module)@.signals.len() - index,
                index as int,
                word,
            )
        },
{
    let ghost start = module@;
    proof {
        lemma_kept(start, start);
    }
    let mut base = name.clone();
    base.append("$");
    append_decimal(&mut base, index as u64);
    assert(base@ =~= word_name(name@, index as nat));
    let taken = signal_names(module);
    let chosen = match unique_name(&base, &taken) {
        Ok(chosen) => chosen,
        Err(error) => return Err(error),
    };
    let ghost text = chosen@;
    assert(named_after(text, base@));
    let signal = match module.add_register_signal(chosen, memory.element_type, memory.source) {
        Ok(signal) => signal,
        Err(error) => {
            proof {
                lemma_kept(start, module@);
            }
            return Err(error);
        },
    };
    let ghost middle = module@;
    proof {
        lemma_kept(start, middle);
    }
    let word = module.read_signal(signal, memory.source);
    proof {
        lemma_stable(middle, module@);
        lemma_kept(middle, module@);
        lemma_kept_trans(start, middle, module@);
    }
    word
}

/// The register of one word: it holds what the writes make of the word, and
/// drives the signal of the word.
pub open spec fn word_done(
    module: ModuleView,
    start: ModuleView,
    memory: Memory,
    writes: Seq<MemoryWritePort>,
    ranges: Seq<Option<(u128, u128)>>,
    clock: MemoryClock,
    signal: int,
    index: nat,
    word: ValueId,
    next: ValueId,
    connect: Connect,
) -> bool {
    &&& connect.target == LValue::whole(SignalId { raw: signal as u32 })
    &&& connect.source == memory.source
    &&& module.has(connect.value)
    &&& module.op_of(connect.value) == Some(
        OpView::Register(
            RegisterView {
                name: module.signals[signal].name,
                d: next,
                clock: clock.value,
                edge: clock.edge,
                enable: None,
                resets: seq![],
            },
        ),
    )
    &&& module.has(word)
    &&& module.has(next)
    &&& module.ty(next).width == memory.element_type.width
    &&& forall|env: Env| #[trigger]
        word_of(module, env, next) == next_word(
            start,
            env,
            writes,
            ranges,
            index,
            word_of(module, env, word),
            writes.len(),
        )
}

proof fn lemma_word_done_kept(
    before: ModuleView,
    after: ModuleView,
    start: ModuleView,
    memory: Memory,
    writes: Seq<MemoryWritePort>,
    ranges: Seq<Option<(u128, u128)>>,
    clock: MemoryClock,
    signal: int,
    index: nat,
    word: ValueId,
    next: ValueId,
    connect: Connect,
)
    requires
        kept(before, after),
        0 <= signal < before.signals.len(),
        word_done(
            before,
            start,
            memory,
            writes,
            ranges,
            clock,
            signal,
            index,
            word,
            next,
            connect,
        ),
    ensures
        word_done(
            after,
            start,
            memory,
            writes,
            ranges,
            clock,
            signal,
            index,
            word,
            next,
            connect,
        ),
{
    assert(before.value_ok(connect.value.raw as int));
    assert(after.op_of(connect.value) == before.op_of(connect.value));
    assert(after.signals[signal] == before.signals[signal]);
    assert forall|env: Env| #[trigger] word_of(after, env, next) == next_word(
        start,
        env,
        writes,
        ranges,
        index,
        word_of(after, env, word),
        writes.len(),
    ) by {
        assert(word_of(after, env, next) == word_of(before, env, next));
        assert(word_of(after, env, word) == word_of(before, env, word));
    }
}

/// Everything but values, operations and connections stays.
pub open spec fn only_connected(before: ModuleView, after: ModuleView) -> bool {
    after == (ModuleView {
        values: after.values,
        operations: after.operations,
        connects: after.connects,
        ..before
    })
}

proof fn lemma_next_word_kept(
    before: ModuleView,
    after: ModuleView,
    env: Env,
    writes: Seq<MemoryWritePort>,
    ranges: Seq<Option<(u128, u128)>>,
    index: nat,
    word: Seq<bool>,
    count: nat,
)
    requires
        kept(before, after),
        writes_present(before, writes),
        count <= writes.len(),
    ensures
        next_word(after, env, writes, ranges, index, word, count) == next_word(
            before,
            env,
            writes,
            ranges,
            index,
            word,
            count,
        ),
    decreases count,
{
    if count > 0 {
        lemma_next_word_kept(
            before,
            after,
            env,
            writes,
            ranges,
            index,
            word,
            (count - 1) as nat,
        );
        let write = writes[count - 1];
        assert(write_present(before, write));
        assert(word_of(after, env, write.address) == word_of(before, env, write.address));
        assert(word_of(after, env, write.data) == word_of(before, env, write.data));
        if write.enable is Some {
            let value = write.enable->0.value;
            assert(word_of(after, env, value) == word_of(before, env, value));
        }
        if write.mask is Some {
            let value = write.mask->0.value;
            assert(word_of(after, env, value) == word_of(before, env, value));
        }
    }
}

/// What the writes need of a module to become a bank.
pub open spec fn storage_fits(
    module: ModuleView,
    memory: Memory,
    writes: Seq<MemoryWritePort>,
    clocks: Seq<MemoryClock>,
) -> bool {
    &&& clocks.len() == memory.depth
    &&& writes_fit(module, writes, memory.element_type.width as int)
    &&& forall|i: int|
        0 <= i < clocks.len() ==> module.ty((#[trigger] clocks[i]).value).width == 1
}

/// The register of a word.
#[verifier::rlimit(40)]
fn put_register(
    module: &mut WordModule,
    memory: &Memory,
    writes: &Vec<MemoryWritePort>,
    ranges: &Ranges,
    clock: MemoryClock,
    signal: SignalId,
    index: u32,
    word: ValueId,
    Ghost(start): Ghost<ModuleView>,
) -> (result: Result<ValueId, SynthError>)
    requires
        kept(start, old(module)@),
        writes_present(start, writes@),
        start.has(clock.value),
        old(module)@.has(word),
        old(module)@.ty(word) == memory.element_type,
        memory.element_type.width >= 1,
        signal.raw < old(module)@.signals.len(),
    ensures
        kept(old(module)@, final(module)@),
        only_connected(old(module)@, final(module)@),
        result matches Err(error) ==> exhausted(final(module)@, error) || !writes_fit(
            start,
            writes@,
            memory.element_type.width as int,
        ) || start.ty(clock.value).width != 1,
        result matches Ok(next) ==> {
            let connect = final(module)@.connects.last();
            &&& final(module)@.connects == old(module)@.connects.push(connect)
            &&& word_done(
                final(module)@,
                start,
                *memory,
                writes@,
                ranges@,
                clock,
                signal.raw as int,
                index as nat,
                word,
                next,
                connect,
            )
        },
{
    let ghost before = module@;
    proof {
        lemma_kept(before, before);
        assert forall|i: int| 0 <= i < writes@.len() implies write_present(
            before,
            #[trigger] writes@[i],
        ) by {
            assert(write_present(start, writes@[i]));
        }
        if writes_fit(start, writes@, memory.element_type.width as int) {
            assert forall|i: int| 0 <= i < writes@.len() implies super::bank::write_fits(
                before,
                #[trigger] writes@[i],
                memory.element_type.width as int,
            ) by {
                assert(write_present(start, writes@[i]));
                assert(super::bank::write_fits(
                    start,
                    writes@[i],
                    memory.element_type.width as int,
                ));
            }
        }
    }
    let next = match put_writes(module, writes, ranges, index, word) {
        Ok(next) => next,
        Err(error) => {
            proof {
                lemma_kept(before, module@);
            }
            return Err(error);
        },
    };
    let ghost middle = module@;
    proof {
        lemma_kept(before, middle);
    }
    let name = module.signals[signal.raw as usize].name;
    let register = RegisterOp {
        name,
        d: next,
        clock: clock.value,
        edge: clock.edge,
        enable: None,
        resets: Vec::new(),
    };
    let ghost held = register@;
    proof {
        assert(held.resets =~= seq![]);
        assert(start.ty(clock.value) == middle.ty(clock.value));
    }
    let q = match module.register(register, memory.source) {
        Ok(q) => q,
        Err(error) => {
            proof {
                assert(middle.value_ok(next.raw as int));
                let kind = OpView::Register(held);
                assert(crate::word::types::op_inputs(kind) =~= seq![next, clock.value]);
                assert(middle.inputs_below(kind, middle.values.len() as int));
            }
            return Err(error);
        },
    };
    let ghost third = module@;
    proof {
        lemma_kept(middle, third);
        lemma_kept_trans(before, middle, third);
    }
    let done = module.connect(LValue::signal(signal), q, memory.source);
    proof {
        let after = module@;
        assert(done is Ok);
        lemma_kept(third, after);
        lemma_kept_trans(middle, third, after);
        lemma_kept_trans(before, third, after);
        let connect = after.connects.last();
        assert(after.op_of(q) == Some(OpView::Register(held)));
        assert forall|env: Env| #[trigger] word_of(after, env, next) == next_word(
            start,
            env,
            writes@,
            ranges@,
            index as nat,
            word_of(after, env, word),
            writes@.len(),
        ) by {
            assert(word_of(after, env, next) == word_of(middle, env, next));
            assert(word_of(after, env, word) == word_of(before, env, word));
            lemma_next_word_kept(
                start,
                before,
                env,
                writes@,
                ranges@,
                index as nat,
                word_of(before, env, word),
                writes@.len(),
            );
        }
    }
    match done {
        Ok(()) => Ok(next),
        Err(error) => Err(error),
    }
}

/// A bank stands for a memory: every word has a register of its own.
pub open spec fn bank_made(
    start: ModuleView,
    module: ModuleView,
    memory: Memory,
    writes: Seq<MemoryWritePort>,
    ranges: Seq<Option<(u128, u128)>>,
    clocks: Seq<MemoryClock>,
    bank: Bank,
) -> bool {
    &&& bank.words@.len() == memory.depth
    &&& bank.next@.len() == memory.depth
    &&& bank.clocks@ == clocks
    &&& clocks.len() == memory.depth
    &&& module.signals.len() == start.signals.len() + memory.depth
    &&& module.connects.len() == start.connects.len() + memory.depth
    &&& module.connects.take(start.connects.len() as int) == start.connects
    &&& words_ready(
        module,
        memory,
        start.names[memory.name.raw as int],
        start.signals.len() as int,
        bank.words@,
    )
    &&& registers_made(start, module, memory, writes, ranges, clocks, bank.words@, bank.next@)
}

pub open spec fn registers_made(
    start: ModuleView,
    module: ModuleView,
    memory: Memory,
    writes: Seq<MemoryWritePort>,
    ranges: Seq<Option<(u128, u128)>>,
    clocks: Seq<MemoryClock>,
    words: Seq<ValueId>,
    next: Seq<ValueId>,
) -> bool {
    forall|i: int|
        0 <= i < next.len() ==> word_done(
            module,
            start,
            memory,
            writes,
            ranges,
            clocks[i],
            start.signals.len() + i,
            i as nat,
            words[i],
            #[trigger] next[i],
            module.connects[start.connects.len() + i],
        )
}

/// Everything but values, operations, signals, names and connections stays.
pub open spec fn resources_stay(before: ModuleView, after: ModuleView) -> bool {
    &&& after.ports == before.ports
    &&& after.instances == before.instances
    &&& after.memories == before.memories
    &&& after.memory_reads == before.memory_reads
    &&& after.memory_writes == before.memory_writes
    &&& before.names.len() <= after.names.len()
    &&& forall|i: int| 0 <= i < before.names.len() ==> #[trigger] after.names[i] == before.names[i]
}

proof fn lemma_words_kept(
    before: ModuleView,
    after: ModuleView,
    memory: Memory,
    name: Seq<char>,
    first: int,
    words: Seq<ValueId>,
)
    requires
        kept(before, after),
        before.names.len() <= after.names.len(),
        forall|i: int|
            0 <= i < before.names.len() ==> #[trigger] after.names[i] == before.names[i],
        first >= 0,
        words_ready(before, memory, name, first, words),
    ensures
        words_ready(after, memory, name, first, words),
{
    assert forall|i: int| 0 <= i < words.len() implies word_ready(
        after,
        memory,
        name,
        first,
        i,
        #[trigger] words[i],
    ) by {
        assert(word_ready(before, memory, name, first, i, words[i]));
        assert(after.signals[first + i] == before.signals[first + i]);
        assert(after.values[words[i].raw as int] == before.values[words[i].raw as int]);
    }
}

/// A register signal for every word.
fn add_words(module: &mut WordModule, memory: &Memory, name: &String) -> (result: Result<
    Vec<ValueId>,
    SynthError,
>)
    requires
        old(module)@.wf(),
        memory.element_type.width >= 1,
    ensures
        kept(old(module)@, final(module)@),
        only_wider(old(module)@, final(module)@),
        result matches Err(error) ==> exhausted(final(module)@, error),
        result matches Ok(words) ==> {
            &&& words@.len() == memory.depth
            &&& final(module)@.signals.len() == old(module)@.signals.len() + memory.depth
            &&& words_ready(
                final(module)@,
                *memory,
                name@,
                old(module)@.signals.len() as int,
                words@,
            )
        },
{
    let ghost start = module@;
    proof {
        lemma_kept(start, start);
    }
    let mut words: Vec<ValueId> = Vec::new();
    let mut i: u32 = 0;
    while i < memory.depth
        invariant
            start == old(module)@,
            kept(start, module@),
            only_wider(start, module@),
            memory.element_type.width >= 1,
            i <= memory.depth,
            words@.len() == i,
            module@.signals.len() == start.signals.len() + i,
            words_ready(module@, *memory, name@, start.signals.len() as int, words@),
        decreases memory.depth - i,
    {
        let ghost before = module@;
        let ghost row = words@;
        match add_word(module, memory, name, i) {
            Ok(word) => words.push(word),
            Err(error) => {
                proof {
                    lemma_kept_trans(start, before, module@);
                }
                return Err(error);
            },
        }
        proof {
            lemma_kept_trans(start, before, module@);
            lemma_words_kept(before, module@, *memory, name@, start.signals.len() as int, row);
            assert forall|k: int| 0 <= k < words@.len() implies word_ready(
                module@,
                *memory,
                name@,
                start.signals.len() as int,
                k,
                #[trigger] words@[k],
            ) by {
                if k < row.len() {
                    assert(word_ready(
                        module@,
                        *memory,
                        name@,
                        start.signals.len() as int,
                        k,
                        row[k],
                    ));
                }
            }
        }
        i += 1;
    }
    Ok(words)
}

/// Makes a bank of registers of a memory. Writes take effect in their order, each
/// upon what the ones before it left.
#[verifier::rlimit(60)]
pub fn materialize_storage(
    module: &mut WordModule,
    memory: &Memory,
    writes: &Vec<MemoryWritePort>,
    ranges: &Ranges,
    clocks: &Vec<MemoryClock>,
) -> (result: Result<Bank, SynthError>)
    requires
        old(module)@.wf(),
        memory.element_type.width >= 1,
        memory.name.raw < old(module)@.names.len(),
        writes_present(old(module)@, writes@),
        forall|i: int|
            0 <= i < clocks@.len() ==> old(module)@.has((#[trigger] clocks@[i]).value),
    ensures
        kept(old(module)@, final(module)@),
        resources_stay(old(module)@, final(module)@),
        result matches Err(error) ==> exhausted(final(module)@, error) || !storage_fits(
            old(module)@,
            *memory,
            writes@,
            clocks@,
        ),
        result matches Ok(bank) ==> bank_made(
            old(module)@,
            final(module)@,
            *memory,
            writes@,
            ranges@,
            clocks@,
            bank,
        ),
{
    let ghost start = module@;
    proof {
        lemma_kept(start, start);
    }
    if clocks.len() != memory.depth as usize {
        return Err(SynthError::Invariant(Invariant::UnalignedMemoryImplementations));
    }
    let name = module.names[memory.name.raw as usize].clone();
    let words = match add_words(module, memory, &name) {
        Ok(words) => words,
        Err(error) => return Err(error),
    };
    let first: usize = module.signals.len() - words.len();
    let mut next: Vec<ValueId> = Vec::new();
    let mut held: Vec<MemoryClock> = Vec::new();
    let mut i: u32 = 0;
    while i < memory.depth
        invariant
            start == old(module)@,
            kept(start, module@),
            resources_stay(start, module@),
            writes_present(start, writes@),
            memory.element_type.width >= 1,
            clocks@.len() == memory.depth,
            forall|k: int| 0 <= k < clocks@.len() ==> start.has((#[trigger] clocks@[k]).value),
            name@ == start.names[memory.name.raw as int],
            i <= memory.depth,
            words@.len() == memory.depth,
            next@.len() == i,
            held@ == clocks@.take(i as int),
            first == start.signals.len(),
            module@.signals.len() == start.signals.len() + memory.depth,
            module@.connects.len() == start.connects.len() + i,
            module@.connects.take(start.connects.len() as int) == start.connects,
            words_ready(module@, *memory, name@, start.signals.len() as int, words@),
            registers_made(start, module@, *memory, writes@, ranges@, clocks@, words@, next@),
        decreases memory.depth - i,
    {
        let ghost before = module@;
        let ghost row = next@;
        let word = words[i as usize];
        assert(word_ready(
            before,
            *memory,
            name@,
            start.signals.len() as int,
            i as int,
            words@[i as int],
        ));
        let clock = clocks[i as usize];
        let signal = SignalId { raw: (first + i as usize) as u32 };
        match put_register(
            module,
            memory,
            writes,
            ranges,
            clock,
            signal,
            i,
            word,
            Ghost(start),
        ) {
            Ok(value) => next.push(value),
            Err(error) => {
                proof {
                    lemma_kept_trans(start, before, module@);
                }
                return Err(error);
            },
        }
        held.push(clock);
        proof {
            let after = module@;
            lemma_kept_trans(start, before, after);
            lemma_words_kept(before, after, *memory, name@, start.signals.len() as int, words@);
            assert(held@ =~= clocks@.take(i + 1));
            assert(after.connects.take(start.connects.len() as int) =~= start.connects) by {
                assert(before.connects.take(start.connects.len() as int) =~= start.connects);
                assert forall|k: int| 0 <= k < start.connects.len() implies after.connects[k]
                    == start.connects[k] by {
                    assert(before.connects.take(start.connects.len() as int)[k]
                        == start.connects[k]);
                }
            }
            assert forall|k: int| 0 <= k < next@.len() implies word_done(
                after,
                start,
                *memory,
                writes@,
                ranges@,
                clocks@[k],
                start.signals.len() + k,
                k as nat,
                words@[k],
                #[trigger] next@[k],
                after.connects[start.connects.len() + k],
            ) by {
                if k < row.len() {
                    assert(next@[k] == row[k]);
                    assert(after.connects[start.connects.len() + k]
                        == before.connects[start.connects.len() + k]);
                    lemma_word_done_kept(
                        before,
                        after,
                        start,
                        *memory,
                        writes@,
                        ranges@,
                        clocks@[k],
                        start.signals.len() + k,
                        k as nat,
                        words@[k],
                        row[k],
                        before.connects[start.connects.len() + k],
                    );
                }
            }
        }
        i += 1;
    }
    assert(held@ =~= clocks@);
    Ok(Bank { words, next, clocks: held })
}

} // verus!
