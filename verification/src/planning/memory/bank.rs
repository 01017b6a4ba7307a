//! What the writes of a memory make of its words.

use super::clocks::{may_address, write_may_address, Ranges};
use super::pieces::{
    address_match, and, apply_mask, enabled, enabled_or_free, lemma_one_bit, lemma_types_kept,
    normalize_enable, selects, truth, written,
};
use crate::error::{Invariant, SynthError};
use crate::word::emit::{lemma_stable, lemma_stable_trans, ran_out, stable};
use crate::word::module::{MemoryClock, MemoryWritePort, ModuleView, WordModule};
use crate::word::semantics::{lemma_eval_width, word_of, Env};
use crate::word::types::ValueId;
use vstd::prelude::*;

verus! {

/// The words of a bank, what they will be, and the clocks that write them.
#[derive(Debug)]
pub struct Bank {
    pub words: Vec<ValueId>,
    pub next: Vec<ValueId>,
    pub clocks: Vec<MemoryClock>,
}

/// What a write refers to is there.
pub open spec fn write_present(module: ModuleView, write: MemoryWritePort) -> bool {
    &&& module.has(write.address)
    &&& module.has(write.data)
    &&& module.has(write.clock.value)
    &&& write.enable is Some ==> module.has(write.enable->0.value)
    &&& write.mask is Some ==> module.has(write.mask->0.value)
}

pub open spec fn writes_present(module: ModuleView, writes: Seq<MemoryWritePort>) -> bool {
    forall|i: int| 0 <= i < writes.len() ==> write_present(module, #[trigger] writes[i])
}

/// A write has the width of a word.
pub open spec fn write_fits(module: ModuleView, write: MemoryWritePort, width: int) -> bool {
    &&& module.ty(write.data).width == width
    &&& write.mask matches Some(mask) ==> {
        &&& mask.granularity > 0
        &&& (width - 1) / (mask.granularity as int) < module.ty(mask.value).width
    }
}

pub open spec fn writes_fit(module: ModuleView, writes: Seq<MemoryWritePort>, width: int) -> bool {
    forall|i: int| 0 <= i < writes.len() ==> write_fits(module, #[trigger] writes[i], width)
}

/// Whether a write takes place in a word.
pub open spec fn write_happens(
    module: ModuleView,
    env: Env,
    write: MemoryWritePort,
    index: nat,
) -> bool {
    selects(module, env, write.address, index) && enabled_or_free(module, env, write.enable)
}

/// What a word is after the first writes, each upon what the ones before it left.
pub open spec fn next_word(
    module: ModuleView,
    env: Env,
    writes: Seq<MemoryWritePort>,
    ranges: Seq<Option<(u128, u128)>>,
    index: nat,
    word: Seq<bool>,
    count: nat,
) -> Seq<bool>
    decreases count,
{
    if count == 0 {
        word
    } else {
        let before = next_word(module, env, writes, ranges, index, word, (count - 1) as nat);
        let write = writes[count - 1];
        if may_address(ranges, write.address, index) && write_happens(module, env, write, index) {
            written(module, env, before, write.data, write.mask)
        } else {
            before
        }
    }
}

/// What is present stays so, with its type.
pub proof fn lemma_write_stable(before: ModuleView, after: ModuleView, write: MemoryWritePort)
    requires
        stable(before, after),
        write_present(before, write),
    ensures
        write_present(after, write),
        after.ty(write.address) == before.ty(write.address),
        after.ty(write.data) == before.ty(write.data),
        write.mask is Some ==> after.ty(write.mask->0.value) == before.ty(write.mask->0.value),
        forall|env: Env, index: nat|
            #[trigger] write_happens(after, env, write, index) == write_happens(
                before,
                env,
                write,
                index,
            ),
        forall|env: Env, word: Seq<bool>|
            #[trigger] written(after, env, word, write.data, write.mask) == written(
                before,
                env,
                word,
                write.data,
                write.mask,
            ),
{
    assert forall|env: Env, index: nat| #[trigger]
        write_happens(after, env, write, index) == write_happens(before, env, write, index) by {
        assert(word_of(after, env, write.address) == word_of(before, env, write.address));
        if write.enable is Some {
            let value = write.enable->0.value;
            assert(word_of(after, env, value) == word_of(before, env, value));
        }
    }
    assert forall|env: Env, word: Seq<bool>| #[trigger]
        written(after, env, word, write.data, write.mask) == written(
        before,
        env,
        word,
        write.data,
        write.mask,
    ) by {
        assert(word_of(after, env, write.data) == word_of(before, env, write.data));
        if write.mask is Some {
            let value = write.mask->0.value;
            assert(word_of(after, env, value) == word_of(before, env, value));
        }
    }
}

/// A condition that a write takes place in a word.
fn write_condition(module: &mut WordModule, write: MemoryWritePort, index: u32) -> (result: Result<
    ValueId,
    SynthError,
>)
    requires
        old(module)@.wf(),
        write_present(old(module)@, write),
    ensures
        stable(old(module)@, final(module)@),
        result matches Err(error) ==> ran_out(final(module)@, error),
        result matches Ok(value) ==> {
            &&& final(module)@.has(value)
            &&& final(module)@.ty(value).width == 1
            &&& forall|env: Env| #[trigger]
                truth(final(module)@, env, value) == write_happens(
                    old(module)@,
                    env,
                    write,
                    index as nat,
                )
        },
{
    let ghost start = module@;
    let selected = match address_match(module, write.address, index, write.source) {
        Ok(selected) => selected,
        Err(error) => return Err(error),
    };
    let ghost first = module@;
    let active: Option<ValueId> = match write.enable {
        None => None,
        Some(enable) => match normalize_enable(module, enable, write.source) {
            Ok(active) => {
                proof {
                    lemma_stable_trans(start, first, module@);
                }
                Some(active)
            },
            Err(error) => {
                proof {
                    lemma_stable_trans(start, first, module@);
                }
                return Err(error);
            },
        },
    };
    let ghost second = module@;
    proof {
        if write.enable is None {
            lemma_stable(first, second);
        }
        lemma_types_kept(first, second, selected);
    }
    let condition = and(module, selected, active, write.source);
    proof {
        lemma_stable_trans(start, second, module@);
        if condition is Ok {
            assert forall|env: Env| #[trigger] truth(module@, env, condition->Ok_0)
                == write_happens(start, env, write, index as nat) by {
                let word = word_of(first, env, selected);
                assert(word_of(second, env, selected) == word);
                lemma_one_bit(word);
                assert(truth(second, env, selected) == selects(
                    start,
                    env,
                    write.address,
                    index as nat,
                ));
                if write.enable is Some {
                    let enable = write.enable->0;
                    assert(truth(second, env, active->0) == enabled(first, env, enable));
                    assert(word_of(first, env, enable.value) == word_of(start, env, enable.value));
                }
            }
        }
    }
    condition
}

/// One write into a word.
fn put_write(module: &mut WordModule, write: MemoryWritePort, index: u32, word: ValueId)
    -> (result: Result<ValueId, SynthError>)
    requires
        old(module)@.wf(),
        old(module)@.has(word),
        write_present(old(module)@, write),
    ensures
        stable(old(module)@, final(module)@),
        result matches Err(error) ==> if write_fits(
            old(module)@,
            write,
            old(module)@.ty(word).width as int,
        ) {
            ran_out(final(module)@, error)
        } else {
            error == SynthError::Invariant(Invariant::WidthMismatch) || ran_out(
                final(module)@,
                error,
            )
        },
        result matches Ok(value) ==> {
            &&& write_fits(old(module)@, write, old(module)@.ty(word).width as int)
            &&& final(module)@.has(value)
            &&& final(module)@.ty(value).width == old(module)@.ty(word).width
            &&& forall|env: Env| #[trigger]
                word_of(final(module)@, env, value) == (if write_happens(
                    old(module)@,
                    env,
                    write,
                    index as nat,
                ) {
                    written(
                        old(module)@,
                        env,
                        word_of(old(module)@, env, word),
                        write.data,
                        write.mask,
                    )
                } else {
                    word_of(old(module)@, env, word)
                })
        },
{
    let ghost start = module@;
    proof {
        lemma_stable(start, start);
    }
    let condition = match write_condition(module, write, index) {
        Ok(condition) => condition,
        Err(error) => return Err(error),
    };
    let ghost first = module@;
    proof {
        lemma_write_stable(start, first, write);
        lemma_types_kept(start, first, word);
    }
    if module.values[write.data.raw as usize].ty.width != module.values[word.raw as usize].ty.width {
        return Err(SynthError::Invariant(Invariant::WidthMismatch));
    }
    let data = match apply_mask(module, word, write.data, write.mask, write.source) {
        Ok(data) => data,
        Err(error) => {
            proof {
                lemma_stable_trans(start, first, module@);
            }
            return Err(error);
        },
    };
    let ghost second = module@;
    proof {
        lemma_stable_trans(start, first, second);
        lemma_types_kept(first, second, condition);
        lemma_types_kept(first, second, word);
    }
    let result = module.emit_mux(condition, data, word, write.source);
    proof {
        lemma_stable_trans(start, second, module@);
        if result is Ok {
            assert forall|env: Env| #[trigger] word_of(module@, env, result->Ok_0) == (
            if write_happens(start, env, write, index as nat) {
                written(start, env, word_of(start, env, word), write.data, write.mask)
            } else {
                word_of(start, env, word)
            }) by {
                assert(truth(first, env, condition) == write_happens(
                    start,
                    env,
                    write,
                    index as nat,
                ));
                assert(word_of(second, env, condition) == word_of(first, env, condition));
                lemma_eval_width(first, env, condition.raw as int);
                lemma_one_bit(word_of(first, env, condition));
                assert(word_of(second, env, word) == word_of(start, env, word));
                assert(word_of(first, env, word) == word_of(start, env, word));
                assert(written(first, env, word_of(start, env, word), write.data, write.mask)
                    == written(start, env, word_of(start, env, word), write.data, write.mask));
            }
        }
    }
    result
}

/// All writes into a word.
pub fn put_writes(
    module: &mut WordModule,
    writes: &Vec<MemoryWritePort>,
    ranges: &Ranges,
    index: u32,
    word: ValueId,
) -> (result: Result<ValueId, SynthError>)
    requires
        old(module)@.wf(),
        old(module)@.has(word),
        writes_present(old(module)@, writes@),
    ensures
        stable(old(module)@, final(module)@),
        result matches Err(error) ==> if writes_fit(
            old(module)@,
            writes@,
            old(module)@.ty(word).width as int,
        ) {
            ran_out(final(module)@, error)
        } else {
            error == SynthError::Invariant(Invariant::WidthMismatch) || ran_out(
                final(module)@,
                error,
            )
        },
        result matches Ok(value) ==> {
            &&& final(module)@.has(value)
            &&& final(module)@.ty(value).width == old(module)@.ty(word).width
            &&& forall|env: Env| #[trigger]
                word_of(final(module)@, env, value) == next_word(
                    old(module)@,
                    env,
                    writes@,
                    ranges@,
                    index as nat,
                    word_of(old(module)@, env, word),
                    writes@.len(),
                )
        },
{
    let ghost start = module@;
    proof {
        lemma_stable(start, start);
    }
    let mut value = word;
    let mut i: usize = 0;
    while i < writes.len()
        invariant
            start == old(module)@,
            start.has(word),
            stable(start, module@),
            writes_present(start, writes@),
            i <= writes@.len(),
            module@.has(value),
            module@.ty(value).width == start.ty(word).width,
            forall|env: Env| #[trigger]
                word_of(module@, env, value) == next_word(
                    start,
                    env,
                    writes@,
                    ranges@,
                    index as nat,
                    word_of(start, env, word),
                    i as nat,
                ),
        decreases writes.len() - i,
    {
        let write = writes[i];
        assert(write_present(start, writes@[i as int]));
        let ghost before = module@;
        let ghost was = value;
        if write_may_address(ranges, write.address, index) {
            proof {
                lemma_write_stable(start, before, write);
            }
            value = match put_write(module, write, index, value) {
                Ok(value) => value,
                Err(error) => {
                    proof {
                        lemma_stable_trans(start, before, module@);
                        if writes_fit(start, writes@, start.ty(word).width as int) {
                            assert(write_fits(start, writes@[i as int], start.ty(word).width as int));
                        }
                    }
                    return Err(error);
                },
            };
            proof {
                lemma_stable_trans(start, before, module@);
            }
        }
        proof {
            assert forall|env: Env| #[trigger] word_of(module@, env, value) == next_word(
                start,
                env,
                writes@,
                ranges@,
                index as nat,
                word_of(start, env, word),
                (i + 1) as nat,
            ) by {
                let held = word_of(before, env, was);
                assert(held == next_word(
                    start,
                    env,
                    writes@,
                    ranges@,
                    index as nat,
                    word_of(start, env, word),
                    i as nat,
                ));
                if may_address(ranges@, write.address, index as nat) {
                    assert(write_happens(before, env, write, index as nat) == write_happens(
                        start,
                        env,
                        write,
                        index as nat,
                    ));
                    assert(written(before, env, held, write.data, write.mask) == written(
                        start,
                        env,
                        held,
                        write.data,
                        write.mask,
                    ));
                }
            }
        }
        i += 1;
    }
    Ok(value)
}

} // verus!
