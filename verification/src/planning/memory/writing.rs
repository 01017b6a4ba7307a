//! The words of a memory hold what was last written to them, and follow one clock each.

use super::bank::{next_word, writes_fit, write_fits};
use super::clocks::{
    bank_clocks, clocks_agree, excluded_words_are_not_selected, may_address, ranges_hold,
    same_sources_agree, word_clock,
};
use super::pieces::written;
use crate::word::bits::nat_of;
use crate::word::module::{MemoryWritePort, ModuleView};
use crate::word::semantics::{lemma_eval_width, word_of, Env};
use crate::word::types::Enable;
use vstd::arithmetic::power2::pow2;
use vstd::prelude::*;

verus! {

/// A write is let through: its enable has the level at which it is active.
pub open spec fn let_through(module: ModuleView, env: Env, enable: Option<Enable>) -> bool {
    match enable {
        None => true,
        Some(enable) => if enable.active_high {
            exists|i: int|
                0 <= i < word_of(module, env, enable.value).len() && #[trigger] word_of(
                    module,
                    env,
                    enable.value,
                )[i]
        } else {
            forall|i: int|
                0 <= i < word_of(module, env, enable.value).len() ==> !(#[trigger] word_of(
                    module,
                    env,
                    enable.value,
                )[i])
        },
    }
}

/// A write sets a bit of a word: it is let through, its address is the number of the word,
/// and the group of the bit is not masked out.
pub open spec fn sets_bit(
    module: ModuleView,
    env: Env,
    write: MemoryWritePort,
    index: nat,
    bit: int,
) -> bool {
    &&& let_through(module, env, write.enable)
    &&& nat_of(word_of(module, env, write.address)) == index
    &&& write.mask matches Some(mask) ==> word_of(module, env, mask.value)[bit
        / mask.granularity as int] == mask.active_high
}

/// No write from one on sets a bit of a word.
pub open spec fn set_by_none(
    module: ModuleView,
    env: Env,
    writes: Seq<MemoryWritePort>,
    index: nat,
    bit: int,
    from: int,
    count: int,
) -> bool {
    forall|w: int| from <= w < count ==> !sets_bit(module, env, #[trigger] writes[w], index, bit)
}

/// Every write has an address wide enough to tell the word from all others.
pub open spec fn tells_apart(module: ModuleView, writes: Seq<MemoryWritePort>, index: nat) -> bool {
    forall|w: int|
        0 <= w < writes.len() ==> module.has((#[trigger] writes[w]).address) && module.has(
            writes[w].data,
        ) && index < pow2(module.ty(writes[w].address).width as nat)
}

proof fn lemma_bit_after(
    module: ModuleView,
    env: Env,
    writes: Seq<MemoryWritePort>,
    ranges: Seq<Option<(u128, u128)>>,
    index: nat,
    word: Seq<bool>,
    bit: int,
    count: nat,
)
    requires
        module.wf(),
        ranges_hold(module, ranges, env),
        tells_apart(module, writes, index),
        writes_fit(module, writes, word.len() as int),
        0 <= bit < word.len(),
        0 < count <= writes.len(),
        next_word(module, env, writes, ranges, index, word, (count - 1) as nat).len() == word.len(),
    ensures
        next_word(module, env, writes, ranges, index, word, count).len() == word.len(),
        next_word(module, env, writes, ranges, index, word, count)[bit] == (if sets_bit(
            module,
            env,
            writes[count - 1],
            index,
            bit,
        ) {
            word_of(module, env, writes[count - 1].data)[bit]
        } else {
            next_word(module, env, writes, ranges, index, word, (count - 1) as nat)[bit]
        }),
{
    let write = writes[count - 1];
    assert(write_fits(module, write, word.len() as int));
    lemma_eval_width(module, env, write.data.raw as int);
    vstd::arithmetic::div_mod::lemma_small_mod(index, pow2(module.ty(write.address).width as nat));
    if !may_address(ranges, write.address, index) {
        excluded_words_are_not_selected(module, ranges, env, write.address, index);
    }
    let before = next_word(module, env, writes, ranges, index, word, (count - 1) as nat);
    assert(written(module, env, before, write.data, write.mask).len() == word.len());
}

proof fn lemma_words_sized(
    module: ModuleView,
    env: Env,
    writes: Seq<MemoryWritePort>,
    ranges: Seq<Option<(u128, u128)>>,
    index: nat,
    word: Seq<bool>,
    count: nat,
)
    requires
        module.wf(),
        tells_apart(module, writes, index),
        writes_fit(module, writes, word.len() as int),
        count <= writes.len(),
    ensures
        next_word(module, env, writes, ranges, index, word, count).len() == word.len(),
    decreases count,
{
    if count > 0 {
        lemma_words_sized(module, env, writes, ranges, index, word, (count - 1) as nat);
        let write = writes[count - 1];
        assert(write_fits(module, write, word.len() as int));
        lemma_eval_width(module, env, write.data.raw as int);
    }
}

/// A bit that no write sets keeps its value, and one that some writes set takes that of the
/// last of them.
pub proof fn words_hold_what_was_last_written(
    module: ModuleView,
    env: Env,
    writes: Seq<MemoryWritePort>,
    ranges: Seq<Option<(u128, u128)>>,
    index: nat,
    word: Seq<bool>,
)
    requires
        module.wf(),
        ranges_hold(module, ranges, env),
        tells_apart(module, writes, index),
        writes_fit(module, writes, word.len() as int),
    ensures
        next_word(module, env, writes, ranges, index, word, writes.len()).len() == word.len(),
        forall|bit: int|
            0 <= bit < word.len() && set_by_none(
                module,
                env,
                writes,
                index,
                bit,
                0,
                writes.len() as int,
            ) ==> #[trigger] next_word(module, env, writes, ranges, index, word, writes.len())[bit]
                == word[bit],
        forall|bit: int, w: int|
            0 <= bit < word.len() && 0 <= w < writes.len() && #[trigger] sets_bit(
                module,
                env,
                writes[w],
                index,
                bit,
            ) && set_by_none(module, env, writes, index, bit, w + 1, writes.len() as int)
                ==> next_word(module, env, writes, ranges, index, word, writes.len())[bit]
                == word_of(module, env, writes[w].data)[bit],
{
    lemma_words_sized(module, env, writes, ranges, index, word, writes.len());
    assert forall|bit: int|
        0 <= bit < word.len() && set_by_none(
            module,
            env,
            writes,
            index,
            bit,
            0,
            writes.len() as int,
        ) implies #[trigger] next_word(module, env, writes, ranges, index, word, writes.len())[bit]
        == word[bit] by {
        lemma_unset(module, env, writes, ranges, index, word, bit, 0, writes.len());
    }
    assert forall|bit: int, w: int|
        0 <= bit < word.len() && 0 <= w < writes.len() && #[trigger] sets_bit(
            module,
            env,
            writes[w],
            index,
            bit,
        ) && set_by_none(
            module,
            env,
            writes,
            index,
            bit,
            w + 1,
            writes.len() as int,
        ) implies next_word(module, env, writes, ranges, index, word, writes.len())[bit] == word_of(
        module,
        env,
        writes[w].data,
    )[bit] by {
        lemma_words_sized(module, env, writes, ranges, index, word, w as nat);
        lemma_bit_after(module, env, writes, ranges, index, word, bit, (w + 1) as nat);
        lemma_unset(
            module,
            env,
            writes,
            ranges,
            index,
            word,
            bit,
            (w + 1) as nat,
            writes.len(),
        );
    }
}

/// Writes that do not set a bit leave it.
proof fn lemma_unset(
    module: ModuleView,
    env: Env,
    writes: Seq<MemoryWritePort>,
    ranges: Seq<Option<(u128, u128)>>,
    index: nat,
    word: Seq<bool>,
    bit: int,
    from: nat,
    count: nat,
)
    requires
        module.wf(),
        ranges_hold(module, ranges, env),
        tells_apart(module, writes, index),
        writes_fit(module, writes, word.len() as int),
        0 <= bit < word.len(),
        from <= count <= writes.len(),
        set_by_none(module, env, writes, index, bit, from as int, count as int),
    ensures
        next_word(module, env, writes, ranges, index, word, count)[bit] == next_word(
            module,
            env,
            writes,
            ranges,
            index,
            word,
            from,
        )[bit],
    decreases count,
{
    if from < count {
        lemma_words_sized(module, env, writes, ranges, index, word, (count - 1) as nat);
        lemma_bit_after(module, env, writes, ranges, index, word, bit, count);
        assert(!sets_bit(module, env, writes[count - 1], index, bit));
        lemma_unset(module, env, writes, ranges, index, word, bit, from, (count - 1) as nat);
    }
}

/// Every write that may reach a word has the clock of the word: the same edge of the same
/// wave.
pub proof fn words_follow_the_clocks_of_their_writes(
    module: ModuleView,
    env: Env,
    writes: Seq<MemoryWritePort>,
    ranges: Seq<Option<(u128, u128)>>,
    depth: nat,
    index: nat,
    w: int,
)
    requires
        module.wf(),
        forall|i: int|
            0 <= i < writes.len() ==> module.has((#[trigger] writes[i]).clock.value) && !(
            module.kind(writes[i].clock.value) is Constant),
        bank_clocks(module, writes, ranges, depth) is Some,
        index < depth,
        0 <= w < writes.len(),
        may_address(ranges, writes[w].address, index),
    ensures
        bank_clocks(module, writes, ranges, depth)->0.len() == depth,
        bank_clocks(module, writes, ranges, depth)->0[index as int].edge == writes[w].clock.edge,
        word_of(module, env, bank_clocks(module, writes, ranges, depth)->0[index as int].value)
            == word_of(module, env, writes[w].clock.value),
{
    assert(word_clock(module, writes, ranges, index, writes.len()) is Some);
    lemma_word_clock(module, env, writes, ranges, index, writes.len(), w);
}

proof fn lemma_word_clock(
    module: ModuleView,
    env: Env,
    writes: Seq<MemoryWritePort>,
    ranges: Seq<Option<(u128, u128)>>,
    index: nat,
    count: nat,
    w: int,
)
    requires
        module.wf(),
        forall|i: int|
            0 <= i < writes.len() ==> module.has((#[trigger] writes[i]).clock.value) && !(
            module.kind(writes[i].clock.value) is Constant),
        0 <= w < count <= writes.len(),
        may_address(ranges, writes[w].address, index),
        word_clock(module, writes, ranges, index, count) is Some,
    ensures
        word_clock(module, writes, ranges, index, count)->0 matches Some(clock) && {
            &&& clock.edge == writes[w].clock.edge
            &&& word_of(module, env, clock.value) == word_of(module, env, writes[w].clock.value)
        },
    decreases count,
{
    let last = writes[count - 1];
    let below = word_clock(module, writes, ranges, index, (count - 1) as nat);
    if w < count - 1 {
        lemma_word_clock(module, env, writes, ranges, index, (count - 1) as nat, w);
        if may_address(ranges, last.address, index) {
            let other = below->0->0;
            assert(clocks_agree(module, other, last.clock));
            same_sources_agree(module, env, last.clock.value, other.value);
        }
    }
}

} // verus!
