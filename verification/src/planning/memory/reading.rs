//! What a read of a bank of registers takes over, by the modes of its port.

use super::bank::Bank;
use super::behavior::{read_collides, read_disabled};
use super::clocks::clocks_agree;
use super::pieces::enabled_or_free;
use super::reads::{
    addresses_meet, addresses_select_words, collides, last_selected, read_made, write_meets,
};
use super::writing::let_through;
use crate::word::bits::{any_bit, nat_of};
use crate::word::module::{binary_type, MemoryClock, MemoryReadPort, MemoryWritePort, ModuleView};
use crate::word::semantics::{
    binary_bits, compare_type, lemma_eval_width, resize_bits, word_of, Env,
};
use crate::word::types::{BinaryOp, Enable, ValueId};
use vstd::arithmetic::power2::pow2;
use vstd::prelude::*;

verus! {

/// A write puts something at the address of a read at the tick of its clock.
pub open spec fn hits(
    module: ModuleView,
    env: Env,
    address: ValueId,
    clock: MemoryClock,
    write: MemoryWritePort,
) -> bool {
    &&& clocks_agree(module, write.clock, clock)
    &&& word_of(module, env, write.address) == word_of(module, env, address)
    &&& let_through(module, env, write.enable)
    &&& write.mask matches Some(mask) ==> exists|i: int|
        0 <= i < word_of(module, env, mask.value).len() && (#[trigger] word_of(
            module,
            env,
            mask.value,
        )[i]) == mask.active_high
}

/// Some write hits what is read.
pub open spec fn is_hit(
    module: ModuleView,
    env: Env,
    address: ValueId,
    clock: MemoryClock,
    writes: Seq<MemoryWritePort>,
) -> bool {
    exists|w: int|
        0 <= w < writes.len() && hits(module, env, address, clock, #[trigger] writes[w])
}

/// What a register takes over at the tick of its clock, without resets.
pub open spec fn taken_over(
    module: ModuleView,
    env: Env,
    data: ValueId,
    enable: Option<Enable>,
    held: Seq<bool>,
) -> Seq<bool> {
    if let_through(module, env, enable) {
        word_of(module, env, data)
    } else {
        held
    }
}

proof fn lemma_let_through(module: ModuleView, env: Env, enable: Option<Enable>)
    ensures
        let_through(module, env, enable) == enabled_or_free(module, env, enable),
{
    if enable is Some {
        let word = word_of(module, env, enable->0.value);
        if any_bit(word) {
            let i = choose|i: int| 0 <= i < word.len() && word[i];
            assert(word_of(module, env, enable->0.value)[i]);
        }
    }
}

proof fn lemma_addresses_meet(module: ModuleView, env: Env, left: ValueId, right: ValueId)
    requires
        module.wf(),
        module.has(left),
        module.has(right),
        module.ty(left).width == module.ty(right).width,
    ensures
        addresses_meet(module, env, left, right) == (word_of(module, env, left) == word_of(
            module,
            env,
            right,
        )),
{
    let l = word_of(module, env, left);
    let r = word_of(module, env, right);
    lemma_eval_width(module, env, left.raw as int);
    lemma_eval_width(module, env, right.raw as int);
    let ty = binary_type(BinaryOp::Eq, module.ty(left), module.ty(right));
    let compared = compare_type(module.ty(left), module.ty(right), ty);
    let cl = resize_bits(l, module.ty(left), compared);
    let cr = resize_bits(r, module.ty(right), compared);
    let bits = binary_bits(BinaryOp::Eq, l, module.ty(left), r, module.ty(right), ty);
    assert(bits == seq![cl == cr]);
    assert(bits.len() == 1 && bits[0] == (cl == cr));
    if l == r {
        assert(cl =~= cr);
        assert(any_bit(bits));
    }
    if cl == cr {
        assert forall|i: int| 0 <= i < l.len() implies #[trigger] l[i] == r[i] by {
            assert(cl[i] == l[i] && cr[i] == r[i]);
        }
        assert(l =~= r);
    }
}

proof fn lemma_is_hit(
    module: ModuleView,
    env: Env,
    address: ValueId,
    clock: MemoryClock,
    writes: Seq<MemoryWritePort>,
    count: nat,
)
    requires
        module.wf(),
        module.has(address),
        count <= writes.len(),
        forall|w: int|
            0 <= w < writes.len() ==> module.has((#[trigger] writes[w]).address) && module.ty(
                writes[w].address,
            ).width == module.ty(address).width,
    ensures
        collides(module, env, address, clock, writes, count) == exists|w: int|
            0 <= w < count && hits(module, env, address, clock, #[trigger] writes[w]),
    decreases count,
{
    if count > 0 {
        lemma_is_hit(module, env, address, clock, writes, (count - 1) as nat);
        let last = writes[count - 1];
        lemma_addresses_meet(module, env, address, last.address);
        lemma_let_through(module, env, last.enable);
        assert(hits(module, env, address, clock, last) == (clocks_agree(module, last.clock, clock)
            && write_meets(module, env, address, last)));
        if collides(module, env, address, clock, writes, (count - 1) as nat) {
            let w = choose|w: int|
                0 <= w < count - 1 && hits(module, env, address, clock, #[trigger] writes[w]);
            assert(hits(module, env, address, clock, writes[w]));
        }
        if hits(module, env, address, clock, last) {
            assert(hits(module, env, address, clock, writes[count - 1]));
        }
    }
}

/// A read with a clock takes over what its modes say: what a disabled read gives if it is
/// not enabled; of a word that is written at once, what its mode gives; and of any other
/// word, the word.
pub proof fn reads_take_over_what_their_modes_say(
    start: ModuleView,
    module: ModuleView,
    env: Env,
    bank: Bank,
    read: MemoryReadPort,
    writes: Seq<MemoryWritePort>,
    value: ValueId,
    held: Seq<bool>,
)
    requires
        start.wf(),
        read_made(start, module, bank, read, writes, value),
        read.timing is Synchronous,
        start.has(read.address),
        forall|w: int|
            0 <= w < writes.len() ==> start.has((#[trigger] writes[w]).address) && start.ty(
                writes[w].address,
            ).width == start.ty(read.address).width,
        bank.words@.len() <= pow2(start.ty(read.address).width as nat),
        nat_of(word_of(start, env, read.address)) < bank.words@.len(),
        clocks_agree(
            start,
            bank.clocks@[nat_of(word_of(start, env, read.address)) as int],
            read.timing->clock,
        ),
    ensures
        module.op_of(value) is Some && module.op_of(value)->0 is Register,
        ({
            let register = module.op_of(value)->0->Register_0;
            let index = nat_of(word_of(start, env, read.address)) as int;
            let before = word_of(start, env, bank.words@[index]);
            let after = word_of(start, env, bank.next@[index]);
            let on = let_through(start, env, read.timing->enable);
            let hit = is_hit(start, env, read.address, read.timing->clock, writes);
            let next = taken_over(module, env, register.d, register.enable, held);
            &&& register.clock == read.timing->clock.value
            &&& register.edge == read.timing->clock.edge
            &&& !on ==> (read_disabled(read.timing->disabled, held) matches Some(word) ==> next
                == word)
            &&& on && hit ==> (read_collides(
                read.read_during_write,
                held,
                before,
                after,
            ) matches Some(word) ==> next == word)
            &&& on && !hit ==> next == (if read.read_during_write is NewData {
                after
            } else {
                before
            })
        }),
{
    let clock = read.timing->clock;
    let enable = read.timing->enable;
    let disabled = read.timing->disabled;
    let register = module.op_of(value)->0->Register_0;
    let index = nat_of(word_of(start, env, read.address)) as int;
    addresses_select_words(start, env, read.address, bank.words@.len() as int);
    lemma_is_hit(start, env, read.address, clock, writes, writes.len());
    lemma_let_through(start, env, enable);
    lemma_let_through(module, env, register.enable);
    assert(last_selected(start, env, read.address, index, bank.words@.len() as int));
}

} // verus!
