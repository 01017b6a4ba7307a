//! Which clock writes which word of a bank.

use super::pieces::selects;
use crate::word::bits::nat_of;
use crate::word::module::{
    KindView, MemoryClock, MemoryWritePort, ModuleView, ValueKind, WordModule,
};
use crate::word::semantics::{word_of, Env};
use crate::word::types::{ConstBits, MemoryId, ValueId};
use vstd::arithmetic::power2::pow2;
use vstd::prelude::*;

verus! {

/// Two values are read from the same place: they are one, or defined alike.
pub open spec fn same_source(module: ModuleView, left: ValueId, right: ValueId) -> bool {
    left == right || (module.has(left) && module.has(right) && module.ty(left) == module.ty(right)
        && module.kind(left) == module.kind(right))
}

/// Values that are read from the same place stand for the same word, unless they
/// are unknown.
pub proof fn same_sources_agree(module: ModuleView, env: Env, left: ValueId, right: ValueId)
    requires
        module.wf(),
        same_source(module, left, right),
        !(module.kind(left) is Constant),
        module.has(left),
    ensures
        word_of(module, env, left) == word_of(module, env, right),
{
    if left != right {
        assert(module.value_ok(left.raw as int));
        assert(module.value_ok(right.raw as int));
        match module.kind(left) {
            KindView::Signal(reference) => {
                assert(word_of(module, env, left) =~= word_of(module, env, right));
            },
            KindView::Operation(operation) => {
                assert(module.operations[operation.raw as int].result.raw == left.raw);
                assert(module.operations[operation.raw as int].result.raw == right.raw);
            },
            _ => {},
        }
    }
}

fn same_bits(left: &ConstBits, right: &ConstBits) -> (same: bool)
    ensures
        same == (left@ == right@),
{
    if left.bits.len() != right.bits.len() {
        return false;
    }
    let mut i: usize = 0;
    while i < left.bits.len()
        invariant
            left.bits@.len() == right.bits@.len(),
            i <= left.bits@.len(),
            forall|k: int| 0 <= k < i ==> #[trigger] left.bits@[k] == right.bits@[k],
        decreases left.bits.len() - i,
    {
        if left.bits[i] != right.bits[i] {
            assert(left@[i as int] != right@[i as int]);
            return false;
        }
        i += 1;
    }
    assert(left@ =~= right@);
    true
}

pub fn same_value(module: &WordModule, left: ValueId, right: ValueId) -> (same: bool)
    ensures
        same == same_source(module@, left, right),
{
    if left.raw == right.raw {
        return true;
    }
    if left.raw as usize >= module.values.len() || right.raw as usize >= module.values.len() {
        return false;
    }
    let first = &module.values[left.raw as usize];
    let second = &module.values[right.raw as usize];
    if first.ty != second.ty {
        return false;
    }
    match (&first.kind, &second.kind) {
        (ValueKind::Signal(a), ValueKind::Signal(b)) => *a == *b,
        (ValueKind::Constant(a), ValueKind::Constant(b)) => same_bits(a, b),
        (ValueKind::Operation(a), ValueKind::Operation(b)) => a.raw == b.raw,
        _ => false,
    }
}

pub open spec fn clocks_agree(module: ModuleView, left: MemoryClock, right: MemoryClock) -> bool {
    left.edge == right.edge && same_source(module, left.value, right.value)
}

pub fn same_clock(module: &WordModule, left: MemoryClock, right: MemoryClock) -> (same: bool)
    ensures
        same == clocks_agree(module@, left, right),
{
    left.edge == right.edge && same_value(module, left.value, right.value)
}

/// What is known of the numbers that values stand for: a least and a greatest
/// one.
pub type Ranges = Vec<Option<(u128, u128)>>;

/// Whether an address may be a number.
pub open spec fn may_address(ranges: Seq<Option<(u128, u128)>>, address: ValueId, index: nat) -> bool {
    if address.raw < ranges.len() {
        match ranges[address.raw as int] {
            Some(range) => range.0 <= index <= range.1,
            None => true,
        }
    } else {
        true
    }
}

pub fn write_may_address(ranges: &Ranges, address: ValueId, index: u32) -> (may: bool)
    ensures
        may == may_address(ranges@, address, index as nat),
{
    if (address.raw as usize) < ranges.len() {
        match ranges[address.raw as usize] {
            Some(range) => range.0 <= index as u128 && index as u128 <= range.1,
            None => true,
        }
    } else {
        true
    }
}

/// What is known of numbers holds in an environment.
pub open spec fn ranges_hold(
    module: ModuleView,
    ranges: Seq<Option<(u128, u128)>>,
    env: Env,
) -> bool {
    forall|v: ValueId|
        v.raw < ranges.len() ==> match ranges[v.raw as int] {
            Some(range) => range.0 <= nat_of(#[trigger] word_of(module, env, v)) <= range.1,
            None => true,
        }
}

/// A write that may not address a word does not, as long as its address has a
/// number of its own for the word.
pub proof fn excluded_words_are_not_selected(
    module: ModuleView,
    ranges: Seq<Option<(u128, u128)>>,
    env: Env,
    address: ValueId,
    index: nat,
)
    requires
        ranges_hold(module, ranges, env),
        !may_address(ranges, address, index),
        index < pow2(module.ty(address).width as nat),
    ensures
        !selects(module, env, address, index),
{
    vstd::arithmetic::div_mod::lemma_small_mod(index, pow2(module.ty(address).width as nat));
    assert(nat_of(word_of(module, env, address)) >= 0);
}

/// The writes of a memory among the first ones.
pub open spec fn writes_of(writes: Seq<MemoryWritePort>, memory: MemoryId, count: nat) -> Seq<
    MemoryWritePort,
>
    decreases count,
{
    if count == 0 {
        seq![]
    } else {
        let before = writes_of(writes, memory, (count - 1) as nat);
        if writes[count - 1].memory == memory {
            before.push(writes[count - 1])
        } else {
            before
        }
    }
}

pub fn collect_writes(writes: &Vec<MemoryWritePort>, memory: MemoryId) -> (found: Vec<
    MemoryWritePort,
>)
    ensures
        found@ == writes_of(writes@, memory, writes@.len()),
{
    let mut found: Vec<MemoryWritePort> = Vec::new();
    let mut i: usize = 0;
    while i < writes.len()
        invariant
            i <= writes@.len(),
            found@ == writes_of(writes@, memory, i as nat),
        decreases writes.len() - i,
    {
        if writes[i].memory.raw == memory.raw {
            found.push(writes[i]);
        }
        i += 1;
    }
    found
}

/// The clock of the first writes that may reach a word: the last of them, as long
/// as they all agree with the one before. The outer result is missing where two
/// disagree.
pub open spec fn word_clock(
    module: ModuleView,
    writes: Seq<MemoryWritePort>,
    ranges: Seq<Option<(u128, u128)>>,
    index: nat,
    count: nat,
) -> Option<Option<MemoryClock>>
    decreases count,
{
    if count == 0 {
        Some(None)
    } else {
        match word_clock(module, writes, ranges, index, (count - 1) as nat) {
            None => None,
            Some(clock) => {
                let write = writes[count - 1];
                if !may_address(ranges, write.address, index) {
                    Some(clock)
                } else {
                    match clock {
                        Some(other) => if clocks_agree(module, other, write.clock) {
                            Some(Some(write.clock))
                        } else {
                            None
                        },
                        None => Some(Some(write.clock)),
                    }
                }
            },
        }
    }
}

/// The clock of every word of a bank; a word that nothing reaches has that of the
/// first write.
pub open spec fn bank_clocks(
    module: ModuleView,
    writes: Seq<MemoryWritePort>,
    ranges: Seq<Option<(u128, u128)>>,
    depth: nat,
) -> Option<Seq<MemoryClock>> {
    if writes.len() > 0 && forall|i: nat|
        i < depth ==> #[trigger] word_clock(module, writes, ranges, i, writes.len()) is Some {
        Some(
            Seq::new(
                depth,
                |i: int|
                    match word_clock(module, writes, ranges, i as nat, writes.len())->0 {
                        Some(clock) => clock,
                        None => writes[0].clock,
                    },
            ),
        )
    } else {
        None
    }
}

proof fn lemma_clock_conflict(
    module: ModuleView,
    writes: Seq<MemoryWritePort>,
    ranges: Seq<Option<(u128, u128)>>,
    index: nat,
    count: nat,
    total: nat,
)
    requires
        count <= total,
        word_clock(module, writes, ranges, index, count) is None,
    ensures
        word_clock(module, writes, ranges, index, total) is None,
    decreases total - count,
{
    if count < total {
        lemma_clock_conflict(module, writes, ranges, index, count, (total - 1) as nat);
    }
}

fn find_word_clock(
    module: &WordModule,
    writes: &Vec<MemoryWritePort>,
    ranges: &Ranges,
    index: u32,
) -> (result: Option<Option<MemoryClock>>)
    ensures
        result == word_clock(module@, writes@, ranges@, index as nat, writes@.len()),
{
    let mut clock: Option<MemoryClock> = None;
    let mut i: usize = 0;
    while i < writes.len()
        invariant
            i <= writes@.len(),
            word_clock(module@, writes@, ranges@, index as nat, i as nat) == Some(clock),
        decreases writes.len() - i,
    {
        let write = writes[i];
        if write_may_address(ranges, write.address, index) {
            if let Some(other) = clock {
                if !same_clock(module, other, write.clock) {
                    proof {
                        lemma_clock_conflict(
                            module@,
                            writes@,
                            ranges@,
                            index as nat,
                            (i + 1) as nat,
                            writes@.len(),
                        );
                    }
                    return None;
                }
            }
            clock = Some(write.clock);
        }
        i += 1;
    }
    Some(clock)
}

/// The clocks of the words of a memory. Different clocks are in order only where
/// they cannot reach the same word.
pub fn register_bank_word_clocks(
    module: &WordModule,
    memory: MemoryId,
    ranges: &Ranges,
) -> (result: Option<Vec<MemoryClock>>)
    ensures
        match result {
            Some(clocks) => memory.raw < module@.memories.len() && bank_clocks(
                module@,
                writes_of(module@.memory_writes, memory, module@.memory_writes.len()),
                ranges@,
                module@.memories[memory.raw as int].depth as nat,
            ) == Some(clocks@),
            None => memory.raw >= module@.memories.len() || bank_clocks(
                module@,
                writes_of(module@.memory_writes, memory, module@.memory_writes.len()),
                ranges@,
                module@.memories[memory.raw as int].depth as nat,
            ) is None,
        },
{
    if memory.raw as usize >= module.memories.len() {
        return None;
    }
    let depth: u32 = module.memories[memory.raw as usize].depth;
    let writes = collect_writes(&module.memory_writes, memory);
    if writes.len() == 0 {
        return None;
    }
    let mut clocks: Vec<MemoryClock> = Vec::new();
    let mut i: u32 = 0;
    while i < depth
        invariant
            i <= depth,
            memory.raw < module@.memories.len(),
            depth == module@.memories[memory.raw as int].depth,
            writes@ == writes_of(module@.memory_writes, memory, module@.memory_writes.len()),
            writes@.len() > 0,
            clocks@.len() == i,
            forall|k: nat|
                k < i ==> #[trigger] word_clock(module@, writes@, ranges@, k, writes@.len()) is Some,
            forall|k: int|
                0 <= k < i ==> #[trigger] clocks@[k] == match word_clock(
                    module@,
                    writes@,
                    ranges@,
                    k as nat,
                    writes@.len(),
                )->0 {
                    Some(clock) => clock,
                    None => writes@[0].clock,
                },
        decreases depth - i,
    {
        match find_word_clock(module, &writes, ranges, i) {
            None => {
                assert(word_clock(module@, writes@, ranges@, i as nat, writes@.len()) is None);
                assert(bank_clocks(module@, writes@, ranges@, depth as nat) is None);
                return None;
            },
            Some(clock) => {
                clocks.push(
                    match clock {
                        Some(clock) => clock,
                        None => writes[0].clock,
                    },
                );
            },
        }
        i += 1;
    }
    proof {
        let found = bank_clocks(module@, writes@, ranges@, depth as nat);
        assert(found is Some);
        assert(found->0 =~= clocks@);
    }
    Some(clocks)
}

/// Whether a memory can be a bank of registers.
pub fn register_bank_is_supported(module: &WordModule, memory: MemoryId, ranges: &Ranges)
    -> (supported: bool)
    ensures
        supported == (memory.raw < module@.memories.len() && bank_clocks(
            module@,
            writes_of(module@.memory_writes, memory, module@.memory_writes.len()),
            ranges@,
            module@.memories[memory.raw as int].depth as nat,
        ) is Some),
{
    register_bank_word_clocks(module, memory, ranges).is_some()
}

} // verus!
