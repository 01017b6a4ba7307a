//! How implementations of memories are ranked, and what a bank of registers is reckoned at.

use super::search::{bank_needs, capped, last_word, precedes, CandidateCost, RankedCandidate};
use crate::planning::architecture::bit_length_is_tight;
use crate::planning::memory::clocks::writes_of;
use crate::planning::memory::macros::reads_of;
use crate::planning::provider::StructuralEstimate;
use crate::word::module::ModuleView;
use crate::word::types::MemoryId;
use vstd::arithmetic::power2::{lemma2_to64, pow2};
use vstd::prelude::*;

verus! {

/// No part of a cost is more than that of another.
pub open spec fn costs_no_more(left: CandidateCost, right: CandidateCost) -> bool {
    left.primary <= right.primary && left.secondary <= right.secondary && left.depth <= right.depth
}

/// The ranking is a strict order in which any two implementations of different number or cost
/// are told apart; what costs no more in any part and not the same goes first; and so does
/// what costs less in a part that counts more, whatever the others cost.
pub proof fn implementations_are_ranked_by_cost(
    first: RankedCandidate,
    second: RankedCandidate,
    third: RankedCandidate,
)
    ensures
        !precedes(first, first),
        precedes(first, second) && precedes(second, third) ==> precedes(first, third),
        precedes(first, second) ==> !precedes(second, first),
        first.cost != second.cost || first.candidate.number() != second.candidate.number()
            ==> precedes(first, second) || precedes(second, first),
        costs_no_more(first.cost, second.cost) && first.cost != second.cost ==> precedes(
            first,
            second,
        ),
        first.cost.primary < second.cost.primary ==> precedes(first, second),
        first.cost.primary == second.cost.primary && first.cost.secondary < second.cost.secondary
            ==> precedes(first, second),
        first.cost == second.cost && first.candidate.number() < second.candidate.number()
            ==> precedes(first, second),
{
}

/// A bank of registers has a level for each address bit and one more, and takes a place for
/// each bit of each word, as many again for each read, and one for each word and write; as
/// far as that can be counted.
pub proof fn banks_are_reckoned_by_their_places(
    module: ModuleView,
    memory: MemoryId,
    estimate: StructuralEstimate,
)
    requires
        memory.raw < module.memories.len(),
        bank_needs(module, memory, estimate),
    ensures
        ({
            let depth = module.memories[memory.raw as int].depth as int;
            let width = module.memories[memory.raw as int].element_type.width as int;
            let reads = reads_of(
                module.memory_reads,
                memory,
                module.memory_reads.len(),
            ).len() as int;
            let writes = writes_of(
                module.memory_writes,
                memory,
                module.memory_writes.len(),
            ).len() as int;
            let places = depth * width + depth * width * reads + depth * writes;
            &&& estimate.logic_depth >= 1
            &&& depth <= pow2((estimate.logic_depth - 1) as nat)
            &&& depth >= 2 ==> estimate.logic_depth >= 2 && pow2((estimate.logic_depth - 2) as nat)
                < depth
            &&& places <= u64::MAX ==> estimate.logic_units == places
            &&& places > u64::MAX && 1 + reads <= u64::MAX ==> estimate.logic_units == u64::MAX
            &&& estimate.wiring_units >= estimate.logic_units
            &&& places + width * (reads + writes) <= u64::MAX ==> estimate.wiring_units == places
                + width * (reads + writes)
        }),
{
    let depth = module.memories[memory.raw as int].depth as int;
    let width = module.memories[memory.raw as int].element_type.width as int;
    let reads = reads_of(module.memory_reads, memory, module.memory_reads.len()).len() as int;
    let writes = writes_of(module.memory_writes, memory, module.memory_writes.len()).len() as int;
    let last = last_word(module.memories[memory.raw as int].depth);
    bit_length_is_tight(last);
    lemma2_to64();
    let square = depth * width;
    assert(square >= 0 && square * reads >= 0 && depth * writes >= 0 && square <= u32::MAX
        * u32::MAX && width * (reads + writes) >= 0) by (nonlinear_arith)
        requires
            0 <= depth <= u32::MAX,
            0 <= width <= u32::MAX,
            reads >= 0,
            writes >= 0,
            square == depth * width,
    ;
    assert(capped(square) == square);
    assert(square * (1 + reads) == square + square * reads) by (nonlinear_arith);
    assert(depth * width * reads == square * reads);
    let inner = capped(depth * width) * capped(1 + reads);
    if 1 + reads <= u64::MAX {
        assert(inner == square * (1 + reads));
    } else if square == 0 {
        assert(inner == 0 && square * reads == 0) by (nonlinear_arith)
            requires
                square == 0,
                inner == square * capped(1 + reads),
        ;
    } else {
        assert(square * reads >= reads) by (nonlinear_arith)
            requires
                square >= 1,
                reads >= 0,
        ;
    }
    assert(estimate.logic_units == capped(capped(inner) + capped(depth * writes)));
    let ports = width * capped(reads + writes);
    if reads + writes <= u64::MAX {
        assert(ports == width * (reads + writes));
    } else if width == 0 {
        assert(ports == 0 && width * (reads + writes) == 0) by (nonlinear_arith)
            requires
                width == 0,
                ports == width * capped(reads + writes),
        ;
    } else {
        assert(width * (reads + writes) >= reads + writes) by (nonlinear_arith)
            requires
                width >= 1,
                reads + writes >= 0,
        ;
    }
    assert(ports >= 0) by (nonlinear_arith)
        requires
            width >= 0,
            capped(reads + writes) >= 0,
            ports == width * capped(reads + writes),
    ;
    assert(estimate.wiring_units == capped(estimate.logic_units + capped(ports)));
}

} // verus!
