//! Which implementation each memory of a region gets.

use super::decision::{decode_memory_implementations, MemoryImplementationCandidate};
use crate::error::{Invariant, Resource, SynthError};
use crate::planning::architecture::{bit_length, length_of};
use crate::planning::fsm::transition::facts_view;
use crate::planning::memory::clocks::{
    bank_clocks, collect_writes, register_bank_is_supported, writes_of, Ranges,
};
use crate::planning::memory::macros::{
    collect_reads, compatible_memory_macros, reads_of, suiting_cells,
};
use crate::planning::memory::target::TargetCell;
use crate::planning::provider::StructuralEstimate;
use crate::word::module::{ModuleView, WordModule};
use crate::word::types::{BitVal, ConstBits, MemoryId};
use vstd::prelude::*;

verus! {

/// What an implementation costs under a target: what counts most comes first.
#[derive(Clone, Copy, PartialEq, Eq, Structural, Debug)]
pub struct CandidateCost {
    pub primary: u64,
    pub secondary: u64,
    pub depth: u64,
}

/// An implementation with its cost.
#[derive(Clone, Copy, PartialEq, Eq, Structural, Debug)]
pub struct RankedCandidate {
    pub cost: CandidateCost,
    pub candidate: MemoryImplementationCandidate,
}

/// Whether an implementation comes before another: by cost, and then by number.
pub open spec fn precedes(left: RankedCandidate, right: RankedCandidate) -> bool {
    if left.cost.primary != right.cost.primary {
        left.cost.primary < right.cost.primary
    } else if left.cost.secondary != right.cost.secondary {
        left.cost.secondary < right.cost.secondary
    } else if left.cost.depth != right.cost.depth {
        left.cost.depth < right.cost.depth
    } else {
        left.candidate.number() < right.candidate.number()
    }
}

fn comes_before(left: &RankedCandidate, right: &RankedCandidate) -> (before: bool)
    ensures
        before == precedes(*left, *right),
{
    if left.cost.primary != right.cost.primary {
        left.cost.primary < right.cost.primary
    } else if left.cost.secondary != right.cost.secondary {
        left.cost.secondary < right.cost.secondary
    } else if left.cost.depth != right.cost.depth {
        left.cost.depth < right.cost.depth
    } else {
        left.candidate.raw() < right.candidate.raw()
    }
}

/// A number, or the greatest one of sixty-four bits where that is less.
pub open spec fn capped(number: int) -> int {
    if number > u64::MAX {
        u64::MAX as int
    } else {
        number
    }
}

fn capped_product(left: u64, right: u64) -> (product: u64)
    ensures
        product == capped(left * right),
{
    assert(left * right <= u64::MAX * u64::MAX) by (nonlinear_arith)
        requires
            0 <= left <= u64::MAX,
            0 <= right <= u64::MAX,
    ;
    let exact: u128 = left as u128 * right as u128;
    if exact > u64::MAX as u128 {
        u64::MAX
    } else {
        exact as u64
    }
}

fn capped_sum(left: u64, right: u64) -> (sum: u64)
    ensures
        sum == capped(left + right),
{
    let exact: u128 = left as u128 + right as u128;
    if exact > u64::MAX as u128 {
        u64::MAX
    } else {
        exact as u64
    }
}

/// The size of a bank of registers: a bit for each place of each word, a selection
/// of it for each read, and an enable of each word for each write.
pub open spec fn bank_units(depth: int, width: int, reads: int, writes: int) -> int {
    capped(capped(capped(depth * width) * capped(1 + reads)) + capped(depth * writes))
}

/// The number of the last word of a memory.
pub open spec fn last_word(depth: u32) -> nat {
    if depth == 0 {
        0
    } else {
        (depth - 1) as nat
    }
}

/// What a bank of registers for a memory takes.
pub open spec fn bank_needs(module: ModuleView, memory: MemoryId, estimate: StructuralEstimate) -> bool {
    let stored = module.memories[memory.raw as int];
    let reads = reads_of(module.memory_reads, memory, module.memory_reads.len()).len() as int;
    let writes = writes_of(module.memory_writes, memory, module.memory_writes.len()).len() as int;
    let width = stored.element_type.width as int;
    &&& estimate.logic_depth == bit_length(last_word(stored.depth)) + 1
    &&& estimate.logic_units == bank_units(stored.depth as int, width, reads, writes)
    &&& estimate.wiring_units == capped(
        estimate.logic_units + capped(width * capped(reads + writes)),
    )
}

/// What a bank of registers for a memory takes, where the memory is known.
pub fn bank_estimate(module: &WordModule, memory: MemoryId) -> (estimate: Option<StructuralEstimate>)
    requires
        module@.wf(),
    ensures
        match estimate {
            Some(estimate) => memory.raw < module@.memories.len() && bank_needs(
                module@,
                memory,
                estimate,
            ),
            None => memory.raw >= module@.memories.len(),
        },
{
    if memory.raw as usize >= module.memories.len() {
        return None;
    }
    let stored = &module.memories[memory.raw as usize];
    let depth: u32 = stored.depth;
    let width: u64 = stored.element_type.width as u64;
    let reads: u64 = collect_reads(&module.memory_reads, memory).len() as u64;
    let writes: u64 = collect_writes(&module.memory_writes, memory).len() as u64;
    let places = capped_product(capped_product(depth as u64, width), capped_sum(1, reads));
    let logic_units = capped_sum(places, capped_product(depth as u64, writes));
    let ports = capped_product(width, capped_sum(reads, writes));
    let last: u32 = if depth == 0 {
        0
    } else {
        depth - 1
    };
    let levels: u32 = length_of(last as u128);
    Some(
        StructuralEstimate {
            logic_depth: levels + 1,
            logic_units,
            wiring_units: capped_sum(logic_units, ports),
        },
    )
}

/// Whether a bank of registers can hold a memory.
pub open spec fn bank_supported(
    module: ModuleView,
    memory: MemoryId,
    ranges: Seq<Option<(u128, u128)>>,
) -> bool {
    memory.raw < module.memories.len() && bank_clocks(
        module,
        writes_of(module.memory_writes, memory, module.memory_writes.len()),
        ranges,
        module.memories[memory.raw as int].depth as nat,
    ) is Some
}

/// Cells with their costs; a cell whose cost is not known is left out.
pub open spec fn priced_cells(
    found: Seq<u32>,
    costs: Seq<Option<CandidateCost>>,
    count: nat,
) -> Seq<RankedCandidate>
    decreases count,
{
    if count == 0 {
        seq![]
    } else {
        let before = priced_cells(found, costs, (count - 1) as nat);
        let cell = found[count - 1];
        if cell < costs.len() && costs[cell as int] is Some {
            before.push(
                RankedCandidate {
                    cost: costs[cell as int]->0,
                    candidate: MemoryImplementationCandidate::Macro(cell),
                },
            )
        } else {
            before
        }
    }
}

/// Every implementation of a memory whose cost is known: the bank of registers,
/// and the cells in their order.
pub open spec fn priced_candidates(
    supported: bool,
    bank: Option<CandidateCost>,
    found: Seq<u32>,
    costs: Seq<Option<CandidateCost>>,
) -> Seq<RankedCandidate> {
    let cells = priced_cells(found, costs, found.len());
    if supported && bank is Some {
        seq![
            RankedCandidate {
                cost: bank->0,
                candidate: MemoryImplementationCandidate::RegisterBank,
            },
        ] + cells
    } else {
        cells
    }
}

/// No implementation comes before one that stands earlier.
pub open spec fn in_order(ranked: Seq<RankedCandidate>) -> bool {
    forall|i: int, j: int|
        0 <= i < j < ranked.len() ==> !precedes(#[trigger] ranked[j], #[trigger] ranked[i])
}

fn insert_ranked(ranked: &mut Vec<RankedCandidate>, candidate: RankedCandidate)
    requires
        in_order(old(ranked)@),
    ensures
        in_order(final(ranked)@),
        final(ranked)@.to_multiset() == old(ranked)@.to_multiset().insert(candidate),
        final(ranked)@.len() == old(ranked)@.len() + 1,
{
    let ghost start = ranked@;
    let mut at: usize = ranked.len();
    while at > 0 && comes_before(&candidate, &ranked[at - 1])
        invariant
            start == ranked@,
            at <= ranked@.len(),
            forall|i: int| at <= i < ranked@.len() ==> precedes(candidate, #[trigger] ranked@[i]),
        decreases at,
    {
        at -= 1;
    }
    ranked.insert(at, candidate);
    proof {
        broadcast use vstd::seq_lib::group_to_multiset_ensures;

        assert(ranked@ == start.insert(at as int, candidate));
    }
}

/// What one memory may be implemented as.
pub open spec fn memory_candidates(
    module: ModuleView,
    facts: Seq<Option<Seq<BitVal>>>,
    ranges: Seq<Option<(u128, u128)>>,
    memory: MemoryId,
    cells: Seq<TargetCell>,
    bank: Option<CandidateCost>,
    costs: Seq<Option<CandidateCost>>,
) -> Seq<RankedCandidate> {
    priced_candidates(
        bank_supported(module, memory, ranges),
        bank,
        suiting_cells(module, facts, ranges, memory, cells, cells.len()),
        costs,
    )
}

/// Why a memory has no ranking.
pub open spec fn ranking_fault(
    module: ModuleView,
    memory: MemoryId,
    cells: Seq<TargetCell>,
    candidates: Seq<RankedCandidate>,
) -> Option<SynthError> {
    if memory.raw >= module.memories.len() {
        Some(SynthError::Invariant(Invariant::UnknownMemory))
    } else if cells.len() > u32::MAX {
        Some(SynthError::Capacity(Resource::Candidates))
    } else if candidates.len() == 0 {
        Some(SynthError::Invariant(Invariant::NoCandidate))
    } else {
        None
    }
}

/// The implementations of a memory, the best one first. The cost of the bank of
/// registers and of every cell is known or not.
pub fn rank_memory(
    module: &WordModule,
    facts: &Vec<Option<ConstBits>>,
    ranges: &Ranges,
    memory: MemoryId,
    cells: &Vec<TargetCell>,
    bank: Option<CandidateCost>,
    costs: &Vec<Option<CandidateCost>>,
) -> (result: Result<Vec<RankedCandidate>, SynthError>)
    requires
        module@.wf(),
    ensures
        ({
            let candidates = memory_candidates(
                module@,
                facts_view(facts@),
                ranges@,
                memory,
                cells@,
                bank,
                costs@,
            );
            match ranking_fault(module@, memory, cells@, candidates) {
                Some(error) => result == Err::<Vec<RankedCandidate>, SynthError>(error),
                None => result is Ok && in_order(result->Ok_0@) && result->Ok_0@.to_multiset()
                    == candidates.to_multiset(),
            }
        }),
{
    broadcast use vstd::seq_lib::group_to_multiset_ensures;

    if memory.raw as usize >= module.memories.len() {
        return Err(SynthError::Invariant(Invariant::UnknownMemory));
    }
    if cells.len() as u64 > u32::MAX as u64 {
        return Err(SynthError::Capacity(Resource::Candidates));
    }
    let found = match compatible_memory_macros(module, facts, ranges, memory, cells) {
        Ok(found) => found,
        Err(error) => {
            assert(false);
            return Err(error);
        },
    };
    let supported = register_bank_is_supported(module, memory, ranges);
    let mut ranked: Vec<RankedCandidate> = Vec::new();
    let ghost mut listed = Seq::<RankedCandidate>::empty();
    if supported {
        if let Some(cost) = bank {
            let candidate = RankedCandidate {
                cost,
                candidate: MemoryImplementationCandidate::RegisterBank,
            };
            insert_ranked(&mut ranked, candidate);
            proof {
                listed = seq![candidate];
                assert(listed =~= Seq::<RankedCandidate>::empty().push(candidate));
            }
        }
    }
    let ghost first = listed;
    assert(priced_candidates(supported, bank, found@, costs@) =~= first + priced_cells(
        found@,
        costs@,
        found@.len(),
    ));
    assert(listed =~= first + priced_cells(found@, costs@, 0));
    let mut i: usize = 0;
    while i < found.len()
        invariant
            i <= found@.len(),
            in_order(ranked@),
            listed == first + priced_cells(found@, costs@, i as nat),
            ranked@.to_multiset() == listed.to_multiset(),
            ranked@.len() == listed.len(),
        decreases found.len() - i,
    {
        let cell: u32 = found[i];
        if (cell as usize) < costs.len() {
            if let Some(cost) = costs[cell as usize] {
                let candidate = RankedCandidate {
                    cost,
                    candidate: MemoryImplementationCandidate::Macro(cell),
                };
                insert_ranked(&mut ranked, candidate);
                proof {
                    broadcast use vstd::seq_lib::group_to_multiset_ensures;

                    assert(first + priced_cells(found@, costs@, (i + 1) as nat) =~= listed.push(
                        candidate,
                    ));
                    listed = listed.push(candidate);
                }
            }
        }
        assert(listed =~= first + priced_cells(found@, costs@, (i + 1) as nat));
        i += 1;
    }
    if ranked.len() == 0 {
        return Err(SynthError::Invariant(Invariant::NoCandidate));
    }
    Ok(ranked)
}

/// A candidate is among those of a list, and none of them comes before it.
pub open spec fn is_best(candidates: Seq<RankedCandidate>, best: MemoryImplementationCandidate) -> bool {
    exists|k: int|
        0 <= k < candidates.len() && (#[trigger] candidates[k]).candidate == best && forall|j: int|
            0 <= j < candidates.len() ==> !precedes(#[trigger] candidates[j], candidates[k])
}

proof fn lemma_first_is_best(candidates: Seq<RankedCandidate>, ranked: Seq<RankedCandidate>)
    requires
        in_order(ranked),
        ranked.to_multiset() == candidates.to_multiset(),
        ranked.len() > 0,
    ensures
        is_best(candidates, ranked[0].candidate),
{
    broadcast use vstd::seq_lib::group_to_multiset_ensures;

    assert(ranked.contains(ranked[0]));
    assert(ranked.to_multiset().count(ranked[0]) > 0);
    assert(candidates.contains(ranked[0]));
    let k = choose|k: int| 0 <= k < candidates.len() && candidates[k] == ranked[0];
    assert forall|j: int| 0 <= j < candidates.len() implies !precedes(
        #[trigger] candidates[j],
        candidates[k],
    ) by {
        assert(candidates.contains(candidates[j]));
        assert(candidates.to_multiset().count(candidates[j]) > 0);
        assert(ranked.contains(candidates[j]));
        let i = choose|i: int| 0 <= i < ranked.len() && ranked[i] == candidates[j];
        if i > 0 {
            assert(!precedes(ranked[i], ranked[0]));
        }
    }
}

/// Costs of the banks of registers of some memories; one that is missing is not
/// known.
pub open spec fn bank_cost(banks: Seq<Option<CandidateCost>>, place: int) -> Option<CandidateCost> {
    if place < banks.len() {
        banks[place]
    } else {
        None
    }
}

/// What the memory at a place of a list may be implemented as.
pub open spec fn candidates_at(
    module: ModuleView,
    facts: Seq<Option<Seq<BitVal>>>,
    ranges: Seq<Option<(u128, u128)>>,
    memories: Seq<MemoryId>,
    cells: Seq<TargetCell>,
    banks: Seq<Option<CandidateCost>>,
    costs: Seq<Option<CandidateCost>>,
    place: int,
) -> Seq<RankedCandidate> {
    memory_candidates(
        module,
        facts,
        ranges,
        memories[place],
        cells,
        bank_cost(banks, place),
        costs,
    )
}

/// The best implementation of every memory of a region, or why the first memory
/// without one has none.
pub fn search_region(
    module: &WordModule,
    facts: &Vec<Option<ConstBits>>,
    ranges: &Ranges,
    memories: &Vec<MemoryId>,
    cells: &Vec<TargetCell>,
    banks: &Vec<Option<CandidateCost>>,
    costs: &Vec<Option<CandidateCost>>,
) -> (result: Result<Vec<MemoryImplementationCandidate>, SynthError>)
    requires
        module@.wf(),
    ensures
        match result {
            Ok(chosen) => {
                &&& chosen@.len() == memories@.len()
                &&& forall|i: int|
                    0 <= i < chosen@.len() ==> is_best(
                        candidates_at(
                            module@,
                            facts_view(facts@),
                            ranges@,
                            memories@,
                            cells@,
                            banks@,
                            costs@,
                            i,
                        ),
                        #[trigger] chosen@[i],
                    )
                &&& forall|i: int|
                    0 <= i < memories@.len() ==> ranking_fault(
                        module@,
                        #[trigger] memories@[i],
                        cells@,
                        candidates_at(
                            module@,
                            facts_view(facts@),
                            ranges@,
                            memories@,
                            cells@,
                            banks@,
                            costs@,
                            i,
                        ),
                    ) is None
            },
            Err(error) => exists|i: int|
                0 <= i < memories@.len() && ranking_fault(
                    module@,
                    #[trigger] memories@[i],
                    cells@,
                    candidates_at(
                        module@,
                        facts_view(facts@),
                        ranges@,
                        memories@,
                        cells@,
                        banks@,
                        costs@,
                        i,
                    ),
                ) == Some(error) && forall|j: int|
                    0 <= j < i ==> ranking_fault(
                        module@,
                        #[trigger] memories@[j],
                        cells@,
                        candidates_at(
                            module@,
                            facts_view(facts@),
                            ranges@,
                            memories@,
                            cells@,
                            banks@,
                            costs@,
                            j,
                        ),
                    ) is None,
        },
{
    let mut chosen: Vec<MemoryImplementationCandidate> = Vec::new();
    let mut i: usize = 0;
    while i < memories.len()
        invariant
            module@.wf(),
            i <= memories@.len(),
            chosen@.len() == i,
            forall|j: int|
                0 <= j < i ==> is_best(
                    candidates_at(
                        module@,
                        facts_view(facts@),
                        ranges@,
                        memories@,
                        cells@,
                        banks@,
                        costs@,
                        j,
                    ),
                    #[trigger] chosen@[j],
                ),
            forall|j: int|
                0 <= j < i ==> ranking_fault(
                    module@,
                    #[trigger] memories@[j],
                    cells@,
                    candidates_at(
                        module@,
                        facts_view(facts@),
                        ranges@,
                        memories@,
                        cells@,
                        banks@,
                        costs@,
                        j,
                    ),
                ) is None,
        decreases memories.len() - i,
    {
        let bank = if i < banks.len() {
            banks[i]
        } else {
            None
        };
        let ghost candidates = candidates_at(
            module@,
            facts_view(facts@),
            ranges@,
            memories@,
            cells@,
            banks@,
            costs@,
            i as int,
        );
        match rank_memory(module, facts, ranges, memories[i], cells, bank, costs) {
            Ok(ranked) => {
                proof {
                    broadcast use vstd::seq_lib::group_to_multiset_ensures;

                    assert(ranked@.to_multiset().len() == candidates.to_multiset().len());
                    lemma_first_is_best(candidates, ranked@);
                }
                chosen.push(ranked[0].candidate);
            },
            Err(error) => {
                assert(memories@[i as int] == memories@[i as int]);
                return Err(error);
            },
        }
        i += 1;
    }
    Ok(chosen)
}

/// Whether a memory may be implemented in a way.
pub open spec fn may_implement(
    module: ModuleView,
    facts: Seq<Option<Seq<BitVal>>>,
    ranges: Seq<Option<(u128, u128)>>,
    memory: MemoryId,
    cells: Seq<TargetCell>,
    implementation: MemoryImplementationCandidate,
) -> bool {
    match implementation {
        MemoryImplementationCandidate::RegisterBank => bank_supported(module, memory, ranges),
        MemoryImplementationCandidate::Macro(cell) => memory.raw < module.memories.len()
            && cells.len() <= u32::MAX && suiting_cells(
            module,
            facts,
            ranges,
            memory,
            cells,
            cells.len(),
        ).contains(cell),
    }
}

fn is_listed(numbers: &Vec<u32>, number: u32) -> (found: bool)
    ensures
        found == numbers@.contains(number),
{
    let mut i: usize = 0;
    while i < numbers.len()
        invariant
            i <= numbers@.len(),
            forall|j: int| 0 <= j < i ==> #[trigger] numbers@[j] != number,
        decreases numbers.len() - i,
    {
        if numbers[i] == number {
            assert(numbers@[i as int] == number);
            return true;
        }
        i += 1;
    }
    false
}

/// Whether implementations that were kept as bytes still fit the memories of a
/// region: one for each, which the target offers.
pub fn validate_cached_region(
    module: &WordModule,
    facts: &Vec<Option<ConstBits>>,
    ranges: &Ranges,
    memories: &Vec<MemoryId>,
    cells: &Vec<TargetCell>,
    cached: &Vec<u8>,
) -> (result: Result<(), SynthError>)
    requires
        module@.wf(),
    ensures
        result is Ok <==> cached@.len() == 4 * memories@.len() && forall|i: int|
            0 <= i < memories@.len() ==> may_implement(
                module@,
                facts_view(facts@),
                ranges@,
                #[trigger] memories@[i],
                cells@,
                super::decision::decoded(cached@)[i],
            ),
        result is Err && cached@.len() != 4 * memories@.len() ==> result->Err_0
            == SynthError::Invariant(Invariant::BrokenSelection),
        result is Err && cells@.len() <= u32::MAX && (forall|i: int|
            0 <= i < memories@.len() ==> (#[trigger] memories@[i]).raw < module@.memories.len())
            ==> result->Err_0 == SynthError::Invariant(Invariant::BrokenSelection),
{
    if cached.len() % 4 != 0 || cached.len() / 4 != memories.len() {
        return Err(SynthError::Invariant(Invariant::BrokenSelection));
    }
    let implementations = match decode_memory_implementations(cached) {
        Ok(implementations) => implementations,
        Err(error) => {
            assert(false);
            return Err(error);
        },
    };
    let ghost kept = super::decision::decoded(cached@);
    let mut i: usize = 0;
    while i < memories.len()
        invariant
            module@.wf(),
            kept == super::decision::decoded(cached@),
            implementations@ == kept,
            kept.len() == memories@.len(),
            cached@.len() == 4 * memories@.len(),
            i <= memories@.len(),
            forall|j: int|
                0 <= j < i ==> may_implement(
                    module@,
                    facts_view(facts@),
                    ranges@,
                    #[trigger] memories@[j],
                    cells@,
                    kept[j],
                ),
        decreases memories.len() - i,
    {
        let memory = memories[i];
        assert(memories@[i as int] == memory);
        let valid = match implementations[i] {
            MemoryImplementationCandidate::RegisterBank => register_bank_is_supported(
                module,
                memory,
                ranges,
            ),
            MemoryImplementationCandidate::Macro(cell) => {
                if memory.raw as usize >= module.memories.len() {
                    return Err(SynthError::Invariant(Invariant::UnknownMemory));
                }
                if cells.len() as u64 > u32::MAX as u64 {
                    return Err(SynthError::Capacity(Resource::Candidates));
                }
                match compatible_memory_macros(module, facts, ranges, memory, cells) {
                    Ok(found) => is_listed(&found, cell),
                    Err(error) => {
                        assert(false);
                        return Err(error);
                    },
                }
            },
        };
        if !valid {
            return Err(SynthError::Invariant(Invariant::BrokenSelection));
        }
        i += 1;
    }
    Ok(())
}

/// What is chosen for a memory may implement it, so that a decision that was kept
/// passes when it is read again.
pub proof fn chosen_implementations_are_valid(
    module: ModuleView,
    facts: Seq<Option<Seq<BitVal>>>,
    ranges: Seq<Option<(u128, u128)>>,
    memory: MemoryId,
    cells: Seq<TargetCell>,
    bank: Option<CandidateCost>,
    costs: Seq<Option<CandidateCost>>,
    chosen: MemoryImplementationCandidate,
)
    requires
        memory.raw < module.memories.len(),
        cells.len() <= u32::MAX,
        is_best(memory_candidates(module, facts, ranges, memory, cells, bank, costs), chosen),
    ensures
        may_implement(module, facts, ranges, memory, cells, chosen),
{
    let found = suiting_cells(module, facts, ranges, memory, cells, cells.len());
    let candidates = memory_candidates(module, facts, ranges, memory, cells, bank, costs);
    let k = choose|k: int|
        0 <= k < candidates.len() && (#[trigger] candidates[k]).candidate == chosen && forall|
            j: int,
        |
            0 <= j < candidates.len() ==> !precedes(#[trigger] candidates[j], candidates[k]);
    lemma_priced_cells(found, costs, found.len());
    let priced = priced_cells(found, costs, found.len());
    if bank_supported(module, memory, ranges) && bank is Some {
        if k > 0 {
            assert(candidates[k] == priced[k - 1]);
        }
    } else {
        assert(candidates[k] == priced[k]);
    }
}

proof fn lemma_priced_cells(found: Seq<u32>, costs: Seq<Option<CandidateCost>>, count: nat)
    requires
        count <= found.len(),
    ensures
        forall|k: int|
            0 <= k < priced_cells(found, costs, count).len() ==> (#[trigger] priced_cells(
                found,
                costs,
                count,
            )[k]).candidate is Macro && found.contains(
                priced_cells(found, costs, count)[k].candidate->Macro_0,
            ),
    decreases count,
{
    if count > 0 {
        lemma_priced_cells(found, costs, (count - 1) as nat);
        assert(found.contains(found[count - 1]));
    }
}

} // verus!
