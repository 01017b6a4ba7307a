//! Which operations and states of the source a local operation stands for.

use super::operation_provenance::{
    inherits, keeps_prefix, put_row, raws, reads_back, row_views, LocalOperationProvenance,
    OperationRewrite,
};
use super::row::{holds_exactly, listed, normalized, NumberRow};
use crate::error::{Invariant, SynthError};
use crate::word::module::WordModule;
use crate::word::types::{MemoryId, OpId};
use vstd::prelude::*;

verus! {

/// Where a state of the local module comes from.
#[derive(Clone, Copy, PartialEq, Eq, Structural, Debug)]
pub enum LocalStateSource {
    Operation(OpId),
    Memory { memory: MemoryId, ordinal: u32 },
}

/// The place of a state in the order: operations first, and then the words of
/// memories.
pub open spec fn state_number(state: LocalStateSource) -> int {
    match state {
        LocalStateSource::Operation(operation) => operation.raw as int,
        LocalStateSource::Memory { memory, ordinal } => 0x1_0000_0000 * (1 + memory.raw) + ordinal,
    }
}

fn place_of(state: LocalStateSource) -> (number: u128)
    ensures
        number == state_number(state),
{
    match state {
        LocalStateSource::Operation(operation) => operation.raw as u128,
        LocalStateSource::Memory { memory, ordinal } => 0x1_0000_0000u128 * (1u128
            + memory.raw as u128) + ordinal as u128,
    }
}

pub open spec fn states_ascend(states: Seq<LocalStateSource>) -> bool {
    forall|i: int, j: int|
        0 <= i < j < states.len() ==> state_number(#[trigger] states[i]) < state_number(
            #[trigger] states[j],
        )
}

/// A row of states ascends and holds exactly those of a list.
pub open spec fn holds_states(row: Seq<LocalStateSource>, states: Seq<LocalStateSource>) -> bool {
    &&& states_ascend(row)
    &&& forall|state: LocalStateSource| #[trigger] row.contains(state) <==> states.contains(state)
}

fn insert_state(states: &mut Vec<LocalStateSource>, state: LocalStateSource)
    requires
        states_ascend(old(states)@),
    ensures
        states_ascend(final(states)@),
        forall|other: LocalStateSource|
            #[trigger] final(states)@.contains(other) <==> old(states)@.contains(other) || other
                == state,
{
    let ghost before = states@;
    let number: u128 = place_of(state);
    let mut place: usize = 0;
    while place < states.len() && place_of(states[place]) < number
        invariant
            states@ == before,
            number == state_number(state),
            place <= states@.len(),
            forall|i: int| 0 <= i < place ==> state_number(#[trigger] states@[i]) < number,
        decreases states.len() - place,
    {
        place += 1;
    }
    if place < states.len() && states[place] == state {
        assert(before[place as int] == state);
        return;
    }
    proof {
        if place < before.len() {
            let found = before[place as int];
            assert(state_number(found) != number) by {
                if state_number(found) == number {
                    match (found, state) {
                        (LocalStateSource::Memory { .. }, LocalStateSource::Memory { .. }) => {},
                        (LocalStateSource::Operation(a), LocalStateSource::Operation(b)) => {
                            assert(a == b);
                        },
                        _ => {},
                    }
                    assert(found == state);
                }
            }
        }
    }
    states.insert(place, state);
    proof {
        let after = states@;
        assert(after == before.insert(place as int, state));
        assert forall|i: int, j: int| 0 <= i < j < after.len() implies state_number(
            #[trigger] after[i],
        ) < state_number(#[trigger] after[j]) by {
            if i < place {
                assert(after[i] == before[i]);
            } else if i > place {
                assert(after[i] == before[i - 1]);
            }
            if j < place {
                assert(after[j] == before[j]);
            } else if j > place {
                assert(after[j] == before[j - 1]);
                if place < j - 1 {
                    assert(state_number(before[place as int]) < state_number(before[j - 1]));
                }
            }
        }
        assert forall|other: LocalStateSource|
            #[trigger] after.contains(other) <==> before.contains(other) || other == state by {
            if before.contains(other) {
                let i = choose|i: int| 0 <= i < before.len() && before[i] == other;
                if i < place {
                    assert(after[i] == other);
                } else {
                    assert(after[i + 1] == other);
                }
            }
            if other == state {
                assert(after[place as int] == other);
            }
            if after.contains(other) && other != state {
                let i = choose|i: int| 0 <= i < after.len() && after[i] == other;
                if i < place {
                    assert(before[i] == other);
                } else {
                    assert(before[i - 1] == other);
                }
            }
        }
    }
}

/// The row of the states of a list.
pub fn normalized_states(states: &Vec<LocalStateSource>) -> (row: Vec<LocalStateSource>)
    ensures
        holds_states(row@, states@),
{
    let mut row: Vec<LocalStateSource> = Vec::new();
    let mut i: usize = 0;
    while i < states.len()
        invariant
            i <= states@.len(),
            holds_states(row@, states@.take(i as int)),
        decreases states.len() - i,
    {
        let ghost before = row@;
        insert_state(&mut row, states[i]);
        proof {
            let short = states@.take(i as int);
            let long = states@.take(i + 1);
            assert forall|state: LocalStateSource| #[trigger] row@.contains(state) <==> long.contains(
                state,
            ) by {
                if short.contains(state) {
                    let k = choose|k: int| 0 <= k < short.len() && short[k] == state;
                    assert(long[k] == state);
                }
                if state == states@[i as int] {
                    assert(long[i as int] == state);
                }
                if long.contains(state) {
                    let k = choose|k: int| 0 <= k < long.len() && long[k] == state;
                    if k < i {
                        assert(short[k] == state);
                    }
                }
                assert(before.contains(state) <==> short.contains(state));
            }
        }
        i += 1;
    }
    assert(states@.take(i as int) =~= states@);
    row
}

fn copy_states(states: &Vec<LocalStateSource>) -> (copied: Vec<LocalStateSource>)
    ensures
        copied@ == states@,
{
    let mut copied: Vec<LocalStateSource> = Vec::new();
    let mut i: usize = 0;
    while i < states.len()
        invariant
            i <= states@.len(),
            copied@ == states@.take(i as int),
        decreases states.len() - i,
    {
        copied.push(states[i]);
        assert(copied@ =~= states@.take(i + 1));
        i += 1;
    }
    assert(states@.take(i as int) =~= states@);
    copied
}

/// A row of operations and a row of states for every local operation.
pub struct LocalOperationSemantics {
    pub provenance: LocalOperationProvenance,
    pub states: Vec<Vec<LocalStateSource>>,
}

pub open spec fn state_views(states: Seq<Vec<LocalStateSource>>) -> Seq<Seq<LocalStateSource>> {
    states.map_values(|row: Vec<LocalStateSource>| row@)
}

pub open spec fn put_states(
    rows: Seq<Seq<LocalStateSource>>,
    place: int,
    row: Seq<LocalStateSource>,
) -> Seq<Seq<LocalStateSource>> {
    if place == rows.len() {
        rows.push(row)
    } else {
        rows.update(place, row)
    }
}

impl LocalOperationSemantics {
    pub open spec fn wf(&self) -> bool {
        &&& self.provenance.wf()
        &&& self.states@.len() == self.provenance.rows@.len()
        &&& forall|k: int|
            0 <= k < self.states@.len() ==> states_ascend(#[trigger] state_views(self.states@)[k])
    }

    pub open spec fn operation_rows(&self) -> Seq<Seq<u32>> {
        row_views(self.provenance.rows@)
    }

    pub open spec fn state_rows(&self) -> Seq<Seq<LocalStateSource>> {
        state_views(self.states@)
    }

    pub fn new() -> (semantics: Self)
        ensures
            semantics.wf(),
            semantics.states@.len() == 0,
    {
        LocalOperationSemantics { provenance: LocalOperationProvenance::new(), states: Vec::new() }
    }

    /// Whether a row at a place is the one of given operations and states, and
    /// every other row is as before.
    pub open spec fn row_set(
        &self,
        after: &Self,
        place: int,
        numbers: Seq<u32>,
        states: Seq<LocalStateSource>,
    ) -> bool {
        &&& after.wf()
        &&& after.operation_rows() == put_row(
            self.operation_rows(),
            place,
            after.operation_rows()[place],
        )
        &&& after.state_rows() == put_states(self.state_rows(), place, after.state_rows()[place])
        &&& holds_exactly(after.operation_rows()[place], numbers)
        &&& holds_states(after.state_rows()[place], states)
    }

    /// Sets the row of an operation, which is there already or comes next.
    pub fn set_row(
        &mut self,
        local: OpId,
        numbers: &Vec<u32>,
        states: &Vec<LocalStateSource>,
    ) -> (result: Result<(), SynthError>)
        requires
            old(self).wf(),
        ensures
            match result {
                Ok(()) => local.raw <= old(self).states@.len() && old(self).row_set(
                    final(self),
                    local.raw as int,
                    numbers@,
                    states@,
                ),
                Err(error) => local.raw > old(self).states@.len() && error
                    == SynthError::Invariant(Invariant::BrokenSource) && *final(self) == *old(self),
            },
    {
        let place: usize = local.raw as usize;
        if place > self.states.len() {
            return Err(SynthError::Invariant(Invariant::BrokenSource));
        }
        let ghost rows = self.state_rows();
        let ghost sources = self.operation_rows();
        assert(sources.len() == self.states@.len());
        match self.provenance.set_numbers(local.raw, numbers) {
            Ok(()) => {},
            Err(error) => return Err(error),
        }
        assert(self.operation_rows().len() == self.provenance.rows@.len());
        assert(self.operation_rows().len() == put_row(
            sources,
            place as int,
            self.operation_rows()[place as int],
        ).len());
        let row = normalized_states(states);
        let ghost held = row@;
        if place == self.states.len() {
            self.states.push(row);
            assert(self.state_rows() =~= rows.push(held));
        } else {
            self.states.set(place, row);
            assert(self.state_rows() =~= rows.update(place as int, held));
        }
        proof {
            let after = self.state_rows();
            assert(after[place as int] == held);
            assert forall|k: int| 0 <= k < self.states@.len() implies states_ascend(
                #[trigger] after[k],
            ) by {
                if k != place {
                    assert(states_ascend(rows[k]));
                }
            }
        }
        Ok(())
    }

    /// Records an operation that was carried over from the source.
    pub fn record_source(&mut self, local: OpId, source: OpId, state: bool) -> (result: Result<
        (),
        SynthError,
    >)
        requires
            old(self).wf(),
        ensures
            match result {
                Ok(()) => local.raw <= old(self).states@.len() && old(self).row_set(
                    final(self),
                    local.raw as int,
                    seq![source.raw],
                    (if state {
                        seq![LocalStateSource::Operation(source)]
                    } else {
                        seq![]
                    }),
                ),
                Err(error) => local.raw > old(self).states@.len() && error
                    == SynthError::Invariant(Invariant::BrokenSource) && *final(self) == *old(self),
            },
    {
        let numbers: Vec<u32> = vec![source.raw];
        assert(numbers@ =~= seq![source.raw]);
        let mut states: Vec<LocalStateSource> = Vec::new();
        if state {
            states.push(LocalStateSource::Operation(source));
        }
        assert(states@ =~= (if state {
            seq![LocalStateSource::Operation(source)]
        } else {
            seq![]
        }));
        self.set_row(local, &numbers, &states)
    }

    /// Records an operation without state that was made from operations of the
    /// source.
    pub fn record_generated(&mut self, local: OpId, sources: &Vec<OpId>) -> (result: Result<
        (),
        SynthError,
    >)
        requires
            old(self).wf(),
        ensures
            match result {
                Ok(()) => local.raw <= old(self).states@.len() && old(self).row_set(
                    final(self),
                    local.raw as int,
                    raws(sources@),
                    seq![],
                ),
                Err(error) => local.raw > old(self).states@.len() && error
                    == SynthError::Invariant(Invariant::BrokenSource) && *final(self) == *old(self),
            },
    {
        let numbers = raw_list(sources);
        let states: Vec<LocalStateSource> = Vec::new();
        assert(states@ =~= seq![]);
        self.set_row(local, &numbers, &states)
    }

    /// Records that an operation holds a word of a memory.
    pub fn record_memory_state(&mut self, local: OpId, memory: MemoryId, ordinal: u32)
        -> (result: Result<(), SynthError>)
        requires
            old(self).wf(),
        ensures
            match result {
                Ok(()) => local.raw < old(self).states@.len() && old(self).row_set(
                    final(self),
                    local.raw as int,
                    old(self).operation_rows()[local.raw as int],
                    seq![LocalStateSource::Memory { memory, ordinal }],
                ),
                Err(error) => local.raw >= old(self).states@.len() && error
                    == SynthError::Invariant(Invariant::BrokenSource) && *final(self) == *old(self),
            },
    {
        if local.raw as usize >= self.states.len() {
            return Err(SynthError::Invariant(Invariant::BrokenSource));
        }
        let numbers = listed(&self.provenance.rows[local.raw as usize]);
        let states: Vec<LocalStateSource> = vec![LocalStateSource::Memory { memory, ordinal }];
        assert(states@ =~= seq![LocalStateSource::Memory { memory, ordinal }]);
        self.set_row(local, &numbers, &states)
    }

    /// Hands the row of one operation on to another.
    pub fn replace_from(&mut self, local: OpId, replaced: OpId) -> (result: Result<(), SynthError>)
        requires
            old(self).wf(),
        ensures
            match result {
                Ok(()) => {
                    &&& local.raw < old(self).states@.len()
                    &&& replaced.raw < old(self).states@.len()
                    &&& old(self).row_set(
                        final(self),
                        local.raw as int,
                        old(self).operation_rows()[replaced.raw as int],
                        old(self).state_rows()[replaced.raw as int],
                    )
                },
                Err(error) => {
                    &&& local.raw >= old(self).states@.len() || replaced.raw >= old(self).states@.len()
                    &&& error == SynthError::Invariant(Invariant::BrokenSource)
                    &&& *final(self) == *old(self)
                },
            },
    {
        if local.raw as usize >= self.states.len() || replaced.raw as usize >= self.states.len() {
            return Err(SynthError::Invariant(Invariant::BrokenSource));
        }
        let numbers = listed(&self.provenance.rows[replaced.raw as usize]);
        let states = copy_states(&self.states[replaced.raw as usize]);
        self.set_row(local, &numbers, &states)
    }

    /// Adds the row of one operation to that of another.
    pub fn merge_from(&mut self, local: OpId, merged: OpId) -> (result: Result<(), SynthError>)
        requires
            old(self).wf(),
        ensures
            match result {
                Ok(()) => {
                    &&& local.raw < old(self).states@.len()
                    &&& merged.raw < old(self).states@.len()
                    &&& old(self).row_set(
                        final(self),
                        local.raw as int,
                        old(self).operation_rows()[local.raw as int] + old(self).operation_rows()[merged.raw as int],
                        old(self).state_rows()[local.raw as int] + old(self).state_rows()[merged.raw as int],
                    )
                },
                Err(error) => {
                    &&& local.raw >= old(self).states@.len() || merged.raw >= old(self).states@.len()
                    &&& error == SynthError::Invariant(Invariant::BrokenSource)
                    &&& *final(self) == *old(self)
                },
            },
    {
        if local.raw as usize >= self.states.len() || merged.raw as usize >= self.states.len() {
            return Err(SynthError::Invariant(Invariant::BrokenSource));
        }
        let mut numbers = listed(&self.provenance.rows[local.raw as usize]);
        let mut more = listed(&self.provenance.rows[merged.raw as usize]);
        numbers.append(&mut more);
        let mut states = copy_states(&self.states[local.raw as usize]);
        let mut others = copy_states(&self.states[merged.raw as usize]);
        states.append(&mut others);
        self.set_row(local, &numbers, &states)
    }

    /// Adds sources to an operation that is used once more.
    pub fn extend_generated(&mut self, local: OpId, sources: &Vec<OpId>) -> (result: Result<
        (),
        SynthError,
    >)
        requires
            old(self).wf(),
        ensures
            match result {
                Ok(()) => local.raw < old(self).states@.len() && old(self).row_set(
                    final(self),
                    local.raw as int,
                    old(self).operation_rows()[local.raw as int] + raws(sources@),
                    old(self).state_rows()[local.raw as int],
                ),
                Err(error) => local.raw >= old(self).states@.len() && error
                    == SynthError::Invariant(Invariant::BrokenSource) && *final(self) == *old(self),
            },
    {
        if local.raw as usize >= self.states.len() {
            return Err(SynthError::Invariant(Invariant::BrokenSource));
        }
        let mut numbers = listed(&self.provenance.rows[local.raw as usize]);
        let mut more = raw_list(sources);
        numbers.append(&mut more);
        let states = copy_states(&self.states[local.raw as usize]);
        self.set_row(local, &numbers, &states)
    }

    /// Whether every operation of a module has a row.
    pub fn seal_import(&self, module: &WordModule) -> (result: Result<(), SynthError>)
        requires
            self.wf(),
        ensures
            result is Ok <==> self.states@.len() == module@.operations.len(),
            result matches Err(error) ==> error == SynthError::Invariant(Invariant::BrokenSource),
    {
        self.provenance.seal_import(module)
    }

    /// Gives every operation without a row what its operands have, and no state.
    pub fn inherit_appended(&mut self, module: &WordModule) -> (result: Result<(), SynthError>)
        requires
            old(self).wf(),
            module@.wf(),
        ensures
            match result {
                Ok(()) => {
                    &&& final(self).wf()
                    &&& final(self).states@.len() == module@.operations.len()
                    &&& keeps_prefix(old(self).operation_rows(), final(self).operation_rows())
                    &&& forall|k: int|
                        old(self).states@.len() <= k < final(self).states@.len() ==> #[trigger]
                            inherits(module@, final(self).operation_rows(), k)
                    &&& forall|k: int|
                        0 <= k < final(self).states@.len() ==> #[trigger] final(self).state_rows()[k] == (if k < old(self).states@.len() {
                            old(self).state_rows()[k]
                        } else {
                            seq![]
                        })
                },
                Err(error) => {
                    &&& error == SynthError::Invariant(Invariant::BrokenSource)
                    &&& old(self).states@.len() > module@.operations.len() || exists|k: int|
                        old(self).states@.len() <= k < module@.operations.len() && !(
                        #[trigger] reads_back(module@, k))
                },
            },
    {
        let ghost start = self.state_rows();
        match self.provenance.inherit_appended(module) {
            Ok(()) => {},
            Err(error) => return Err(error),
        }
        while self.states.len() < module.operations.len()
            invariant
                self.provenance.wf(),
                start == old(self).state_rows(),
                start.len() == old(self).states@.len(),
                self.provenance.rows@.len() == module@.operations.len(),
                keeps_prefix(old(self).operation_rows(), self.operation_rows()),
                forall|k: int|
                    old(self).states@.len() <= k < self.provenance.rows@.len() ==> #[trigger]
                        inherits(module@, self.operation_rows(), k),
                start.len() <= self.states@.len() <= module@.operations.len(),
                forall|k: int|
                    0 <= k < self.states@.len() ==> #[trigger] self.state_rows()[k] == (if k
                        < start.len() {
                        start[k]
                    } else {
                        seq![]
                    }),
            decreases module.operations.len() - self.states.len(),
        {
            let ghost before = self.state_rows();
            let row: Vec<LocalStateSource> = Vec::new();
            let ghost held = row@;
            self.states.push(row);
            assert(self.state_rows() =~= before.push(held));
            assert(held =~= seq![]);
        }
        proof {
            let rows = state_views(self.states@);
            assert forall|k: int| 0 <= k < self.states@.len() implies states_ascend(
                #[trigger] rows[k],
            ) by {
                assert(self.state_rows()[k] == rows[k]);
                if k < start.len() {
                    assert(states_ascend(state_views(old(self).states@)[k]));
                }
            }
            assert(self.wf());
        }
        Ok(())
    }

    /// The operations and the states of some operations, joined, unless one has
    /// no row.
    fn joined(&self, operations: &Vec<OpId>) -> (joined: Option<(Vec<u32>, Vec<LocalStateSource>)>)
        requires
            self.wf(),
        ensures
            match joined {
                Some((numbers, states)) => {
                    &&& forall|i: int|
                        0 <= i < operations@.len() ==> (#[trigger] operations@[i]).raw
                            < self.states@.len()
                    &&& numbers@ == joined_rows(
                        self.operation_rows(),
                        operations@,
                        operations@.len(),
                    )
                    &&& states@ == joined_rows(self.state_rows(), operations@, operations@.len())
                },
                None => exists|i: int|
                    0 <= i < operations@.len() && (#[trigger] operations@[i]).raw
                        >= self.states@.len(),
            },
    {
        let mut numbers: Vec<u32> = Vec::new();
        let mut states: Vec<LocalStateSource> = Vec::new();
        let mut i: usize = 0;
        while i < operations.len()
            invariant
                self.wf(),
                i <= operations@.len(),
                forall|j: int|
                    0 <= j < i ==> (#[trigger] operations@[j]).raw < self.states@.len(),
                numbers@ == joined_rows(self.operation_rows(), operations@, i as nat),
                states@ == joined_rows(self.state_rows(), operations@, i as nat),
            decreases operations.len() - i,
        {
            let place: usize = operations[i].raw as usize;
            if place >= self.states.len() {
                assert(operations@[i as int].raw >= self.states@.len());
                return None;
            }
            let mut found = listed(&self.provenance.rows[place]);
            assert(self.operation_rows()[place as int] == self.provenance.rows@[place as int]@);
            assert(found@ == self.operation_rows()[place as int]);
            numbers.append(&mut found);
            let mut copied = copy_states(&self.states[place]);
            assert(self.state_rows()[place as int] == self.states@[place as int]@);
            states.append(&mut copied);
            i += 1;
        }
        Some((numbers, states))
    }

    /// Gives every operation that was made in the place of others their operations
    /// and states. The rewrites must have made all operations without a row, one
    /// after the other.
    pub fn apply_rewrites(&mut self, module: &WordModule, rewrites: &Vec<OperationRewrite>)
        -> (result: Result<(), SynthError>)
        requires
            old(self).wf(),
            module@.operations.len() <= u32::MAX,
        ensures
            final(self).wf(),
            keeps_prefix(old(self).operation_rows(), final(self).operation_rows()),
            keeps_state_prefix(old(self).state_rows(), final(self).state_rows()),
            result is Ok <==> rewrites_cover(
                rewrites@,
                old(self).states@.len() as int,
                module@.operations.len() as int,
            ),
            match result {
                Ok(()) => {
                    &&& final(self).states@.len() == module@.operations.len()
                    &&& rewrites_have_rows(
                        final(self).operation_rows(),
                        final(self).state_rows(),
                        rewrites@,
                        rewrites@.len() as int,
                    )
                },
                Err(error) => error == SynthError::Invariant(Invariant::BrokenSource),
            },
    {
        let ghost start = *self;
        let ghost first = self.states@.len() as int;
        let ghost total = module@.operations.len() as int;
        let mut k: usize = 0;
        while k < rewrites.len()
            invariant
                start == *old(self),
                start.wf(),
                first == start.states@.len(),
                total == module@.operations.len() <= u32::MAX,
                self.wf(),
                k <= rewrites@.len(),
                keeps_prefix(start.operation_rows(), self.operation_rows()),
                keeps_state_prefix(start.state_rows(), self.state_rows()),
                self.states@.len() == rewrites_end(rewrites@, first, k as int),
                forall|j: int|
                    0 <= j < k ==> #[trigger] rewrite_follows(rewrites@, first, total, j),
                rewrites_have_rows(
                    self.operation_rows(),
                    self.state_rows(),
                    rewrites@,
                    k as int,
                ),
            decreases rewrites.len() - k,
        {
            let rewrite = &rewrites[k];
            let (from, end) = rewrite.created;
            if from != self.states.len() || from >= end || end > module.operations.len() {
                assert(!rewrite_follows(rewrites@, first, total, k as int));
                return Err(SynthError::Invariant(Invariant::BrokenSource));
            }
            let (numbers, states) = match self.joined(&rewrite.replaced) {
                Some(joined) => joined,
                None => {
                    assert(!rewrite_follows(rewrites@, first, total, k as int));
                    return Err(SynthError::Invariant(Invariant::BrokenSource));
                },
            };
            let ghost before = *self;
            assert(rewrite_follows(rewrites@, first, total, k as int));
            let mut place: usize = from;
            while place < end
                invariant
                    first == start.states@.len(),
                    total == module@.operations.len() <= u32::MAX,
                    before.wf(),
                    self.wf(),
                    from <= place <= end <= total,
                    before.states@.len() == from,
                    self.states@.len() == place,
                    keeps_prefix(before.operation_rows(), self.operation_rows()),
                    keeps_state_prefix(before.state_rows(), self.state_rows()),
                    forall|p: int|
                        from <= p < place ==> holds_exactly(
                            #[trigger] self.operation_rows()[p],
                            numbers@,
                        ),
                    forall|p: int|
                        from <= p < place ==> holds_states(
                            #[trigger] self.state_rows()[p],
                            states@,
                        ),
                    k < rewrites@.len(),
                    rewrite_follows(rewrites@, first, total, k as int),
                    start == *old(self),
                    keeps_prefix(start.operation_rows(), before.operation_rows()),
                    keeps_state_prefix(start.state_rows(), before.state_rows()),
                decreases end - place,
            {
                let ghost last = *self;
                match self.set_row(OpId { raw: place as u32 }, &numbers, &states) {
                    Ok(()) => {},
                    Err(error) => {
                        assert(false);
                        return Err(error);
                    },
                }
                assert(self.operation_rows() == last.operation_rows().push(
                    self.operation_rows()[place as int],
                ));
                assert(last.state_rows().len() == place && self.state_rows().len()
                    == self.states@.len());
                assert(self.state_rows() == last.state_rows().push(
                    self.state_rows()[place as int],
                ));
                place += 1;
            }
            proof {
                let replaced = rewrite.replaced@;
                lemma_joined_kept(
                    before.operation_rows(),
                    self.operation_rows(),
                    replaced,
                    replaced.len(),
                );
                lemma_joined_kept(
                    before.state_rows(),
                    self.state_rows(),
                    replaced,
                    replaced.len(),
                );
                assert forall|j: int, p: int|
                    0 <= j < k + 1 && rewrites@[j].created.0 <= p < rewrites@[j].created.1
                    implies #[trigger] has_rows_of(
                    self.operation_rows(),
                    self.state_rows(),
                    p,
                    rewrites@[j].replaced@,
                ) by {
                    if j < k {
                        assert(has_rows_of(
                            before.operation_rows(),
                            before.state_rows(),
                            p,
                            rewrites@[j].replaced@,
                        ));
                        lemma_ends_ascend(rewrites@, first, total, j, k as int);
                        let other = rewrites@[j].replaced@;
                        assert(rewrite_follows(rewrites@, first, total, j));
                        lemma_joined_kept(
                            before.operation_rows(),
                            self.operation_rows(),
                            other,
                            other.len(),
                        );
                        lemma_joined_kept(
                            before.state_rows(),
                            self.state_rows(),
                            other,
                            other.len(),
                        );
                        assert(self.operation_rows()[p] == before.operation_rows()[p]);
                        assert(self.state_rows()[p] == before.state_rows()[p]);
                    } else {
                        assert(holds_exactly(self.operation_rows()[p], numbers@));
                        assert(holds_states(self.state_rows()[p], states@));
                    }
                }
            }
            k += 1;
        }
        if self.states.len() != module.operations.len() {
            return Err(SynthError::Invariant(Invariant::BrokenSource));
        }
        Ok(())
    }

    /// Moves every row to the place that a compaction gives its operation. Every
    /// place must get one row.
    pub fn remap(&mut self, places: &Vec<Option<u32>>, count: u32) -> (result: Result<
        (),
        SynthError,
    >)
        requires
            old(self).wf(),
        ensures
            match result {
                Ok(()) => {
                    &&& one_to_one(places@, old(self).states@.len(), count as nat)
                    &&& final(self).wf()
                    &&& final(self).states@.len() == count
                    &&& forall|k: int|
                        0 <= k < places@.len() && (#[trigger] places@[k]) is Some ==> final(self).operation_rows()[places@[k]->0 as int] == old(self).operation_rows()[k]
                            && final(self).state_rows()[places@[k]->0 as int] == old(self).state_rows()[k]
                },
                Err(error) => {
                    &&& error == SynthError::Invariant(Invariant::BrokenSource)
                    &&& !one_to_one(places@, old(self).states@.len(), count as nat)
                },
            },
    {
        if places.len() != self.states.len() {
            return Err(SynthError::Invariant(Invariant::BrokenSource));
        }
        let ghost total = places@.len();
        let mut sources: Vec<Option<usize>> = Vec::new();
        sources.resize(count as usize, None);
        let mut k: usize = 0;
        while k < places.len()
            invariant
                total == places@.len(),
                self.states@.len() == places@.len(),
                sources@.len() == count,
                k <= places@.len(),
                forall|i: int|
                    0 <= i < k && (#[trigger] places@[i]) is Some ==> places@[i]->0 < count
                        && sources@[places@[i]->0 as int] == Some(i as usize),
                forall|j: int|
                    0 <= j < count ==> ((#[trigger] sources@[j]) matches Some(i) ==> i < k
                        && places@[i as int] == Some(j as u32)),
            decreases places.len() - k,
        {
            if let Some(place) = places[k] {
                if place >= count {
                    assert(places@[k as int] is Some);
                    return Err(SynthError::Invariant(Invariant::BrokenSource));
                }
                if sources[place as usize].is_some() {
                    proof {
                        let i = sources@[place as int]->0;
                        assert(places@[i as int] == Some(place));
                        assert(places@[k as int] == Some(place));
                        assert(!one_to_one(places@, total, count as nat));
                    }
                    return Err(SynthError::Invariant(Invariant::BrokenSource));
                }
                sources.set(place as usize, Some(k));
            }
            k += 1;
        }
        let mut rows: Vec<NumberRow> = Vec::new();
        let mut states: Vec<Vec<LocalStateSource>> = Vec::new();
        let mut j: u32 = 0;
        while j < count
            invariant
                self.wf(),
                total == places@.len(),
                self.states@.len() == places@.len(),
                sources@.len() == count,
                j <= count,
                forall|i: int|
                    0 <= i < places@.len() && (#[trigger] places@[i]) is Some ==> places@[i]->0
                        < count && sources@[places@[i]->0 as int] == Some(i as usize),
                forall|p: int|
                    0 <= p < count ==> ((#[trigger] sources@[p]) matches Some(i) ==> i
                        < places@.len() && places@[i as int] == Some(p as u32)),
                rows@.len() == j,
                states@.len() == j,
                forall|p: int|
                    0 <= p < j ==> (#[trigger] sources@[p]) is Some && row_views(rows@)[p]
                        == self.operation_rows()[sources@[p]->0 as int] && state_views(states@)[p]
                        == self.state_rows()[sources@[p]->0 as int],
            decreases count - j,
        {
            match sources[j as usize] {
                None => {
                    proof {
                        assert forall|i: int| 0 <= i < total implies places@[i] != Some(
                            j as u32,
                        ) by {
                            if places@[i] == Some(j as u32) {
                                assert(sources@[j as int] == Some(i as usize));
                            }
                        }
                        assert(!one_to_one(places@, total, count as nat)) by {
                            assert(!has_source(places@, j as int));
                        }
                    }
                    return Err(SynthError::Invariant(Invariant::BrokenSource));
                },
                Some(i) => {
                    let ghost before = row_views(rows@);
                    let ghost held = state_views(states@);
                    assert(i < places@.len());
                    let numbers = listed(&self.provenance.rows[i]);
                    let row = normalized(&numbers);
                    proof {
                        let own = self.operation_rows()[i as int];
                        assert(super::row::ascending(own));
                        super::row::rows_are_determined(row@, own, own);
                    }
                    let copied = copy_states(&self.states[i]);
                    rows.push(row);
                    states.push(copied);
                    proof {
                        assert(row_views(rows@) =~= before.push(
                            self.operation_rows()[i as int],
                        ));
                        assert(state_views(states@) =~= held.push(self.state_rows()[i as int]));
                    }
                },
            }
            j += 1;
        }
        proof {
            assert forall|p: int| 0 <= p < count implies #[trigger] has_source(places@, p) by {
                assert(sources@[p] is Some);
                let i = sources@[p]->0;
                assert(places@[i as int] == Some(p as u32));
            }
            assert(one_to_one(places@, total, count as nat));
            let made = row_views(rows@);
            let held = state_views(states@);
            assert forall|p: int| 0 <= p < count implies super::row::ascending(
                #[trigger] made[p],
            ) by {
                assert(sources@[p] is Some);
                let i = sources@[p]->0 as int;
                assert(super::row::ascending(row_views(self.provenance.rows@)[i]));
            }
            assert forall|p: int| 0 <= p < count implies states_ascend(#[trigger] held[p]) by {
                assert(sources@[p] is Some);
                let i = sources@[p]->0 as int;
                assert(states_ascend(state_views(self.states@)[i]));
            }
            assert forall|k: int| 0 <= k < places@.len() && (#[trigger] places@[k]) is Some implies row_views(
                rows@,
            )[places@[k]->0 as int] == self.operation_rows()[k] && state_views(
                states@,
            )[places@[k]->0 as int] == self.state_rows()[k] by {
                assert(sources@[places@[k]->0 as int] == Some(k as usize));
            }
        }
        self.provenance = LocalOperationProvenance { rows };
        self.states = states;
        Ok(())
    }

    /// The source operations of a local operation, ascending.
    pub fn sources(&self, local: OpId) -> (sources: Option<Vec<OpId>>)
        requires
            self.wf(),
        ensures
            match sources {
                Some(found) => local.raw < self.states@.len() && raws(found@)
                    == self.operation_rows()[local.raw as int],
                None => local.raw >= self.states@.len(),
            },
    {
        self.provenance.sources(local)
    }

    /// The states that a local operation stands for.
    pub fn states(&self, local: OpId) -> (states: Option<&Vec<LocalStateSource>>)
        ensures
            match states {
                Some(found) => local.raw < self.states@.len() && found@
                    == self.state_rows()[local.raw as int],
                None => local.raw >= self.states@.len(),
            },
    {
        if local.raw as usize >= self.states.len() {
            return None;
        }
        Some(&self.states[local.raw as usize])
    }
}

/// Where the operations of the rewrites before a place end.
pub open spec fn rewrites_end(rewrites: Seq<OperationRewrite>, start: int, count: int) -> int {
    if count == 0 {
        start
    } else {
        rewrites[count - 1].created.1 as int
    }
}

/// The operations that a rewrite made come right after those of the rewrites
/// before it, and stand for operations that were there.
pub open spec fn rewrite_follows(
    rewrites: Seq<OperationRewrite>,
    start: int,
    total: int,
    k: int,
) -> bool {
    let rewrite = rewrites[k];
    &&& rewrite.created.0 == rewrites_end(rewrites, start, k)
    &&& rewrite.created.0 < rewrite.created.1 <= total
    &&& forall|i: int|
        0 <= i < rewrite.replaced@.len() ==> (#[trigger] rewrite.replaced@[i]).raw
            < rewrite.created.0
}

/// Rewrites made all operations from a place on, one after the other.
pub open spec fn rewrites_cover(rewrites: Seq<OperationRewrite>, start: int, total: int) -> bool {
    &&& forall|k: int|
        0 <= k < rewrites.len() ==> #[trigger] rewrite_follows(rewrites, start, total, k)
    &&& rewrites_end(rewrites, start, rewrites.len() as int) == total
}

/// The rows of operations, joined.
pub open spec fn joined_rows<T>(rows: Seq<Seq<T>>, operations: Seq<OpId>, count: nat) -> Seq<T>
    decreases count,
{
    if count == 0 {
        seq![]
    } else {
        joined_rows(rows, operations, (count - 1) as nat) + rows[operations[count - 1].raw as int]
    }
}

/// A new operation has the operations and states of those that it replaces.
pub open spec fn has_rows_of(
    operations: Seq<Seq<u32>>,
    states: Seq<Seq<LocalStateSource>>,
    place: int,
    replaced: Seq<OpId>,
) -> bool {
    &&& holds_exactly(operations[place], joined_rows(operations, replaced, replaced.len()))
    &&& holds_states(states[place], joined_rows(states, replaced, replaced.len()))
}

/// Every operation that some rewrites made has what they replace.
pub open spec fn rewrites_have_rows(
    operations: Seq<Seq<u32>>,
    states: Seq<Seq<LocalStateSource>>,
    rewrites: Seq<OperationRewrite>,
    count: int,
) -> bool {
    forall|k: int, place: int|
        0 <= k < count && rewrites[k].created.0 <= place < rewrites[k].created.1
            ==> #[trigger] has_rows_of(operations, states, place, rewrites[k].replaced@)
}

proof fn lemma_joined_kept<T>(before: Seq<Seq<T>>, after: Seq<Seq<T>>, listed: Seq<OpId>, count: nat)
    requires
        count <= listed.len(),
        before.len() <= after.len(),
        forall|k: int| 0 <= k < before.len() ==> after[k] == #[trigger] before[k],
        forall|i: int| 0 <= i < count ==> (#[trigger] listed[i]).raw < before.len(),
    ensures
        joined_rows(after, listed, count) == joined_rows(before, listed, count),
    decreases count,
{
    if count > 0 {
        lemma_joined_kept(before, after, listed, (count - 1) as nat);
        assert(listed[count - 1].raw < before.len());
        assert(after[listed[count - 1].raw as int] == before[listed[count - 1].raw as int]);
    }
}

/// The operations of earlier rewrites end no later than those of later ones.
proof fn lemma_ends_ascend(rewrites: Seq<OperationRewrite>, start: int, total: int, j: int, k: int)
    requires
        0 <= j < k <= rewrites.len(),
        forall|i: int| 0 <= i < k ==> #[trigger] rewrite_follows(rewrites, start, total, i),
    ensures
        rewrites[j].created.1 <= rewrites_end(rewrites, start, k),
    decreases k - j,
{
    if j + 1 < k {
        lemma_ends_ascend(rewrites, start, total, j, k - 1);
        assert(rewrite_follows(rewrites, start, total, k - 1));
    }
}

/// Rows of states that were there stay as they are.
pub open spec fn keeps_state_prefix(
    before: Seq<Seq<LocalStateSource>>,
    after: Seq<Seq<LocalStateSource>>,
) -> bool {
    &&& before.len() <= after.len()
    &&& forall|k: int| 0 <= k < before.len() ==> after[k] == #[trigger] before[k]
}

/// A place is given to some operation.
pub open spec fn has_source(places: Seq<Option<u32>>, place: int) -> bool {
    exists|i: int| 0 <= i < places.len() && #[trigger] places[i] == Some(place as u32)
}

/// Every place below a bound is given to exactly one operation.
pub open spec fn one_to_one(places: Seq<Option<u32>>, total: nat, count: nat) -> bool {
    &&& places.len() == total
    &&& forall|i: int|
        0 <= i < places.len() && (#[trigger] places[i]) is Some ==> places[i]->0 < count
    &&& forall|i: int, j: int|
        0 <= i < j < places.len() && places[i] is Some && places[j] is Some ==> (
        #[trigger] places[i]) != (#[trigger] places[j])
    &&& forall|p: int| 0 <= p < count ==> #[trigger] has_source(places, p)
}

fn raw_list(operations: &Vec<OpId>) -> (numbers: Vec<u32>)
    ensures
        numbers@ == raws(operations@),
{
    let mut numbers: Vec<u32> = Vec::new();
    let mut i: usize = 0;
    while i < operations.len()
        invariant
            i <= operations@.len(),
            numbers@.len() == i,
            forall|k: int| 0 <= k < i ==> #[trigger] numbers@[k] == operations@[k].raw,
        decreases operations.len() - i,
    {
        numbers.push(operations[i].raw);
        i += 1;
    }
    assert(numbers@ =~= raws(operations@));
    numbers
}

} // verus!
