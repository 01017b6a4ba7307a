//! Which operations of the source a local operation comes from.

use super::row::{ascending, holds_exactly, listed, normalized, NumberRow};
use crate::error::{Invariant, SynthError};
use crate::word::module::{KindView, ModuleView, ValueKind, WordModule};
use crate::word::types::{op_inputs, operation_inputs, OpId, ValueId};
use vstd::prelude::*;

verus! {

/// Operations that were made in the place of others.
#[derive(Debug)]
pub struct OperationRewrite {
    /// The first new operation, and the one after the last.
    pub created: (usize, usize),
    pub replaced: Vec<OpId>,
    pub replacement: ValueId,
}

/// A row of source operations for every local operation. Rows ascend and hold no
/// operation twice.
pub struct LocalOperationProvenance {
    pub rows: Vec<NumberRow>,
}

pub open spec fn raws(operations: Seq<OpId>) -> Seq<u32> {
    operations.map_values(|operation: OpId| operation.raw)
}

pub open spec fn row_views(rows: Seq<NumberRow>) -> Seq<Seq<u32>> {
    rows.map_values(|row: NumberRow| row@)
}

fn raw_list(operations: &Vec<OpId>) -> (numbers: Vec<u32>)
    ensures
        numbers@ == raws(operations@),
{
    let mut numbers: Vec<u32> = Vec::new();
    let mut i: usize = 0;
    while i < operations.len()
        invariant
            i <= operations@.len(),
            numbers@.len() == i,
            forall|k: int| 0 <= k < i ==> #[trigger] numbers@[k] == operations@[k].raw,
        decreases operations.len() - i,
    {
        numbers.push(operations[i].raw);
        i += 1;
    }
    assert(numbers@ =~= raws(operations@));
    numbers
}

/// The operation that an operand comes from.
pub open spec fn operand_operation(module: ModuleView, value: ValueId) -> Option<OpId> {
    if module.has(value) {
        match module.kind(value) {
            KindView::Operation(operation) => Some(operation),
            _ => None,
        }
    } else {
        None
    }
}

/// A local operation reads the result of another.
pub open spec fn reads_operation(module: ModuleView, operation: int, other: int) -> bool {
    exists|i: int|
        0 <= i < op_inputs(module.operations[operation].kind).len() && operand_operation(
            module,
            #[trigger] op_inputs(module.operations[operation].kind)[i],
        ) == Some(OpId { raw: other as u32 }) && 0 <= other <= u32::MAX
}

/// An operation reads none that comes at its place or later.
pub open spec fn reads_back(module: ModuleView, operation: int) -> bool {
    forall|other: int| #[trigger] reads_operation(module, operation, other) ==> other < operation
}

/// A row holds what the rows of the operands hold.
pub open spec fn inherits(module: ModuleView, rows: Seq<Seq<u32>>, operation: int) -> bool {
    &&& reads_back(module, operation)
    &&& ascending(rows[operation])
    &&& forall|number: u32|
        #[trigger] rows[operation].contains(number) <==> exists|other: int|
            #[trigger] reads_operation(module, operation, other) && rows[other].contains(number)
}

impl LocalOperationProvenance {
    pub open spec fn wf(&self) -> bool {
        forall|k: int|
            0 <= k < self.rows@.len() ==> ascending((#[trigger] row_views(self.rows@)[k]))
    }

    pub fn new() -> (provenance: Self)
        ensures
            provenance.rows@.len() == 0,
            provenance.wf(),
    {
        LocalOperationProvenance { rows: Vec::new() }
    }

    /// Sets the row of an operation, which is there already or comes next.
    pub fn set(&mut self, local: OpId, sources: &Vec<OpId>) -> (result: Result<(), SynthError>)
        requires
            old(self).wf(),
        ensures
            final(self).wf(),
            match result {
                Ok(()) => {
                    &&& local.raw <= old(self).rows@.len()
                    &&& row_views(final(self).rows@) == put_row(
                        row_views(old(self).rows@),
                        local.raw as int,
                        row_views(final(self).rows@)[local.raw as int],
                    )
                    &&& holds_exactly(
                        row_views(final(self).rows@)[local.raw as int],
                        raws(sources@),
                    )
                },
                Err(error) => {
                    &&& local.raw > old(self).rows@.len()
                    &&& error == SynthError::Invariant(Invariant::BrokenSource)
                    &&& final(self).rows@ == old(self).rows@
                },
            },
    {
        let numbers = raw_list(sources);
        self.set_numbers(local.raw, &numbers)
    }

    pub fn set_numbers(&mut self, local: u32, numbers: &Vec<u32>) -> (result: Result<
        (),
        SynthError,
    >)
        requires
            old(self).wf(),
        ensures
            final(self).wf(),
            match result {
                Ok(()) => {
                    &&& local <= old(self).rows@.len()
                    &&& row_views(final(self).rows@) == put_row(
                        row_views(old(self).rows@),
                        local as int,
                        row_views(final(self).rows@)[local as int],
                    )
                    &&& holds_exactly(row_views(final(self).rows@)[local as int], numbers@)
                },
                Err(error) => {
                    &&& local > old(self).rows@.len()
                    &&& error == SynthError::Invariant(Invariant::BrokenSource)
                    &&& final(self).rows@ == old(self).rows@
                },
            },
    {
        let ghost before = row_views(self.rows@);
        let place: usize = local as usize;
        let row = normalized(numbers);
        let ghost held = row@;
        if place == self.rows.len() {
            self.rows.push(row);
            assert(row_views(self.rows@) =~= before.push(held));
        } else if place < self.rows.len() {
            self.rows.set(place, row);
            assert(row_views(self.rows@) =~= before.update(place as int, held));
        } else {
            return Err(SynthError::Invariant(Invariant::BrokenSource));
        }
        proof {
            let after = row_views(self.rows@);
            assert(after[place as int] == held);
            assert forall|k: int| 0 <= k < self.rows@.len() implies ascending(
                #[trigger] after[k],
            ) by {
                if k != place {
                    assert(ascending(before[k]));
                }
            }
        }
        Ok(())
    }

    /// Adds sources to the row of an operation.
    pub fn merge(&mut self, local: OpId, sources: &Vec<OpId>) -> (result: Result<(), SynthError>)
        requires
            old(self).wf(),
        ensures
            final(self).wf(),
            match result {
                Ok(()) => {
                    &&& local.raw < old(self).rows@.len()
                    &&& row_views(final(self).rows@) == put_row(
                        row_views(old(self).rows@),
                        local.raw as int,
                        row_views(final(self).rows@)[local.raw as int],
                    )
                    &&& holds_exactly(
                        row_views(final(self).rows@)[local.raw as int],
                        row_views(old(self).rows@)[local.raw as int] + raws(sources@),
                    )
                },
                Err(error) => {
                    &&& local.raw >= old(self).rows@.len()
                    &&& error == SynthError::Invariant(Invariant::BrokenSource)
                    &&& final(self).rows@ == old(self).rows@
                },
            },
    {
        if local.raw as usize >= self.rows.len() {
            return Err(SynthError::Invariant(Invariant::BrokenSource));
        }
        let ghost before = row_views(self.rows@);
        let mut merged = listed(&self.rows[local.raw as usize]);
        let mut added = raw_list(sources);
        merged.append(&mut added);
        assert(merged@ =~= before[local.raw as int] + raws(sources@));
        self.set_numbers(local.raw, &merged)
    }

    /// Whether every operation of a module has a row.
    pub fn seal_import(&self, module: &WordModule) -> (result: Result<(), SynthError>)
        ensures
            result is Ok <==> self.rows@.len() == module@.operations.len(),
            result matches Err(error) ==> error == SynthError::Invariant(Invariant::BrokenSource),
    {
        if self.rows.len() != module.operations.len() {
            return Err(SynthError::Invariant(Invariant::BrokenSource));
        }
        Ok(())
    }

    /// The sources of an operation, ascending.
    pub fn sources(&self, local: OpId) -> (sources: Option<Vec<OpId>>)
        ensures
            match sources {
                Some(found) => local.raw < self.rows@.len() && raws(found@) == row_views(
                    self.rows@,
                )[local.raw as int],
                None => local.raw >= self.rows@.len(),
            },
    {
        if local.raw as usize >= self.rows.len() {
            return None;
        }
        let numbers = listed(&self.rows[local.raw as usize]);
        let mut found: Vec<OpId> = Vec::new();
        let mut i: usize = 0;
        while i < numbers.len()
            invariant
                i <= numbers@.len(),
                found@.len() == i,
                forall|k: int| 0 <= k < i ==> (#[trigger] found@[k]).raw == numbers@[k],
            decreases numbers.len() - i,
        {
            found.push(OpId { raw: numbers[i] });
            i += 1;
        }
        assert(raws(found@) =~= numbers@);
        Some(found)
    }

    /// What an operation inherits from its operands, or `None` where it reads one
    /// that has no row before it.
    fn inherited(&self, module: &WordModule, operation: usize) -> (numbers: Option<Vec<u32>>)
        requires
            module@.wf(),
            operation == self.rows@.len(),
            operation < module@.operations.len(),
        ensures
            match numbers {
                Some(found) => reads_back(module@, operation as int) && forall|number: u32|
                    #[trigger] found@.contains(number) <==> exists|other: int|
                        #[trigger] reads_operation(module@, operation as int, other) && row_views(
                            self.rows@,
                        )[other].contains(number),
                None => !reads_back(module@, operation as int),
            },
    {
        let ghost views = row_views(self.rows@);
        let inputs = operation_inputs(&module.operations[operation].kind);
        let mut numbers: Vec<u32> = Vec::new();
        let mut i: usize = 0;
        while i < inputs.len()
            invariant
                module@.wf(),
                views == row_views(self.rows@),
                operation == self.rows@.len(),
                operation < module@.operations.len(),
                inputs@ == op_inputs(module@.operations[operation as int].kind),
                i <= inputs@.len(),
                forall|k: int|
                    0 <= k < i ==> (operand_operation(module@, #[trigger] inputs@[k]) matches Some(
                        other,
                    ) ==> other.raw < operation),
                forall|number: u32|
                    #[trigger] numbers@.contains(number) <==> exists|k: int|
                        0 <= k < i && feeds(module@, views, #[trigger] inputs@[k], number),
            decreases inputs.len() - i,
        {
            let input = inputs[i];
            let ghost before = numbers@;
            proof {
                assert(module@.operation_ok(operation as int));
                assert(op_inputs(module@.operations[operation as int].kind)[i as int].raw
                    < module@.values.len());
            }
            if let ValueKind::Operation(other) = module.values[input.raw as usize].kind {
                if other.raw as usize >= operation {
                    proof {
                        assert(operand_operation(module@, inputs@[i as int]) == Some(
                            OpId { raw: other.raw as int as u32 },
                        ));
                        assert(reads_operation(module@, operation as int, other.raw as int));
                    }
                    return None;
                }
                let mut more = listed(&self.rows[other.raw as usize]);
                let ghost row = more@;
                numbers.append(&mut more);
                proof {
                    assert(numbers@ == before + row);
                    assert(row == views[other.raw as int]);
                    assert forall|number: u32|
                        #[trigger] numbers@.contains(number) <==> before.contains(number)
                            || row.contains(number) by {
                        lemma_joined(before, row, number);
                    }
                }
            }
            proof {
                assert forall|number: u32| #[trigger] numbers@.contains(number) <==> exists|k: int|
                    0 <= k < i + 1 && feeds(module@, views, #[trigger] inputs@[k], number) by {
                    if before.contains(number) {
                        let k = choose|k: int|
                            0 <= k < i && feeds(module@, views, #[trigger] inputs@[k], number);
                        assert(feeds(module@, views, inputs@[k], number));
                    }
                    if feeds(module@, views, inputs@[i as int], number) {
                        assert(numbers@.contains(number));
                    }
                    if exists|k: int|
                        0 <= k < i + 1 && feeds(module@, views, #[trigger] inputs@[k], number) {
                        let k = choose|k: int|
                            0 <= k < i + 1 && feeds(module@, views, #[trigger] inputs@[k], number);
                        if k < i {
                            assert(before.contains(number));
                        }
                    }
                }
            }
            i += 1;
        }
        proof {
            assert forall|other: int| #[trigger]
                reads_operation(module@, operation as int, other) implies other < operation by {
                let k = choose|k: int|
                    0 <= k < inputs@.len() && operand_operation(
                        module@,
                        #[trigger] op_inputs(module@.operations[operation as int].kind)[k],
                    ) == Some(OpId { raw: other as u32 });
                assert(operand_operation(module@, inputs@[k]) is Some);
            }
            assert forall|number: u32| #[trigger] numbers@.contains(number) <==> exists|other: int|
                #[trigger] reads_operation(module@, operation as int, other)
                    && views[other].contains(number) by {
                if numbers@.contains(number) {
                    let k = choose|k: int|
                        0 <= k < i && feeds(module@, views, #[trigger] inputs@[k], number);
                    let other = operand_operation(module@, inputs@[k])->0;
                    assert(operand_operation(
                        module@,
                        op_inputs(module@.operations[operation as int].kind)[k],
                    ) == Some(OpId { raw: other.raw as int as u32 }));
                    assert(reads_operation(module@, operation as int, other.raw as int));
                }
                if exists|other: int|
                    #[trigger] reads_operation(module@, operation as int, other)
                        && views[other].contains(number) {
                    let other = choose|other: int|
                        #[trigger] reads_operation(module@, operation as int, other)
                            && views[other].contains(number);
                    let k = choose|k: int|
                        0 <= k < inputs@.len() && operand_operation(
                            module@,
                            #[trigger] op_inputs(module@.operations[operation as int].kind)[k],
                        ) == Some(OpId { raw: other as u32 });
                    assert(feeds(module@, views, inputs@[k], number));
                }
            }
        }
        Some(numbers)
    }

    /// Gives every operation without a row what its operands have.
    pub fn inherit_appended(&mut self, module: &WordModule) -> (result: Result<(), SynthError>)
        requires
            old(self).wf(),
            module@.wf(),
        ensures
            final(self).wf(),
            keeps_prefix(row_views(old(self).rows@), row_views(final(self).rows@)),
            match result {
                Ok(()) => {
                    &&& final(self).rows@.len() == module@.operations.len()
                    &&& forall|k: int|
                        old(self).rows@.len() <= k < final(self).rows@.len() ==> #[trigger]
                            inherits(module@, row_views(final(self).rows@), k)
                },
                Err(error) => {
                    &&& error == SynthError::Invariant(Invariant::BrokenSource)
                    &&& old(self).rows@.len() > module@.operations.len() || exists|k: int|
                        old(self).rows@.len() <= k < module@.operations.len() && !(
                        #[trigger] reads_back(module@, k))
                },
            },
    {
        let ghost start = row_views(self.rows@);
        if self.rows.len() > module.operations.len() {
            return Err(SynthError::Invariant(Invariant::BrokenSource));
        }
        while self.rows.len() < module.operations.len()
            invariant
                start == row_views(old(self).rows@),
                old(self).rows@.len() == start.len(),
                module@.wf(),
                self.wf(),
                start.len() <= self.rows@.len() <= module@.operations.len(),
                keeps_prefix(start, row_views(self.rows@)),
                all_inherit(module@, row_views(self.rows@), start.len() as int),
            decreases module.operations.len() - self.rows.len(),
        {
            let ghost before = row_views(self.rows@);
            let place: usize = self.rows.len();
            let numbers = match self.inherited(module, place) {
                Some(numbers) => numbers,
                None => {
                    assert(!reads_back(module@, place as int));
                    return Err(SynthError::Invariant(Invariant::BrokenSource));
                },
            };
            let row = normalized(&numbers);
            let ghost held = row@;
            self.rows.push(row);
            proof {
                let after = row_views(self.rows@);
                assert(after =~= before.push(held));
                assert forall|k: int| 0 <= k < self.rows@.len() implies ascending(
                    #[trigger] after[k],
                ) by {
                    if k < before.len() {
                        assert(ascending(before[k]));
                    }
                }
                lemma_inherit_step(module@, before, after, start.len() as int, numbers@);
            }
        }
        Ok(())
    }

    /// Gives new operations the sources of those that they replace, besides what
    /// they inherit.
    pub fn apply_rewrites(&mut self, module: &WordModule, rewrites: &Vec<OperationRewrite>)
        -> (result: Result<(), SynthError>)
        requires
            old(self).wf(),
            module@.wf(),
        ensures
            result is Ok ==> {
                &&& final(self).wf()
                &&& final(self).rows@.len() == module@.operations.len()
                &&& only_grows(row_views(old(self).rows@), row_views(final(self).rows@))
                &&& forall|r: int|
                    0 <= r < rewrites@.len() ==> receives(
                        row_views(old(self).rows@),
                        row_views(final(self).rows@),
                        #[trigger] rewrites@[r],
                    )
                &&& exists|states: Seq<Seq<Seq<u32>>>| #[trigger]
                    rewriting(
                        module@,
                        row_views(old(self).rows@),
                        rewrites@,
                        states,
                    ) && row_views(final(self).rows@) == states.last()
            },
            result is Ok <==> {
                &&& old(self).rows@.len() <= module@.operations.len()
                &&& forall|k: int|
                    old(self).rows@.len() <= k < module@.operations.len() ==> #[trigger] reads_back(
                        module@,
                        k,
                    )
                &&& forall|r: int|
                    0 <= r < rewrites@.len() ==> applies(
                        module@.operations.len(),
                        #[trigger] rewrites@[r],
                    )
            },
            result matches Err(error) ==> error == SynthError::Invariant(Invariant::BrokenSource),
    {
        let ghost start = row_views(self.rows@);
        match self.inherit_appended(module) {
            Ok(()) => {},
            Err(error) => return Err(error),
        }
        proof {
            let after = row_views(self.rows@);
            assert forall|k: int| 0 <= k < start.len() implies subset(
                start[k],
                #[trigger] after[k],
            ) by {}
            assert forall|k: int|
                start.len() <= k < module@.operations.len() implies #[trigger] reads_back(
                module@,
                k,
            ) by {
                assert(inherits(module@, after, k));
            }
        }
        let ghost mut states: Seq<Seq<Seq<u32>>> = seq![row_views(self.rows@)];
        let mut r: usize = 0;
        while r < rewrites.len()
            invariant
                old(self).rows@.len() <= module@.operations.len(),
                old(self).rows@.len() == start.len(),
                forall|k: int|
                    start.len() <= k < module@.operations.len() ==> #[trigger] reads_back(
                        module@,
                        k,
                    ),
                forall|p: int|
                    0 <= p < r ==> applies(module@.operations.len(), #[trigger] rewrites@[p]),
                rewriting(module@, start, rewrites@.take(r as int), states),
                states.last() == row_views(self.rows@),
                self.wf(),
                module@.wf(),
                r <= rewrites@.len(),
                start == row_views(old(self).rows@),
                self.rows@.len() == module@.operations.len(),
                only_grows(start, row_views(self.rows@)),
                forall|p: int|
                    0 <= p < r ==> receives(
                        start,
                        row_views(self.rows@),
                        #[trigger] rewrites@[p],
                    ),
            decreases rewrites.len() - r,
        {
            let ghost before = row_views(self.rows@);
            match self.apply_rewrite(&rewrites[r], Ghost(start)) {
                Ok(()) => {},
                Err(error) => return Err(error),
            }
            proof {
                let after = row_views(self.rows@);
                assert forall|p: int| 0 <= p < r + 1 implies receives(
                    start,
                    after,
                    #[trigger] rewrites@[p],
                ) by {
                    if p < r {
                        lemma_receives_more(start, before, after, rewrites@[p]);
                    }
                }
                lemma_grown(start, before, after);
                let longer = states.push(after);
                let more = rewrites@.take(r + 1);
                assert forall|p: int| 0 <= p < more.len() implies rewritten(
                    #[trigger] longer[p],
                    longer[p + 1],
                    more[p],
                ) by {
                    if p < r {
                        assert(longer[p] == states[p] && longer[p + 1] == states[p + 1]);
                        assert(more[p] == rewrites@.take(r as int)[p]);
                    } else {
                        assert(longer[p] == states.last());
                    }
                }
                assert(longer[0] == states[0]);
                states = longer;
            }
            r += 1;
        }
        assert(rewrites@.take(r as int) =~= rewrites@);
        Ok(())
    }

    fn apply_rewrite(&mut self, rewrite: &OperationRewrite, Ghost(start): Ghost<Seq<Seq<u32>>>)
        -> (result: Result<(), SynthError>)
        requires
            old(self).wf(),
            only_grows(start, row_views(old(self).rows@)),
        ensures
            result is Ok ==> {
                &&& final(self).wf()
                &&& final(self).rows@.len() == old(self).rows@.len()
                &&& only_grows(row_views(old(self).rows@), row_views(final(self).rows@))
                &&& receives(start, row_views(final(self).rows@), *rewrite)
                &&& rewritten(row_views(old(self).rows@), row_views(final(self).rows@), *rewrite)
            },
            result is Ok <==> applies(old(self).rows@.len(), *rewrite),
            result matches Err(error) ==> error == SynthError::Invariant(Invariant::BrokenSource),
    {
        let ghost entry = row_views(self.rows@);
        let mut numbers: Vec<u32> = Vec::new();
        let mut q: usize = 0;
        while q < rewrite.replaced.len()
            invariant
                self.wf(),
                self.rows@ == old(self).rows@,
                entry == row_views(self.rows@),
                only_grows(start, entry),
                numbers@ == gathered(entry, rewrite.replaced@, q as nat),
                forall|p: int|
                    0 <= p < q ==> (#[trigger] rewrite.replaced@[p]).raw < entry.len(),
                q <= rewrite.replaced@.len(),
                forall|p: int|
                    0 <= p < q && (#[trigger] rewrite.replaced@[p]).raw < start.len() ==> subset(
                        start[rewrite.replaced@[p].raw as int],
                        numbers@,
                    ),
            decreases rewrite.replaced.len() - q,
        {
            let operation: usize = rewrite.replaced[q].raw as usize;
            if operation >= self.rows.len() {
                assert(rewrite.replaced@[q as int].raw >= old(self).rows@.len());
                return Err(SynthError::Invariant(Invariant::BrokenSource));
            }
            let ghost before = numbers@;
            let mut more = listed(&self.rows[operation]);
            let ghost row = more@;
            numbers.append(&mut more);
            proof {
                assert(numbers@ == before + row);
                assert(row == entry[operation as int]);
                assert forall|p: int|
                    0 <= p < q + 1 && (#[trigger] rewrite.replaced@[p]).raw < start.len() implies subset(
                    start[rewrite.replaced@[p].raw as int],
                    numbers@,
                ) by {
                    let held = start[rewrite.replaced@[p].raw as int];
                    assert forall|number: u32| held.contains(number) implies #[trigger] numbers@.contains(
                        number,
                    ) by {
                        lemma_joined(before, row, number);
                        if p < q {
                            assert(subset(held, before));
                            assert(before.contains(number));
                        } else {
                            assert(subset(held, entry[operation as int]));
                            assert(row.contains(number));
                        }
                    }
                }
            }
            q += 1;
        }
        proof {
            assert forall|k: int| 0 <= k < entry.len() implies subset(
                entry[k],
                #[trigger] entry[k],
            ) by {}
        }
        let mut k: usize = rewrite.created.0;
        while k < rewrite.created.1
            invariant
                self.wf(),
                self.rows@.len() == entry.len() == old(self).rows@.len(),
                forall|p: int|
                    0 <= p < rewrite.replaced@.len() ==> (#[trigger] rewrite.replaced@[p]).raw
                        < entry.len(),
                rewrite.created.0 <= k,
                rewrite.created.0 < k ==> k <= rewrite.created.1 && k <= entry.len(),
                forall|j: int|
                    0 <= j < entry.len() ==> if rewrite.created.0 <= j < k {
                        holds_exactly(#[trigger] row_views(self.rows@)[j], entry[j] + numbers@)
                    } else {
                        row_views(self.rows@)[j] == entry[j]
                    },
                only_grows(entry, row_views(self.rows@)),
                forall|j: int|
                    rewrite.created.0 <= j < k && j < entry.len() ==> subset(
                        numbers@,
                        #[trigger] row_views(self.rows@)[j],
                    ),
            decreases rewrite.created.1 - k,
        {
            if k >= self.rows.len() {
                return Err(SynthError::Invariant(Invariant::BrokenSource));
            }
            let ghost before = row_views(self.rows@);
            let mut merged = listed(&self.rows[k]);
            let mut more = copy_numbers(&numbers);
            merged.append(&mut more);
            let row = normalized(&merged);
            let ghost held = row@;
            self.rows.set(k, row);
            proof {
                let after = row_views(self.rows@);
                assert(after =~= before.update(k as int, held));
                assert(merged@ == before[k as int] + numbers@);
                assert forall|number: u32| before[k as int].contains(number) implies #[trigger] held.contains(
                    number,
                ) by {
                    lemma_joined(before[k as int], numbers@, number);
                }
                assert forall|number: u32| numbers@.contains(number) implies #[trigger] held.contains(
                    number,
                ) by {
                    lemma_joined(before[k as int], numbers@, number);
                }
                assert forall|j: int| 0 <= j < before.len() implies subset(
                    before[j],
                    #[trigger] after[j],
                ) by {}
                lemma_grown(entry, before, after);
                assert forall|j: int| 0 <= j < self.rows@.len() implies ascending(
                    #[trigger] after[j],
                ) by {
                    if j != k {
                        assert(ascending(before[j]));
                    }
                }
                assert forall|j: int| rewrite.created.0 <= j < k + 1 && j < entry.len() implies subset(
                    numbers@,
                    #[trigger] after[j],
                ) by {
                    if j < k {
                        assert(subset(numbers@, before[j]));
                    }
                }
            }
            k += 1;
        }
        proof {
            let after = row_views(self.rows@);
            assert forall|j: int, p: int|
                rewrite.created.0 <= j < rewrite.created.1 && 0 <= p < rewrite.replaced@.len()
                    && rewrite.replaced@[p].raw < start.len() implies subset(
                start[(#[trigger] rewrite.replaced@[p]).raw as int],
                #[trigger] after[j],
            ) by {
                assert(subset(numbers@, after[j]));
                assert(subset(start[rewrite.replaced@[p].raw as int], numbers@));
            }
        }
        Ok(())
    }
}

/// Every number of one row is in another.
pub open spec fn subset(left: Seq<u32>, right: Seq<u32>) -> bool {
    forall|number: u32| left.contains(number) ==> #[trigger] right.contains(number)
}

/// The new operations of a rewrite have the sources of those that they replace.
pub open spec fn receives(
    before: Seq<Seq<u32>>,
    after: Seq<Seq<u32>>,
    rewrite: OperationRewrite,
) -> bool {
    &&& rewrite.created.0 < rewrite.created.1 ==> rewrite.created.1 <= after.len()
    &&& forall|j: int, p: int|
        rewrite.created.0 <= j < rewrite.created.1 && 0 <= p < rewrite.replaced@.len()
            && rewrite.replaced@[p].raw < before.len() ==> subset(
            before[(#[trigger] rewrite.replaced@[p]).raw as int],
            #[trigger] after[j],
        )
}

/// The rows of the first of some operations, one after the other.
pub open spec fn gathered(rows: Seq<Seq<u32>>, operations: Seq<OpId>, count: nat) -> Seq<u32>
    decreases count,
{
    if count == 0 {
        seq![]
    } else {
        gathered(rows, operations, (count - 1) as nat) + rows[operations[count - 1].raw as int]
    }
}

/// Every operation that a rewrite speaks of is among so many.
pub open spec fn applies(count: nat, rewrite: OperationRewrite) -> bool {
    &&& rewrite.created.0 < rewrite.created.1 ==> rewrite.created.1 <= count
    &&& forall|p: int|
        0 <= p < rewrite.replaced@.len() ==> (#[trigger] rewrite.replaced@[p]).raw < count
}

/// The rows after one rewrite: those of the new operations gain the sources of
/// those that they replace, and the others stay.
pub open spec fn rewritten(
    before: Seq<Seq<u32>>,
    after: Seq<Seq<u32>>,
    rewrite: OperationRewrite,
) -> bool {
    &&& after.len() == before.len()
    &&& forall|k: int|
        0 <= k < before.len() ==> if rewrite.created.0 <= k < rewrite.created.1 {
            holds_exactly(
                #[trigger] after[k],
                before[k] + gathered(before, rewrite.replaced@, rewrite.replaced@.len()),
            )
        } else {
            after[k] == before[k]
        }
}

/// The rows after appended operations inherited theirs, and then after each
/// rewrite in turn.
pub open spec fn rewriting(
    module: ModuleView,
    rows: Seq<Seq<u32>>,
    rewrites: Seq<OperationRewrite>,
    states: Seq<Seq<Seq<u32>>>,
) -> bool {
    &&& states.len() == rewrites.len() + 1
    &&& states[0].len() == module.operations.len()
    &&& keeps_prefix(rows, states[0])
    &&& all_inherit(module, states[0], rows.len() as int)
    &&& forall|r: int|
        0 <= r < rewrites.len() ==> rewritten(#[trigger] states[r], states[r + 1], rewrites[r])
}

proof fn lemma_receives_more(
    start: Seq<Seq<u32>>,
    before: Seq<Seq<u32>>,
    after: Seq<Seq<u32>>,
    rewrite: OperationRewrite,
)
    requires
        receives(start, before, rewrite),
        only_grows(before, after),
    ensures
        receives(start, after, rewrite),
{
    assert forall|j: int, p: int|
        rewrite.created.0 <= j < rewrite.created.1 && 0 <= p < rewrite.replaced@.len()
            && rewrite.replaced@[p].raw < start.len() implies subset(
        start[(#[trigger] rewrite.replaced@[p]).raw as int],
        #[trigger] after[j],
    ) by {
        assert(subset(start[rewrite.replaced@[p].raw as int], before[j]));
        assert(subset(before[j], after[j]));
    }
}

proof fn lemma_inherit_step(
    module: ModuleView,
    before: Seq<Seq<u32>>,
    after: Seq<Seq<u32>>,
    from: int,
    numbers: Seq<u32>,
)
    requires
        0 <= from <= before.len(),
        all_inherit(module, before, from),
        after.len() == before.len() + 1,
        keeps_prefix(before, after),
        holds_exactly(after[before.len() as int], numbers),
        reads_back(module, before.len() as int),
        forall|number: u32|
            #[trigger] numbers.contains(number) <==> exists|other: int|
                #[trigger] reads_operation(module, before.len() as int, other)
                    && before[other].contains(number),
    ensures
        all_inherit(module, after, from),
{
    assert forall|k: int| from <= k < after.len() implies #[trigger] inherits(module, after, k) by {
        if k < before.len() {
            assert(inherits(module, before, k));
            lemma_inherits_grows(module, before, after, k);
        } else {
            assert forall|number: u32|
                #[trigger] after[k].contains(number) <==> exists|other: int|
                    #[trigger] reads_operation(module, k, other) && after[other].contains(number) by {
                assert(numbers.contains(number) <==> exists|other: int|
                    #[trigger] reads_operation(module, k, other) && before[other].contains(number));
                assert forall|other: int| #[trigger] reads_operation(module, k, other) implies after[other]
                    == before[other] by {}
            }
        }
    }
}

/// Rows from a place on hold what the rows of their operands hold.
pub open spec fn all_inherit(module: ModuleView, rows: Seq<Seq<u32>>, from: int) -> bool {
    forall|k: int|
        from <= k < rows.len() ==> #[trigger] inherits(module, rows, k)
}

pub fn copy_numbers(numbers: &Vec<u32>) -> (copied: Vec<u32>)
    ensures
        copied@ == numbers@,
{
    let mut copied: Vec<u32> = Vec::new();
    let mut i: usize = 0;
    while i < numbers.len()
        invariant
            i <= numbers@.len(),
            copied@ == numbers@.take(i as int),
        decreases numbers.len() - i,
    {
        copied.push(numbers[i]);
        assert(copied@ =~= numbers@.take(i + 1));
        i += 1;
    }
    assert(numbers@.take(i as int) =~= numbers@);
    copied
}

/// A row put at a place that is there or comes next.
pub open spec fn put_row(rows: Seq<Seq<u32>>, place: int, row: Seq<u32>) -> Seq<Seq<u32>> {
    if place == rows.len() {
        rows.push(row)
    } else {
        rows.update(place, row)
    }
}

/// Rows stay as they are, and others follow.
pub open spec fn keeps_prefix(before: Seq<Seq<u32>>, after: Seq<Seq<u32>>) -> bool {
    &&& before.len() <= after.len()
    &&& forall|k: int| 0 <= k < before.len() ==> #[trigger] after[k] == before[k]
}

/// No row loses a number.
pub open spec fn only_grows(before: Seq<Seq<u32>>, after: Seq<Seq<u32>>) -> bool {
    &&& before.len() <= after.len()
    &&& forall|k: int| 0 <= k < before.len() ==> subset(before[k], #[trigger] after[k])
}

proof fn lemma_grown(start: Seq<Seq<u32>>, before: Seq<Seq<u32>>, after: Seq<Seq<u32>>)
    requires
        only_grows(start, before),
        only_grows(before, after),
    ensures
        only_grows(start, after),
{
    assert forall|k: int| 0 <= k < start.len() implies subset(start[k], #[trigger] after[k]) by {
        assert(subset(start[k], before[k]));
        assert(subset(before[k], after[k]));
    }
}

/// An operand hands a number on.
pub open spec fn feeds(
    module: ModuleView,
    rows: Seq<Seq<u32>>,
    value: ValueId,
    number: u32,
) -> bool {
    operand_operation(module, value) matches Some(other) && rows[other.raw as int].contains(number)
}

proof fn lemma_joined(left: Seq<u32>, right: Seq<u32>, number: u32)
    ensures
        (left + right).contains(number) <==> left.contains(number) || right.contains(number),
{
    let all = left + right;
    if left.contains(number) {
        let i = choose|i: int| 0 <= i < left.len() && left[i] == number;
        assert(all[i] == number);
    }
    if right.contains(number) {
        let i = choose|i: int| 0 <= i < right.len() && right[i] == number;
        assert(all[left.len() + i] == number);
    }
    if all.contains(number) {
        let i = choose|i: int| 0 <= i < all.len() && all[i] == number;
        if i < left.len() {
            assert(left[i] == number);
        } else {
            assert(right[i - left.len()] == number);
        }
    }
}

proof fn lemma_inherits_grows(
    module: ModuleView,
    before: Seq<Seq<u32>>,
    after: Seq<Seq<u32>>,
    operation: int,
)
    requires
        0 <= operation < before.len(),
        keeps_prefix(before, after),
        inherits(module, before, operation),
    ensures
        inherits(module, after, operation),
{
    assert forall|number: u32|
        #[trigger] after[operation].contains(number) <==> exists|other: int|
            #[trigger] reads_operation(module, operation, other) && after[other].contains(number) by {
        assert(before[operation].contains(number) <==> exists|other: int|
            #[trigger] reads_operation(module, operation, other) && before[other].contains(number));
        assert forall|other: int| #[trigger] reads_operation(module, operation, other) implies after[other]
            == before[other] by {}
    }
}

} // verus!
