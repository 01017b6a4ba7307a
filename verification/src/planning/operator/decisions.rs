//! The candidates that are chosen for the operators of a module.
//!
//! An operator without an entry has its first candidate, so that only what
//! differs from that is kept.

use super::catalog::{
    ImplementationCandidate, ImplementationCandidateId, OperatorCatalog, Offer, Provider,
};
use super::demand::{has_dynamic, observes, ObservableBits};
use super::recognition::{Knowledge, KnowledgeArguments, OffsetFacts, RecognizedView};
use super::regions::{Sight, SightArguments};
use super::selection::{chosen, DesignSelection, RegionSummary};
use crate::error::{Invariant, Resource, SynthError, Unsupported};
use crate::planning::architecture::{ArithmeticTerm, OperatorId, SemanticOperator};
use crate::planning::fsm::transition::facts_view;
use crate::word::module::{ModuleView, WordModule};
use crate::word::types::{ConstBits, OpId, ValueId};
use crate::word::uses::{occurrences, used_values, value_use_counts};
use std::sync::Arc;
use vstd::prelude::*;

verus! {

/// A candidate that was chosen in place of the first one.
#[derive(Clone, Copy, PartialEq, Eq, PartialOrd, Ord, Debug)]
pub struct Selection {
    pub operator: OperatorId,
    pub candidate: ImplementationCandidateId,
}

/// The candidates chosen for the operators of a catalog.
#[derive(Clone)]
pub struct ArchitectureDecisions {
    pub catalog: Arc<OperatorCatalog>,
    pub selections: Vec<Selection>,
}

/// Every operator has a candidate.
pub open spec fn complete(rows: Seq<Seq<ImplementationCandidate>>) -> bool {
    forall|r: int| 0 <= r < rows.len() ==> (#[trigger] rows[r]).len() > 0
}

/// Selections are ordered by their operators, each of which occurs once.
pub open spec fn ordered(selections: Seq<Selection>) -> bool {
    forall|i: int, j: int|
        0 <= i < j < selections.len() ==> (#[trigger] selections[i]).operator.number < (
        #[trigger] selections[j]).operator.number
}

/// A selection names a candidate of its operator, and not the first one.
pub open spec fn sound_selection(catalog: OperatorCatalog, selection: Selection) -> bool {
    &&& selection.operator.number < catalog.rows().len()
    &&& exists|i: int|
        0 < i < catalog.row(selection.operator.number).len() && (#[trigger] catalog.row(
            selection.operator.number,
        )[i]).id == selection.candidate
}

/// The place of an operator among selections.
pub open spec fn selected_at(selections: Seq<Selection>, operator: u32, place: int) -> bool {
    0 <= place < selections.len() && selections[place].operator.number == operator
}

pub open spec fn is_selected(selections: Seq<Selection>, operator: u32) -> bool {
    exists|place: int| #[trigger] selected_at(selections, operator, place)
}

pub open spec fn selection_of(selections: Seq<Selection>, operator: u32) -> u32 {
    selections[choose|place: int| #[trigger] selected_at(selections, operator, place)].candidate.number
}

proof fn lemma_selected(selections: Seq<Selection>, operator: u32, place: int)
    requires
        ordered(selections),
        selected_at(selections, operator, place),
    ensures
        is_selected(selections, operator),
        selection_of(selections, operator) == selections[place].candidate.number,
{
    let other = choose|other: int| #[trigger] selected_at(selections, operator, other);
    assert(selected_at(selections, operator, other));
    if other < place {
        assert(selections[other].operator.number < selections[place].operator.number);
    } else if place < other {
        assert(selections[place].operator.number < selections[other].operator.number);
    }
}

/// The first place whose operator is not less than one.
fn find_place(selections: &Vec<Selection>, operator: u32) -> (place: usize)
    requires
        ordered(selections@),
    ensures
        place <= selections@.len(),
        forall|i: int| 0 <= i < place ==> (#[trigger] selections@[i]).operator.number < operator,
        forall|i: int|
            place <= i < selections@.len() ==> (#[trigger] selections@[i]).operator.number
                >= operator,
{
    let mut low: usize = 0;
    let mut high: usize = selections.len();
    while low < high
        invariant
            ordered(selections@),
            low <= high <= selections@.len(),
            forall|i: int|
                0 <= i < low ==> (#[trigger] selections@[i]).operator.number < operator,
            forall|i: int|
                high <= i < selections@.len() ==> (#[trigger] selections@[i]).operator.number
                    >= operator,
        decreases high - low,
    {
        let middle: usize = low + (high - low) / 2;
        let here: u32 = selections[middle].operator.number;
        if here < operator {
            assert forall|i: int| 0 <= i < middle + 1 implies (#[trigger] selections@[i]).operator.number
                < operator by {
                if i < middle {
                    assert(selections@[i].operator.number
                        < selections@[middle as int].operator.number);
                }
            }
            low = middle + 1;
        } else {
            assert forall|i: int| middle <= i < selections@.len() implies (
            #[trigger] selections@[i]).operator.number >= operator by {
                if middle < i {
                    assert(selections@[middle as int].operator.number
                        < selections@[i].operator.number);
                }
            }
            high = middle;
        }
    }
    low
}

/// The number of the candidate that is in force for an operator.
pub open spec fn in_force(
    rows: Seq<Seq<ImplementationCandidate>>,
    selections: Seq<Selection>,
    operator: u32,
) -> Option<u32> {
    if is_selected(selections, operator) {
        Some(selection_of(selections, operator))
    } else if operator < rows.len() && rows[operator as int].len() > 0 {
        Some(rows[operator as int][0].id.number)
    } else {
        None
    }
}

/// What selections become when a candidate is chosen.
pub open spec fn reselected(
    before: Seq<Selection>,
    after: Seq<Selection>,
    rows: Seq<Seq<ImplementationCandidate>>,
    operator: u32,
    candidate: u32,
) -> bool {
    forall|other: u32|
        #[trigger] in_force(rows, after, other) == if other == operator {
            Some(candidate)
        } else {
            in_force(rows, before, other)
        }
}

/// Choosing a candidate and reading what is in force gives it back, and what is
/// in force for other operators stays.
pub proof fn choosing_is_read_back(
    before: Seq<Selection>,
    after: Seq<Selection>,
    rows: Seq<Seq<ImplementationCandidate>>,
    operator: u32,
    candidate: u32,
    other: u32,
)
    requires
        reselected(before, after, rows, operator, candidate),
        other != operator,
    ensures
        in_force(rows, after, operator) == Some(candidate),
        in_force(rows, after, other) == in_force(rows, before, other),
{
}

/// Choosing the same candidate once more changes nothing.
pub proof fn choosing_again_changes_nothing(
    before: Seq<Selection>,
    middle: Seq<Selection>,
    after: Seq<Selection>,
    rows: Seq<Seq<ImplementationCandidate>>,
    operator: u32,
    candidate: u32,
    other: u32,
)
    requires
        reselected(before, middle, rows, operator, candidate),
        reselected(middle, after, rows, operator, candidate),
    ensures
        in_force(rows, after, other) == in_force(rows, middle, other),
{
}

/// What is found out about a module: how often its values are used, and how many of
/// their low bits are observed.
pub open spec fn learned(
    module: ModuleView,
    observed: Seq<ValueId>,
    uses: Seq<u32>,
    prefixes: Seq<u32>,
) -> bool {
    &&& uses.len() == module.values.len()
    &&& forall|v: int|
        0 <= v < uses.len() ==> (#[trigger] uses[v]) == occurrences(
            used_values(module),
            ValueId { raw: v as u32 },
        )
    &&& observes(module, observed, prefixes)
}

/// Why nothing is found out about a module: a target is computed, an observed value
/// is not there, or uses are too many to count.
pub open spec fn unlearnable(module: ModuleView, observed: Seq<ValueId>) -> Option<SynthError> {
    if has_dynamic(module) {
        Some(SynthError::Unsupported(Unsupported::Operation))
    } else if !(forall|i: int|
        0 <= i < observed.len() ==> module.has(#[trigger] observed[i])) {
        Some(SynthError::Invariant(Invariant::UnknownValue))
    } else if exists|value: ValueId| #[trigger]
        module.has(value) && occurrences(used_values(module), value) > u32::MAX {
        Some(SynthError::Capacity(Resource::Values))
    } else {
        None
    }
}

/// What decisions come of what is known of a module and of what is on offer.
pub open spec fn decides(
    module: ModuleView,
    knowledge: Knowledge,
    providers: Vec<Provider>,
    offers: Vec<Vec<Offer>>,
    result: Result<ArchitectureDecisions, SynthError>,
) -> bool {
    match super::recognition::recognized(module, knowledge, module.operations.len()) {
        Err(error) => result matches Err(found) && found == error,
        Ok(operators) => if !super::catalog::offers_fit(
            providers@,
            offers@,
            operators.operators.len(),
        ) {
            result matches Err(found) && found == SynthError::Invariant(Invariant::UnknownOperator)
        } else {
            match super::catalog::candidate_table(
                providers@,
                offers@,
                operators.operators.len(),
            ) {
                Err(error) => result matches Err(found) && found == error,
                Ok(rows) => if complete(rows) {
                    result matches Ok(decisions) && {
                        &&& decisions.wf()
                        &&& decisions.catalog.recognized@ == operators
                        &&& decisions.catalog.rows() == rows
                        &&& decisions.catalog.providers == providers
                        &&& decisions.catalog.offers == offers
                        &&& decisions.selections@ == Seq::<Selection>::empty()
                    }
                } else {
                    result matches Err(found) && found == SynthError::Invariant(
                        Invariant::NoCandidate,
                    )
                },
            }
        },
    }
}

/// What is known of a module whose sums are not fused.
pub struct UnfusedArguments<'a> {
    pub uses: &'a Vec<u32>,
    pub observable: &'a ObservableBits,
    pub facts: &'a Vec<Option<ConstBits>>,
    pub offsets: &'a Vec<OffsetFacts>,
}

impl<'a> UnfusedArguments<'a> {
    pub open spec fn knowledge(&self) -> Knowledge {
        Knowledge {
            sight: Sight { uses: self.uses@, observed: seq![], fuse: false },
            prefixes: self.observable.value_prefixes@,
            facts: facts_view(self.facts@),
            offsets: self.offsets@,
        }
    }

    pub open spec fn fits(&self, module: ModuleView) -> bool {
        &&& self.uses@.len() == module.values.len()
        &&& self.facts@.len() == module.values.len()
        &&& self.offsets@.len() == module.values.len()
    }
}

/// An operator covers an operation that is not its own.
pub open spec fn elided_by(recognized: RecognizedView, operation: OpId, operator: int) -> bool {
    &&& 0 <= operator < recognized.operators.len()
    &&& operator < recognized.sources.len()
    &&& recognized.operators[operator].operation != operation
    &&& recognized.sources[operator].contains(operation)
}

pub open spec fn elides(recognized: RecognizedView, operation: OpId) -> bool {
    exists|operator: int| #[trigger] elided_by(recognized, operation, operator)
}

fn holds_operation(row: &Vec<OpId>, operation: OpId) -> (held: bool)
    ensures
        held == row@.contains(operation),
{
    let mut i: usize = 0;
    while i < row.len()
        invariant
            i <= row@.len(),
            forall|k: int| 0 <= k < i ==> row@[k] != operation,
        decreases row.len() - i,
    {
        if row[i] == operation {
            assert(row@[i as int] == operation);
            return true;
        }
        i += 1;
    }
    false
}

impl ArchitectureDecisions {
    pub open spec fn wf(&self) -> bool {
        &&& self.catalog.wf()
        &&& complete(self.catalog.rows())
        &&& ordered(self.selections@)
        &&& forall|i: int|
            0 <= i < self.selections@.len() ==> sound_selection(
                *self.catalog,
                #[trigger] self.selections@[i],
            )
    }

    pub open spec fn chosen(&self, operator: u32) -> Option<u32> {
        in_force(self.catalog.rows(), self.selections@, operator)
    }

    /// Decisions without operators, for the shell of a region.
    pub fn for_regional_shell(module: &WordModule) -> (decisions: Self)
        ensures
            decisions.wf(),
            decisions.catalog.rows() == Seq::<Seq<ImplementationCandidate>>::empty(),
            decisions.catalog.recognized@.by_source.len() == module@.operations.len(),
            decisions.selections@ == Seq::<Selection>::empty(),
    {
        ArchitectureDecisions {
            catalog: Arc::new(OperatorCatalog::regional_shell(module.operations.len())),
            selections: Vec::new(),
        }
    }

    /// The decisions for a module where nothing is chosen yet. An operator
    /// without a candidate is an error.
    pub fn for_private_region(
        module: &WordModule,
        knowledge: &KnowledgeArguments,
        providers: Vec<Provider>,
        offers: Vec<Vec<Offer>>,
    ) -> (result: Result<Self, SynthError>)
        requires
            module@.wf(),
            knowledge.fits(module@),
        ensures
            decides(module@, knowledge@, providers, offers, result),
    {
        let catalog = match OperatorCatalog::for_module(module, knowledge, providers, offers) {
            Ok(catalog) => catalog,
            Err(error) => return Err(error),
        };
        let mut all = true;
        let mut r: usize = 0;
        while r < catalog.candidates.len()
            invariant
                r <= catalog.candidates@.len(),
                all == (forall|k: int|
                    0 <= k < r ==> (#[trigger] catalog.rows()[k]).len() > 0),
            decreases catalog.candidates.len() - r,
        {
            assert(catalog.rows()[r as int] == catalog.candidates@[r as int]@);
            if catalog.candidates[r].len() == 0 {
                all = false;
            }
            r += 1;
        }
        if !all {
            return Err(SynthError::Invariant(Invariant::NoCandidate));
        }
        Ok(ArchitectureDecisions { catalog: Arc::new(catalog), selections: Vec::new() })
    }

    /// The decisions for a module whose sums are not fused and of which nothing is
    /// observed on its own.
    pub fn for_unfused_module(
        module: &WordModule,
        arguments: &UnfusedArguments,
        providers: Vec<Provider>,
        offers: Vec<Vec<Offer>>,
    ) -> (result: Result<Self, SynthError>)
        requires
            module@.wf(),
            arguments.fits(module@),
        ensures
            decides(module@, arguments.knowledge(), providers, offers, result),
    {
        let observed: Vec<ValueId> = Vec::new();
        let knowledge = KnowledgeArguments {
            sight: SightArguments { uses: arguments.uses, observed: &observed, fuse: false },
            observable: arguments.observable,
            facts: arguments.facts,
            offsets: arguments.offsets,
        };
        assert(observed@ =~= Seq::<ValueId>::empty());
        assert(knowledge@ == arguments.knowledge());
        Self::for_private_region(module, &knowledge, providers, offers)
    }

    /// The decisions for a module, from how often its values are used and which of
    /// their bits its outputs, its instances and the given values depend on.
    pub fn for_observed_region(
        module: &WordModule,
        observed: &Vec<ValueId>,
        fuse: bool,
        facts: &Vec<Option<ConstBits>>,
        offsets: &Vec<OffsetFacts>,
        providers: Vec<Provider>,
        offers: Vec<Vec<Offer>>,
    ) -> (result: Result<Self, SynthError>)
        requires
            module@.wf(),
            facts@.len() == module@.values.len(),
            offsets@.len() == module@.values.len(),
        ensures
            match unlearnable(module@, observed@) {
                Some(error) => result matches Err(found) && found == error,
                None => exists|uses: Seq<u32>, prefixes: Seq<u32>| #[trigger]
                    learned(module@, observed@, uses, prefixes) && decides(
                        module@,
                        Knowledge {
                            sight: Sight { uses, observed: observed@, fuse },
                            prefixes,
                            facts: facts_view(facts@),
                            offsets: offsets@,
                        },
                        providers,
                        offers,
                        result,
                    ),
            },
    {
        let observable = match ObservableBits::analyze_with_values(module, observed) {
            Ok(observable) => observable,
            Err(error) => return Err(error),
        };
        let uses = match value_use_counts(module) {
            Ok(uses) => uses,
            Err(error) => return Err(error),
        };
        let knowledge = KnowledgeArguments {
            sight: SightArguments { uses: &uses, observed, fuse },
            observable: &observable,
            facts,
            offsets,
        };
        assert(learned(module@, observed@, uses@, observable.value_prefixes@));
        Self::for_private_region(module, &knowledge, providers, offers)
    }

    /// Whether an operation is covered by the operator of another one.
    pub fn is_operation_elided(&self, operation: OpId) -> (elided: bool)
        requires
            self.wf(),
        ensures
            elided == elides(self.catalog.recognized@, operation),
    {
        let mut o: usize = 0;
        while o < self.catalog.recognized.operators.len() && o
            < self.catalog.recognized.sources.len()
            invariant
                o <= self.catalog.recognized.operators@.len(),
                o <= self.catalog.recognized.sources@.len(),
                forall|k: int| 0 <= k < o ==> !(#[trigger] elided_by(
                    self.catalog.recognized@,
                    operation,
                    k,
                )),
            decreases self.catalog.recognized.operators.len() - o,
        {
            let row = &self.catalog.recognized.sources[o];
            assert(self.catalog.recognized@.sources[o as int] == row@);
            if self.catalog.recognized.operators[o].operation != operation && holds_operation(
                row,
                operation,
            ) {
                assert(elided_by(self.catalog.recognized@, operation, o as int));
                return true;
            }
            o += 1;
        }
        false
    }

    pub fn operators(&self) -> (operators: &Vec<SemanticOperator>)
        ensures
            operators@ == self.catalog.recognized.operators@,
    {
        self.catalog.operators()
    }

    /// The inputs of an operator: those of its terms, or its own where it has
    /// none.
    pub fn operator_inputs(&self, operator: SemanticOperator) -> (inputs: Vec<ValueId>)
        ensures
            inputs@ == (if operator.number.number < self.catalog.recognized@.terms.len()
                && self.catalog.recognized@.terms[operator.number.number as int].len() > 0 {
                term_inputs(
                    self.catalog.recognized@.terms[operator.number.number as int],
                    self.catalog.recognized@.terms[operator.number.number as int].len(),
                )
            } else {
                seq![operator.left, operator.right]
            }),
    {
        let mut inputs: Vec<ValueId> = Vec::new();
        if let Some(terms) = self.catalog.arithmetic_terms(operator.number) {
            if terms.len() > 0 {
                let mut t: usize = 0;
                while t < terms.len()
                    invariant
                        t <= terms@.len(),
                        inputs@ == term_inputs(terms@, t as nat),
                    decreases terms.len() - t,
                {
                    match terms[t] {
                        ArithmeticTerm::Value { value, .. } => {
                            inputs.push(value);
                        },
                        ArithmeticTerm::Product { left, right, .. } => {
                            inputs.push(left);
                            inputs.push(right);
                        },
                    }
                    t += 1;
                }
                return inputs;
            }
        }
        inputs.push(operator.left);
        inputs.push(operator.right);
        inputs
    }

    /// The candidate in force for an operator.
    pub fn selected_candidate(&self, operator: OperatorId) -> (candidate: Option<
        ImplementationCandidate,
    >)
        requires
            self.wf(),
        ensures
            candidate is Some <==> operator.number < self.catalog.rows().len(),
            candidate matches Some(found) ==> {
                &&& self.chosen(operator.number) == Some(found.id.number)
                &&& found.operator == operator
                &&& self.catalog.holds(found)
            },
    {
        let place: usize = find_place(&self.selections, operator.number);
        let id: ImplementationCandidateId = if place < self.selections.len()
            && self.selections[place].operator.number == operator.number {
            proof {
                assert(selected_at(self.selections@, operator.number, place as int));
                lemma_selected(self.selections@, operator.number, place as int);
                assert(sound_selection(*self.catalog, self.selections@[place as int]));
                let row = self.catalog.row(operator.number);
                let i = choose|i: int|
                    0 < i < row.len() && (#[trigger] row[i]).id
                        == self.selections@[place as int].candidate;
                lemma_held(&*self.catalog, operator.number as int, i);
            }
            self.selections[place].candidate
        } else {
            proof {
                if is_selected(self.selections@, operator.number) {
                    let other = choose|other: int| #[trigger]
                        selected_at(self.selections@, operator.number, other);
                    assert(selected_at(self.selections@, operator.number, other));
                    if other > place {
                        assert(self.selections@[place as int].operator.number
                            < self.selections@[other].operator.number);
                    }
                }
            }
            match self.catalog.candidates(operator) {
                Some(row) => {
                    assert(self.catalog.rows()[operator.number as int].len() > 0);
                    proof {
                        lemma_held(&*self.catalog, operator.number as int, 0);
                    }
                    row[0].id
                },
                None => {
                    return None;
                },
            }
        };
        proof {
            assert(exists|i: int|
                0 <= i < self.catalog.row(operator.number).len() && (#[trigger] self.catalog.row(
                    operator.number,
                )[i]).id == id);
            let i = choose|i: int|
                0 <= i < self.catalog.row(operator.number).len() && (#[trigger] self.catalog.row(
                    operator.number,
                )[i]).id == id;
            lemma_held(&*self.catalog, operator.number as int, i);
            lemma_one_candidate(&*self.catalog, operator.number as int, i);
        }
        self.catalog.candidate(id)
    }

    /// Chooses a candidate for its operator. A number that the catalog does not
    /// have is an error, and nothing changes.
    #[verifier::rlimit(40)]
    pub fn select_candidate(&mut self, candidate: ImplementationCandidateId) -> (result: Result<
        (),
        SynthError,
    >)
        requires
            old(self).wf(),
        ensures
            final(self).wf(),
            final(self).catalog == old(self).catalog,
            match result {
                Ok(()) => {
                    &&& candidate.number < super::catalog::candidate_count(
                        old(self).catalog.rows(),
                        old(self).catalog.rows().len(),
                    )
                    &&& exists|found: ImplementationCandidate|
                        #![trigger old(self).catalog.holds(found)]
                        old(self).catalog.holds(found) && found.id == candidate && reselected(
                            old(self).selections@,
                            final(self).selections@,
                            old(self).catalog.rows(),
                            found.operator.number,
                            candidate.number,
                        )
                },
                Err(error) => {
                    &&& error == SynthError::Invariant(Invariant::UnknownCandidate)
                    &&& candidate.number >= super::catalog::candidate_count(
                        old(self).catalog.rows(),
                        old(self).catalog.rows().len(),
                    )
                    &&& *final(self) == *old(self)
                },
            },
    {
        let found = match self.catalog.candidate(candidate) {
            Some(found) => found,
            None => return Err(SynthError::Invariant(Invariant::UnknownCandidate)),
        };
        let ghost rows = self.catalog.rows();
        let ghost before = self.selections@;
        let operator: u32 = found.operator.number;
        let ghost at = choose|r: int, i: int|
            0 <= r < rows.len() && 0 <= i < rows[r].len() && #[trigger] rows[r][i] == found;
        proof {
            assert(found.operator.number == at.0);
        }
        let default: ImplementationCandidateId = match self.catalog.candidates(found.operator) {
            Some(row) => row[0].id,
            None => return Err(SynthError::Invariant(Invariant::UnknownCandidate)),
        };
        let place: usize = find_place(&self.selections, operator);
        let present = place < self.selections.len() && self.selections[place].operator.number
            == operator;
        proof {
            assert(rows[at.0][0].id == default);
            assert(found.id.number == default.number <==> at.1 == 0) by {
                assert(rows[at.0][at.1].id.number == super::catalog::candidate_count(
                    rows,
                    at.0 as nat,
                ) + at.1);
                assert(rows[at.0][0].id.number == super::catalog::candidate_count(
                    rows,
                    at.0 as nat,
                ) + 0);
            }
        }
        if found.id.number == default.number {
            if present {
                self.selections.remove(place);
                proof {
                    lemma_removed(rows, before, place as int, operator);
                }
            } else {
                proof {
                    lemma_absent(before, place as int, operator);
                }
            }
        } else {
            let selection = Selection { operator: found.operator, candidate: found.id };
            if present {
                self.selections.set(place, selection);
                proof {
                    lemma_replaced(rows, before, place as int, selection);
                }
            } else {
                self.selections.insert(place, selection);
                proof {
                    lemma_inserted(rows, before, place as int, selection);
                }
            }
            proof {
                assert(self.catalog.row(operator)[at.1] == found);
                assert(sound_selection(*self.catalog, selection));
            }
        }
        proof {
            let after = self.selections@;
            assert forall|i: int| 0 <= i < after.len() implies sound_selection(
                *self.catalog,
                #[trigger] after[i],
            ) by {
                assert(after[i].operator == found.operator && found.id.number != default.number
                    && sound_selection(*self.catalog, after[i]) || exists|j: int|
                    0 <= j < before.len() && after[i] == #[trigger] before[j]);
            }
            assert(reselected(before, after, rows, operator, candidate.number));
            assert(old(self).catalog.holds(found));
        }
        Ok(())
    }

    /// The name of the recipe of a candidate.
    pub fn candidate_recipe_name(&self, candidate: ImplementationCandidateId) -> (name: Option<&String>)
        requires
            self.wf(),
        ensures
            name is Some ==> self.catalog.numbered(candidate),
            forall|found: ImplementationCandidate|
                #[trigger] self.catalog.holds(found) && found.id == candidate ==> (match self.catalog.recipe_of(
                    found,
                ) {
                    Some(x) => Some(x.name),
                    None => None,
                }) == (match name {
                    Some(name) => Some(*name),
                    None => None,
                }),
    {
        self.catalog.candidate_recipe_name(candidate)
    }

    /// The implementation that a recipe stands for.
    pub fn candidate_implementation_name(&self, candidate: ImplementationCandidateId) -> (name: Option<&String>)
        requires
            self.wf(),
        ensures
            name is Some ==> self.catalog.numbered(candidate),
            forall|found: ImplementationCandidate|
                #[trigger] self.catalog.holds(found) && found.id == candidate ==> (match self.catalog.recipe_of(
                    found,
                ) {
                    Some(x) => x.implementation,
                    None => None,
                }) == (match name {
                    Some(name) => Some(*name),
                    None => None,
                }),
    {
        self.catalog.candidate_implementation_name(candidate)
    }

    /// What the provider calls the module of the operator.
    pub fn candidate_module_name(&self, candidate: ImplementationCandidateId) -> (name: Option<&String>)
        requires
            self.wf(),
        ensures
            name is Some ==> self.catalog.numbered(candidate),
            forall|found: ImplementationCandidate|
                #[trigger] self.catalog.holds(found) && found.id == candidate ==> (match self.catalog.offer_of(
                    found,
                ) {
                    Some(x) => x.module_name,
                    None => None,
                }) == (match name {
                    Some(name) => Some(*name),
                    None => None,
                }),
    {
        self.catalog.candidate_module_name(candidate)
    }

    /// What the provider calls the operation of the operator.
    pub fn candidate_operation_mnemonic(&self, candidate: ImplementationCandidateId) -> (name: Option<&String>)
        requires
            self.wf(),
        ensures
            name is Some ==> self.catalog.numbered(candidate),
            forall|found: ImplementationCandidate|
                #[trigger] self.catalog.holds(found) && found.id == candidate ==> (match self.catalog.offer_of(
                    found,
                ) {
                    Some(x) => x.mnemonic,
                    None => None,
                }) == (match name {
                    Some(name) => Some(*name),
                    None => None,
                }),
    {
        self.catalog.candidate_operation_mnemonic(candidate)
    }

    /// The candidates of an operator, none where there is no such operator.
    pub fn candidates(&self, operator: OperatorId) -> (row: Option<&Vec<ImplementationCandidate>>)
        ensures
            match row {
                Some(row) => operator.number < self.catalog.rows().len() && row@
                    == self.catalog.row(operator.number),
                None => operator.number >= self.catalog.rows().len(),
            },
    {
        self.catalog.candidates(operator)
    }

    /// Takes over what was chosen for a region of a design. A candidate that the
    /// catalog does not have is an error.
    pub fn apply_design(&mut self, design: &DesignSelection, row: usize) -> (result: Result<
        (),
        SynthError,
    >)
        requires
            old(self).wf(),
            design.wf(),
            row < design.summaries@.len(),
        ensures
            final(self).wf(),
            final(self).catalog == old(self).catalog,
            result is Ok <==> forall|g: int|
                0 <= g < design.summaries@[row as int].groups@.len() ==> old(self).catalog.numbered(
                    #[trigger] choice_of(*design, row as int, g),
                ),
            result matches Err(error) ==> error == SynthError::Invariant(
                Invariant::UnknownCandidate,
            ),
            result is Ok && follows_operators(&*old(self).catalog, design.summaries@[row as int])
                ==> forall|operator: u32|
                #[trigger] final(self).chosen(operator) == if operator
                    < design.summaries@[row as int].groups@.len() {
                    Some(choice_of(*design, row as int, operator as int).number)
                } else {
                    old(self).chosen(operator)
                },
    {
        let ghost start = *self;
        let ghost summary = design.summaries@[row as int];
        let ghost follows = follows_operators(&*self.catalog, summary);
        let mut g: usize = 0;
        while g < design.summaries[row].groups.len()
            invariant
                start == *old(self),
                start.wf(),
                self.wf(),
                self.catalog == start.catalog,
                design.wf(),
                row < design.summaries@.len(),
                summary == design.summaries@[row as int],
                follows == follows_operators(&*start.catalog, summary),
                g <= summary.groups@.len(),
                forall|h: int|
                    0 <= h < g ==> start.catalog.numbered(
                        #[trigger] choice_of(*design, row as int, h),
                    ),
                follows ==> forall|operator: u32|
                    #[trigger] self.chosen(operator) == if operator < g {
                        Some(choice_of(*design, row as int, operator as int).number)
                    } else {
                        start.chosen(operator)
                    },
            decreases summary.groups@.len() - g,
        {
            let candidate = design.choice(row, g);
            assert(candidate == choice_of(*design, row as int, g as int));
            let ghost before = *self;
            match self.select_candidate(candidate) {
                Ok(()) => {},
                Err(error) => {
                    assert(!start.catalog.numbered(choice_of(*design, row as int, g as int)));
                    return Err(error);
                },
            }
            proof {
                if follows {
                    let rows = start.catalog.rows();
                    let place = design.selected@[row as int]@[g as int] as int;
                    assert(chosen(summary.groups@, design.selected@[row as int]@));
                    assert(belongs(&*start.catalog, summary, g as int, place));
                    let owned = choose|owned: ImplementationCandidate|
                        #[trigger] start.catalog.holds(owned) && owned.id == candidate
                            && owned.operator.number == g;
                    let (r, i) = choose|r: int, i: int|
                        0 <= r < rows.len() && 0 <= i < rows[r].len() && #[trigger] rows[r][i]
                            == owned;
                    lemma_one_candidate(&*start.catalog, r, i);
                    assert forall|operator: u32| #[trigger] self.chosen(operator) == if operator
                        < g + 1 {
                        Some(choice_of(*design, row as int, operator as int).number)
                    } else {
                        start.chosen(operator)
                    } by {
                        assert(self.chosen(operator) == in_force(
                            rows,
                            self.selections@,
                            operator,
                        ));
                        assert(before.chosen(operator) == in_force(
                            rows,
                            before.selections@,
                            operator,
                        ));
                    }
                }
            }
            g += 1;
        }
        Ok(())
    }

    pub fn operator_for_source_operation(&self, operation: crate::word::types::OpId)
        -> (operator: Option<OperatorId>)
        ensures
            operator == (if operation.raw < self.catalog.recognized.by_source@.len()
                && self.catalog.recognized.by_source@[operation.raw as int]
                != super::recognition::MISSING_OPERATOR_ID {
                Some(
                    OperatorId {
                        number: self.catalog.recognized.by_source@[operation.raw as int],
                    },
                )
            } else {
                None
            }),
    {
        self.catalog.operator_for_source_operation(operation)
    }
}

/// The candidate that a design has for a group of a region.
pub open spec fn choice_of(design: DesignSelection, row: int, group: int) -> ImplementationCandidateId {
    design.summaries@[row].groups@[group]@[design.selected@[row]@[group] as int].candidate
}

/// A candidate of a group belongs to the operator with the number of the group.
pub open spec fn belongs(
    catalog: &OperatorCatalog,
    summary: RegionSummary,
    group: int,
    place: int,
) -> bool {
    exists|owned: ImplementationCandidate|
        #[trigger] catalog.holds(owned) && owned.id == summary.groups@[group]@[place].candidate
            && owned.operator.number == group
}

/// The groups of a region are those of the operators of a catalog.
pub open spec fn follows_operators(catalog: &OperatorCatalog, summary: RegionSummary) -> bool {
    &&& summary.groups@.len() <= u32::MAX
    &&& forall|group: int, place: int|
        0 <= group < summary.groups@.len() && 0 <= place < summary.groups@[group]@.len()
            ==> #[trigger] belongs(catalog, summary, group, place)
}

/// The inputs of the first terms.
pub open spec fn term_inputs(terms: Seq<ArithmeticTerm>, count: nat) -> Seq<ValueId>
    decreases count,
{
    if count == 0 {
        seq![]
    } else {
        match terms[count - 1] {
            ArithmeticTerm::Value { value, .. } => term_inputs(terms, (count - 1) as nat).push(
                value,
            ),
            ArithmeticTerm::Product { left, right, .. } => term_inputs(
                terms,
                (count - 1) as nat,
            ).push(left).push(right),
        }
    }
}

proof fn lemma_held(catalog: &OperatorCatalog, r: int, i: int)
    requires
        catalog.wf(),
        0 <= r < catalog.rows().len(),
        0 <= i < catalog.rows()[r].len(),
    ensures
        catalog.holds(catalog.rows()[r][i]),
        catalog.rows()[r][i].id.number < super::catalog::candidate_count(
            catalog.rows(),
            catalog.rows().len(),
        ),
{
    let rows = catalog.rows();
    assert(rows[r][i].id.number == super::catalog::candidate_count(rows, r as nat) + i);
    super::catalog::lemma_count_grows(rows, (r + 1) as nat, rows.len());
}

/// No two candidates have one number.
proof fn lemma_one_candidate(catalog: &OperatorCatalog, r: int, i: int)
    requires
        catalog.wf(),
        0 <= r < catalog.rows().len(),
        0 <= i < catalog.rows()[r].len(),
    ensures
        forall|found: ImplementationCandidate|
            #![trigger catalog.holds(found)]
            catalog.holds(found) && found.id == catalog.rows()[r][i].id ==> found
                == catalog.rows()[r][i],
{
    let rows = catalog.rows();
    assert forall|found: ImplementationCandidate|
        #![trigger catalog.holds(found)]
        catalog.holds(found) && found.id == rows[r][i].id implies found == rows[r][i] by {
        let (s, j) = choose|s: int, j: int|
            0 <= s < rows.len() && 0 <= j < rows[s].len() && #[trigger] rows[s][j] == found;
        assert(rows[s][j].id.number == super::catalog::candidate_count(rows, s as nat) + j);
        assert(rows[r][i].id.number == super::catalog::candidate_count(rows, r as nat) + i);
        if s < r {
            super::catalog::lemma_count_grows(rows, (s + 1) as nat, r as nat);
        } else if r < s {
            super::catalog::lemma_count_grows(rows, (r + 1) as nat, s as nat);
        }
    }
}

proof fn lemma_absent(selections: Seq<Selection>, place: int, operator: u32)
    requires
        0 <= place <= selections.len(),
        ordered(selections),
        forall|i: int| 0 <= i < place ==> (#[trigger] selections[i]).operator.number < operator,
        forall|i: int|
            place <= i < selections.len() ==> (#[trigger] selections[i]).operator.number
                >= operator,
        place < selections.len() ==> selections[place].operator.number != operator,
    ensures
        !is_selected(selections, operator),
{
    if is_selected(selections, operator) {
        let other = choose|other: int| #[trigger] selected_at(selections, operator, other);
        assert(selected_at(selections, operator, other));
        if other > place {
            assert(selections[place].operator.number < selections[other].operator.number);
        }
    }
}

/// Selections that agree on an operator have one candidate in force for it.
proof fn lemma_same_force(
    rows: Seq<Seq<ImplementationCandidate>>,
    left: Seq<Selection>,
    right: Seq<Selection>,
    other: u32,
)
    requires
        ordered(left),
        ordered(right),
        forall|i: int|
            0 <= i < left.len() && (#[trigger] left[i]).operator.number == other ==> exists|j: int|
                0 <= j < right.len() && left[i] == #[trigger] right[j],
        forall|j: int|
            0 <= j < right.len() && (#[trigger] right[j]).operator.number == other ==> exists|
                i: int,
            |
                0 <= i < left.len() && #[trigger] left[i] == right[j],
    ensures
        in_force(rows, left, other) == in_force(rows, right, other),
{
    if is_selected(left, other) {
        let i = choose|i: int| #[trigger] selected_at(left, other, i);
        assert(selected_at(left, other, i));
        assert(left[i].operator.number == other);
        let j = choose|j: int| 0 <= j < right.len() && left[i] == #[trigger] right[j];
        assert(selected_at(right, other, j));
        lemma_selected(left, other, i);
        lemma_selected(right, other, j);
    } else if is_selected(right, other) {
        let j = choose|j: int| #[trigger] selected_at(right, other, j);
        assert(selected_at(right, other, j));
        assert(right[j].operator.number == other);
        let i = choose|i: int| 0 <= i < left.len() && #[trigger] left[i] == right[j];
        assert(selected_at(left, other, i));
    }
}

proof fn lemma_removed(
    rows: Seq<Seq<ImplementationCandidate>>,
    before: Seq<Selection>,
    place: int,
    operator: u32,
)
    requires
        ordered(before),
        selected_at(before, operator, place),
        operator < rows.len(),
        rows[operator as int].len() > 0,
    ensures
        ordered(before.remove(place)),
        reselected(
            before,
            before.remove(place),
            rows,
            operator,
            rows[operator as int][0].id.number,
        ),
        forall|i: int|
            0 <= i < before.len() - 1 ==> #[trigger] before.remove(place)[i] == before[if i
                < place {
                i
            } else {
                i + 1
            }],
{
    let after = before.remove(place);
    assert forall|i: int, j: int| 0 <= i < j < after.len() implies (
    #[trigger] after[i]).operator.number < (#[trigger] after[j]).operator.number by {
        let x = if i < place {
            i
        } else {
            i + 1
        };
        let y = if j < place {
            j
        } else {
            j + 1
        };
        assert(after[i] == before[x]);
        assert(after[j] == before[y]);
    }
    assert forall|other: u32| #[trigger]
        in_force(rows, after, other) == if other == operator {
            Some(rows[operator as int][0].id.number)
        } else {
            in_force(rows, before, other)
        } by {
        if other == operator {
            if is_selected(after, operator) {
                let i = choose|i: int| #[trigger] selected_at(after, operator, i);
                assert(selected_at(after, operator, i));
                if i < place {
                    assert(after[i] == before[i]);
                    assert(before[i].operator.number < before[place].operator.number);
                } else {
                    assert(after[i] == before[i + 1]);
                    assert(before[place].operator.number < before[i + 1].operator.number);
                }
            }
        } else {
            assert forall|j: int|
                0 <= j < before.len() && (#[trigger] before[j]).operator.number == other implies exists|
                i: int,
            |
                0 <= i < after.len() && #[trigger] after[i] == before[j] by {
                if j < place {
                    assert(after[j] == before[j]);
                } else {
                    assert(j != place);
                    assert(after[j - 1] == before[j]);
                }
            }
            assert forall|i: int|
                0 <= i < after.len() && (#[trigger] after[i]).operator.number == other implies exists|
                j: int,
            |
                0 <= j < before.len() && after[i] == #[trigger] before[j] by {
                if i < place {
                    assert(after[i] == before[i]);
                } else {
                    assert(after[i] == before[i + 1]);
                }
            }
            lemma_same_force(rows, after, before, other);
        }
    }
}

proof fn lemma_replaced(
    rows: Seq<Seq<ImplementationCandidate>>,
    before: Seq<Selection>,
    place: int,
    selection: Selection,
)
    requires
        ordered(before),
        selected_at(before, selection.operator.number, place),
    ensures
        ordered(before.update(place, selection)),
        reselected(
            before,
            before.update(place, selection),
            rows,
            selection.operator.number,
            selection.candidate.number,
        ),
        forall|i: int|
            0 <= i < before.len() && i != place ==> #[trigger] before.update(place, selection)[i]
                == before[i],
{
    let after = before.update(place, selection);
    assert forall|i: int, j: int| 0 <= i < j < after.len() implies (
    #[trigger] after[i]).operator.number < (#[trigger] after[j]).operator.number by {
        assert(before[i].operator.number < before[j].operator.number);
    }
    assert forall|other: u32| #[trigger]
        in_force(rows, after, other) == if other == selection.operator.number {
            Some(selection.candidate.number)
        } else {
            in_force(rows, before, other)
        } by {
        if other == selection.operator.number {
            assert(selected_at(after, other, place));
            lemma_selected(after, other, place);
        } else {
            assert forall|j: int|
                0 <= j < before.len() && (#[trigger] before[j]).operator.number == other implies exists|
                i: int,
            |
                0 <= i < after.len() && #[trigger] after[i] == before[j] by {
                assert(after[j] == before[j]);
            }
            assert forall|i: int|
                0 <= i < after.len() && (#[trigger] after[i]).operator.number == other implies exists|
                j: int,
            |
                0 <= j < before.len() && after[i] == #[trigger] before[j] by {
                assert(after[i] == before[i]);
            }
            lemma_same_force(rows, after, before, other);
        }
    }
}

proof fn lemma_inserted(
    rows: Seq<Seq<ImplementationCandidate>>,
    before: Seq<Selection>,
    place: int,
    selection: Selection,
)
    requires
        0 <= place <= before.len(),
        ordered(before),
        forall|i: int|
            0 <= i < place ==> (#[trigger] before[i]).operator.number < selection.operator.number,
        forall|i: int|
            place <= i < before.len() ==> (#[trigger] before[i]).operator.number
                > selection.operator.number,
    ensures
        ordered(before.insert(place, selection)),
        reselected(
            before,
            before.insert(place, selection),
            rows,
            selection.operator.number,
            selection.candidate.number,
        ),
        forall|i: int|
            0 <= i < before.len() + 1 && i != place ==> #[trigger] before.insert(
                place,
                selection,
            )[i] == before[if i < place {
                i
            } else {
                i - 1
            }],
{
    let after = before.insert(place, selection);
    assert(after[place] == selection);
    assert forall|i: int, j: int| 0 <= i < j < after.len() implies (
    #[trigger] after[i]).operator.number < (#[trigger] after[j]).operator.number by {
        if i < place {
            assert(after[i] == before[i]);
        } else if i > place {
            assert(after[i] == before[i - 1]);
        }
        if j < place {
            assert(after[j] == before[j]);
        } else if j > place {
            assert(after[j] == before[j - 1]);
        }
    }
    assert forall|other: u32| #[trigger]
        in_force(rows, after, other) == if other == selection.operator.number {
            Some(selection.candidate.number)
        } else {
            in_force(rows, before, other)
        } by {
        if other == selection.operator.number {
            assert(selected_at(after, other, place));
            lemma_selected(after, other, place);
        } else {
            assert forall|j: int|
                0 <= j < before.len() && (#[trigger] before[j]).operator.number == other implies exists|
                i: int,
            |
                0 <= i < after.len() && #[trigger] after[i] == before[j] by {
                if j < place {
                    assert(after[j] == before[j]);
                } else {
                    assert(after[j + 1] == before[j]);
                }
            }
            lemma_same_force(rows, after, before, other);
        }
    }
}

} // verus!
