//! The operators of a module with the recipes that can implement them.

use super::recognition::{
    recognize_operators, recognized, KnowledgeArguments, RecognizedOperators, RecognizedView,
    MISSING_OPERATOR_ID,
};
use crate::error::{Invalid, Invariant, Resource, SynthError};
use crate::planning::architecture::{ArithmeticTerm, OperatorId, SemanticOperator};
use crate::planning::provider::{ImplementationProviderId, ProviderRecipeId, StructuralEstimate};
use crate::word::module::{ModuleView, WordModule};
use crate::word::types::OpId;
use vstd::prelude::*;

verus! {

/// The number of an implementation candidate in its catalog.
#[derive(Clone, Copy, PartialEq, Eq, PartialOrd, Ord, Hash, Debug)]
pub struct ImplementationCandidateId {
    pub number: u32,
}

impl ImplementationCandidateId {
    /// The place of the candidate in its catalog.
    pub fn raw(self) -> (raw: u32)
        ensures
            raw == self.number,
    {
        self.number
    }

    pub fn from_raw(raw: u32) -> (id: Self)
        ensures
            id.number == raw,
    {
        ImplementationCandidateId { number: raw }
    }
}

/// A recipe of a provider that can implement an operator.
#[derive(Clone, Copy, PartialEq, Eq, Debug)]
pub struct ImplementationCandidate {
    pub id: ImplementationCandidateId,
    pub operator: OperatorId,
    pub provider: ImplementationProviderId,
    pub recipe: ProviderRecipeId,
}

impl ImplementationCandidate {
    pub fn id(self) -> (id: ImplementationCandidateId)
        ensures
            id == self.id,
    {
        self.id
    }

    /// The operator that the candidate implements.
    pub fn operator(self) -> (operator: OperatorId)
        ensures
            operator == self.operator,
    {
        self.operator
    }

    pub fn provider(self) -> (provider: ImplementationProviderId)
        ensures
            provider == self.provider,
    {
        self.provider
    }

    pub fn recipe(self) -> (recipe: ProviderRecipeId)
        ensures
            recipe == self.recipe,
    {
        self.recipe
    }
}

/// A recipe that a provider knows.
#[derive(Debug)]
pub struct Recipe {
    pub id: ProviderRecipeId,
    pub name: String,
    pub implementation: Option<String>,
}

/// A provider: its resource and its recipes.
#[derive(Debug)]
pub struct Provider {
    pub resource: String,
    pub recipes: Vec<Recipe>,
}

/// What a provider offers for one operator: recipes with their estimates, and
/// what the operator is called there.
#[derive(Debug)]
pub struct Offer {
    pub recipes: Vec<ProviderRecipeId>,
    pub estimates: Vec<StructuralEstimate>,
    pub module_name: Option<String>,
    pub mnemonic: Option<String>,
}

/// Whether a provider knows a recipe.
pub open spec fn knows(provider: Provider, recipe: u32) -> bool {
    exists|i: int|
        0 <= i < provider.recipes@.len() && (#[trigger] provider.recipes@[i]).id.number == recipe
}

/// Whether a recipe occurs among the first of a list.
pub open spec fn listed_before(recipes: Seq<ProviderRecipeId>, count: int) -> bool {
    exists|i: int| 0 <= i < count && (#[trigger] recipes[i]).number == recipes[count].number
}

/// The candidates of one operator with the first recipes of a provider.
pub open spec fn with_recipes(
    provider: Provider,
    place: nat,
    operator: u32,
    recipes: Seq<ProviderRecipeId>,
    base: nat,
    start: Seq<ImplementationCandidate>,
    count: nat,
) -> Result<Seq<ImplementationCandidate>, SynthError>
    decreases count,
{
    if count == 0 {
        Ok(start)
    } else {
        match with_recipes(provider, place, operator, recipes, base, start, (count - 1) as nat) {
            Err(error) => Err(error),
            Ok(row) => {
                let recipe = recipes[count - 1];
                if !knows(provider, recipe.number) {
                    Err(SynthError::Invalid(Invalid::UnknownRecipe))
                } else if listed_before(recipes, count - 1) {
                    Err(SynthError::Invalid(Invalid::RepeatedRecipe))
                } else if base + row.len() >= u32::MAX {
                    Err(SynthError::Capacity(Resource::Candidates))
                } else {
                    Ok(
                        row.push(
                            ImplementationCandidate {
                                id: ImplementationCandidateId { number: (base + row.len()) as u32 },
                                operator: OperatorId { number: operator },
                                provider: ImplementationProviderId { number: place as u8 },
                                recipe,
                            },
                        ),
                    )
                }
            },
        }
    }
}

/// The candidates of one operator from the first providers.
pub open spec fn with_providers(
    providers: Seq<Provider>,
    offers: Seq<Offer>,
    operator: u32,
    base: nat,
    count: nat,
) -> Result<Seq<ImplementationCandidate>, SynthError>
    decreases count,
{
    if count == 0 {
        Ok(seq![])
    } else {
        match with_providers(providers, offers, operator, base, (count - 1) as nat) {
            Err(error) => Err(error),
            Ok(row) => if count - 1 > u8::MAX {
                Err(SynthError::Capacity(Resource::Candidates))
            } else {
                with_recipes(
                    providers[count - 1],
                    (count - 1) as nat,
                    operator,
                    offers[count - 1].recipes@,
                    base,
                    row,
                    offers[count - 1].recipes@.len(),
                )
            },
        }
    }
}

/// The number of candidates in the first rows.
pub open spec fn candidate_count(rows: Seq<Seq<ImplementationCandidate>>, count: nat) -> nat
    decreases count,
{
    if count == 0 {
        0
    } else {
        candidate_count(rows, (count - 1) as nat) + rows[count - 1].len()
    }
}

pub open spec fn offer_row(offers: Seq<Vec<Offer>>, operator: int) -> Seq<Offer> {
    offers[operator]@
}

/// The candidates of the first operators.
pub open spec fn candidate_table(providers: Seq<Provider>, offers: Seq<Vec<Offer>>, count: nat) -> Result<
    Seq<Seq<ImplementationCandidate>>,
    SynthError,
>
    decreases count,
{
    if count == 0 {
        Ok(seq![])
    } else {
        match candidate_table(providers, offers, (count - 1) as nat) {
            Err(error) => Err(error),
            Ok(rows) => match with_providers(
                providers,
                offer_row(offers, count - 1),
                (count - 1) as u32,
                candidate_count(rows, rows.len()),
                providers.len(),
            ) {
                Err(error) => Err(error),
                Ok(row) => Ok(rows.push(row)),
            },
        }
    }
}

/// Candidates are numbered in order, row by row.
pub open spec fn numbered(rows: Seq<Seq<ImplementationCandidate>>) -> bool {
    forall|r: int, i: int|
        0 <= r < rows.len() && 0 <= i < rows[r].len() ==> {
            &&& (#[trigger] rows[r][i]).id.number == candidate_count(rows, r as nat) + i
            &&& rows[r][i].operator.number == r
        }
}

proof fn lemma_with_recipes(
    provider: Provider,
    place: nat,
    operator: u32,
    recipes: Seq<ProviderRecipeId>,
    base: nat,
    start: Seq<ImplementationCandidate>,
    count: nat,
)
    requires
        forall|i: int|
            0 <= i < start.len() ==> (#[trigger] start[i]).id.number == base + i
                && start[i].operator.number == operator,
    ensures
        with_recipes(provider, place, operator, recipes, base, start, count) matches Ok(row)
            ==> forall|i: int|
            0 <= i < row.len() ==> (#[trigger] row[i]).id.number == base + i
                && row[i].operator.number == operator,
    decreases count,
{
    if count > 0 {
        lemma_with_recipes(provider, place, operator, recipes, base, start, (count - 1) as nat);
    }
}

proof fn lemma_with_providers(
    providers: Seq<Provider>,
    offers: Seq<Offer>,
    operator: u32,
    base: nat,
    count: nat,
)
    ensures
        with_providers(providers, offers, operator, base, count) matches Ok(row) ==> forall|i: int|
            0 <= i < row.len() ==> (#[trigger] row[i]).id.number == base + i
                && row[i].operator.number == operator,
    decreases count,
{
    if count > 0 {
        lemma_with_providers(providers, offers, operator, base, (count - 1) as nat);
        if let Ok(row) = with_providers(providers, offers, operator, base, (count - 1) as nat) {
            lemma_with_recipes(
                providers[count - 1],
                (count - 1) as nat,
                operator,
                offers[count - 1].recipes@,
                base,
                row,
                offers[count - 1].recipes@.len(),
            );
        }
    }
}

proof fn lemma_count_prefix(
    left: Seq<Seq<ImplementationCandidate>>,
    right: Seq<Seq<ImplementationCandidate>>,
    count: nat,
)
    requires
        count <= left.len(),
        count <= right.len(),
        forall|r: int| 0 <= r < count ==> #[trigger] left[r] == right[r],
    ensures
        candidate_count(left, count) == candidate_count(right, count),
    decreases count,
{
    if count > 0 {
        lemma_count_prefix(left, right, (count - 1) as nat);
    }
}

/// The candidates of a table are numbered in order, row by row.
pub proof fn candidates_are_numbered(providers: Seq<Provider>, offers: Seq<Vec<Offer>>, count: nat)
    requires
        count <= u32::MAX,
    ensures
        candidate_table(providers, offers, count) matches Ok(rows) ==> numbered(rows)
            && rows.len() == count,
    decreases count,
{
    if count > 0 {
        candidates_are_numbered(providers, offers, (count - 1) as nat);
        if let Ok(rows) = candidate_table(providers, offers, (count - 1) as nat) {
            let base = candidate_count(rows, rows.len());
            lemma_with_providers(
                providers,
                offer_row(offers, count - 1),
                (count - 1) as u32,
                base,
                providers.len(),
            );
            if let Ok(all) = candidate_table(providers, offers, count) {
                assert forall|r: int, i: int|
                    0 <= r < all.len() && 0 <= i < all[r].len() implies {
                    &&& (#[trigger] all[r][i]).id.number == candidate_count(all, r as nat) + i
                    &&& all[r][i].operator.number == r
                } by {
                    lemma_count_prefix(rows, all, r as nat);
                    if r < rows.len() {
                        assert(rows[r][i] == all[r][i]);
                    }
                }
            }
        }
    }
}

pub open spec fn candidate_rows(rows: Seq<Vec<ImplementationCandidate>>) -> Seq<
    Seq<ImplementationCandidate>,
> {
    rows.map_values(|row: Vec<ImplementationCandidate>| row@)
}

fn provider_knows(provider: &Provider, recipe: u32) -> (known: bool)
    ensures
        known == knows(*provider, recipe),
{
    let mut i: usize = 0;
    while i < provider.recipes.len()
        invariant
            i <= provider.recipes@.len(),
            forall|k: int|
                0 <= k < i ==> (#[trigger] provider.recipes@[k]).id.number != recipe,
        decreases provider.recipes.len() - i,
    {
        if provider.recipes[i].id.number == recipe {
            assert(provider.recipes@[i as int].id.number == recipe);
            return true;
        }
        i += 1;
    }
    false
}

fn is_listed_before(recipes: &Vec<ProviderRecipeId>, count: usize) -> (listed: bool)
    requires
        count < recipes@.len(),
    ensures
        listed == listed_before(recipes@, count as int),
{
    let mut i: usize = 0;
    while i < count
        invariant
            i <= count < recipes@.len(),
            forall|k: int|
                0 <= k < i ==> (#[trigger] recipes@[k]).number != recipes@[count as int].number,
        decreases count - i,
    {
        if recipes[i].number == recipes[count].number {
            assert(recipes@[i as int].number == recipes@[count as int].number);
            return true;
        }
        i += 1;
    }
    false
}

proof fn lemma_recipe_error(
    provider: Provider,
    place: nat,
    operator: u32,
    recipes: Seq<ProviderRecipeId>,
    base: nat,
    start: Seq<ImplementationCandidate>,
    count: nat,
    total: nat,
)
    requires
        count <= total,
        with_recipes(provider, place, operator, recipes, base, start, count) is Err,
    ensures
        with_recipes(provider, place, operator, recipes, base, start, total) == with_recipes(
            provider,
            place,
            operator,
            recipes,
            base,
            start,
            count,
        ),
    decreases total - count,
{
    if count < total {
        lemma_recipe_error(
            provider,
            place,
            operator,
            recipes,
            base,
            start,
            count,
            (total - 1) as nat,
        );
    }
}

/// Adds the candidates that a provider offers for an operator.
fn add_recipes(
    row: &mut Vec<ImplementationCandidate>,
    provider: &Provider,
    place: u8,
    operator: u32,
    recipes: &Vec<ProviderRecipeId>,
    base: u64,
) -> (result: Result<(), SynthError>)
    requires
        base <= u32::MAX,
        old(row)@.len() <= u32::MAX,
    ensures
        match with_recipes(
            *provider,
            place as nat,
            operator,
            recipes@,
            base as nat,
            old(row)@,
            recipes@.len(),
        ) {
            Ok(all) => result is Ok && final(row)@ == all && base + all.len() <= u32::MAX
                || result is Ok && final(row)@ == all && final(row)@ == old(row)@,
            Err(error) => result == Err::<(), SynthError>(error),
        },
{
    let ghost start = row@;
    let mut k: usize = 0;
    while k < recipes.len()
        invariant
            start == old(row)@,
            k <= recipes@.len(),
            base <= u32::MAX,
            row@ == start && start.len() <= u32::MAX || base + row@.len() <= u32::MAX,
            with_recipes(
                *provider,
                place as nat,
                operator,
                recipes@,
                base as nat,
                start,
                k as nat,
            ) == Ok::<Seq<ImplementationCandidate>, SynthError>(row@),
        decreases recipes.len() - k,
    {
        let recipe = recipes[k];
        let ghost next = with_recipes(
            *provider,
            place as nat,
            operator,
            recipes@,
            base as nat,
            start,
            (k + 1) as nat,
        );
        proof {
            if next is Err {
                lemma_recipe_error(
                    *provider,
                    place as nat,
                    operator,
                    recipes@,
                    base as nat,
                    start,
                    (k + 1) as nat,
                    recipes@.len(),
                );
            }
        }
        if !provider_knows(provider, recipe.number) {
            return Err(SynthError::Invalid(Invalid::UnknownRecipe));
        }
        if is_listed_before(recipes, k) {
            return Err(SynthError::Invalid(Invalid::RepeatedRecipe));
        }
        let number: u64 = base + row.len() as u64;
        if number >= u32::MAX as u64 {
            return Err(SynthError::Capacity(Resource::Candidates));
        }
        row.push(
            ImplementationCandidate {
                id: ImplementationCandidateId { number: number as u32 },
                operator: OperatorId { number: operator },
                provider: ImplementationProviderId { number: place },
                recipe,
            },
        );
        k += 1;
    }
    Ok(())
}

proof fn lemma_provider_error(
    providers: Seq<Provider>,
    offers: Seq<Offer>,
    operator: u32,
    base: nat,
    count: nat,
    total: nat,
)
    requires
        count <= total,
        with_providers(providers, offers, operator, base, count) is Err,
    ensures
        with_providers(providers, offers, operator, base, total) == with_providers(
            providers,
            offers,
            operator,
            base,
            count,
        ),
    decreases total - count,
{
    if count < total {
        lemma_provider_error(providers, offers, operator, base, count, (total - 1) as nat);
    }
}

/// The candidates of one operator.
fn operator_candidates(providers: &Vec<Provider>, offers: &Vec<Offer>, operator: u32, base: u64)
    -> (result: Result<Vec<ImplementationCandidate>, SynthError>)
    requires
        offers@.len() == providers@.len(),
        base <= u32::MAX,
    ensures
        match with_providers(providers@, offers@, operator, base as nat, providers@.len()) {
            Ok(all) => result matches Ok(row) && row@ == all && base + all.len() <= u32::MAX,
            Err(error) => result matches Err(found) && found == error,
        },
{
    let mut row: Vec<ImplementationCandidate> = Vec::new();
    let mut p: usize = 0;
    while p < providers.len()
        invariant
            offers@.len() == providers@.len(),
            base <= u32::MAX,
            p <= providers@.len(),
            base + row@.len() <= u32::MAX,
            with_providers(providers@, offers@, operator, base as nat, p as nat) == Ok::<
                Seq<ImplementationCandidate>,
                SynthError,
            >(row@),
        decreases providers.len() - p,
    {
        proof {
            if with_providers(providers@, offers@, operator, base as nat, (p + 1) as nat) is Err {
                lemma_provider_error(
                    providers@,
                    offers@,
                    operator,
                    base as nat,
                    (p + 1) as nat,
                    providers@.len(),
                );
            }
        }
        if p > u8::MAX as usize {
            return Err(SynthError::Capacity(Resource::Candidates));
        }
        match add_recipes(&mut row, &providers[p], p as u8, operator, &offers[p].recipes, base) {
            Ok(()) => {},
            Err(error) => return Err(error),
        }
        p += 1;
    }
    Ok(row)
}

proof fn lemma_table_error(providers: Seq<Provider>, offers: Seq<Vec<Offer>>, count: nat, total: nat)
    requires
        count <= total,
        candidate_table(providers, offers, count) is Err,
    ensures
        candidate_table(providers, offers, total) == candidate_table(providers, offers, count),
    decreases total - count,
{
    if count < total {
        lemma_table_error(providers, offers, count, (total - 1) as nat);
    }
}

/// The offers cover every operator and provider.
pub open spec fn offers_fit(providers: Seq<Provider>, offers: Seq<Vec<Offer>>, operators: nat) -> bool {
    &&& offers.len() == operators
    &&& forall|o: int| 0 <= o < offers.len() ==> (#[trigger] offers[o])@.len() == providers.len()
}

fn do_offers_fit(providers: &Vec<Provider>, offers: &Vec<Vec<Offer>>, operators: usize) -> (fit: bool)
    ensures
        fit == offers_fit(providers@, offers@, operators as nat),
{
    if offers.len() != operators {
        return false;
    }
    let mut o: usize = 0;
    while o < offers.len()
        invariant
            o <= offers@.len(),
            forall|k: int|
                0 <= k < o ==> (#[trigger] offers@[k])@.len() == providers@.len(),
        decreases offers.len() - o,
    {
        if offers[o].len() != providers.len() {
            assert(offers@[o as int]@.len() != providers@.len());
            return false;
        }
        o += 1;
    }
    true
}

/// The candidates of every operator.
fn candidates_of(providers: &Vec<Provider>, offers: &Vec<Vec<Offer>>) -> (result: Result<
    Vec<Vec<ImplementationCandidate>>,
    SynthError,
>)
    requires
        offers@.len() <= u32::MAX,
        offers_fit(providers@, offers@, offers@.len()),
    ensures
        match candidate_table(providers@, offers@, offers@.len()) {
            Ok(rows) => result matches Ok(found) && candidate_rows(found@) == rows
                && candidate_count(rows, rows.len()) <= u32::MAX,
            Err(error) => result matches Err(found) && found == error,
        },
{
    let mut candidates: Vec<Vec<ImplementationCandidate>> = Vec::new();
    let mut base: u64 = 0;
    let mut o: usize = 0;
    assert(candidate_rows(candidates@) =~= Seq::<Seq<ImplementationCandidate>>::empty());
    while o < offers.len()
        invariant
            offers@.len() <= u32::MAX,
            offers_fit(providers@, offers@, offers@.len()),
            o <= offers@.len(),
            base <= u32::MAX,
            base == candidate_count(
                candidate_rows(candidates@),
                candidate_rows(candidates@).len(),
            ),
            candidates@.len() == o,
            candidate_table(providers@, offers@, o as nat) == Ok::<
                Seq<Seq<ImplementationCandidate>>,
                SynthError,
            >(candidate_rows(candidates@)),
        decreases offers.len() - o,
    {
        let ghost rows = candidate_rows(candidates@);
        proof {
            if candidate_table(providers@, offers@, (o + 1) as nat) is Err {
                lemma_table_error(providers@, offers@, (o + 1) as nat, offers@.len());
            }
        }
        assert(offers@[o as int]@.len() == providers@.len());
        let row = match operator_candidates(providers, &offers[o], o as u32, base) {
            Ok(row) => row,
            Err(error) => {
                assert(candidate_table(providers@, offers@, (o + 1) as nat) is Err);
                return Err(error);
            },
        };
        let ghost numbers = row@;
        base = base + row.len() as u64;
        candidates.push(row);
        proof {
            let all = candidate_rows(candidates@);
            assert(all =~= rows.push(numbers));
            lemma_count_prefix(rows, all, rows.len());
        }
        o += 1;
    }
    Ok(candidates)
}

/// The operators of a module with their candidates.
pub struct OperatorCatalog {
    pub providers: Vec<Provider>,
    pub recognized: RecognizedOperators,
    pub candidates: Vec<Vec<ImplementationCandidate>>,
    pub offers: Vec<Vec<Offer>>,
}

impl OperatorCatalog {
    pub open spec fn rows(&self) -> Seq<Seq<ImplementationCandidate>> {
        candidate_rows(self.candidates@)
    }

    pub open spec fn wf(&self) -> bool {
        &&& self.candidates@.len() == self.recognized.operators@.len()
        &&& self.candidates@.len() <= u32::MAX
        &&& numbered(self.rows())
        &&& candidate_count(self.rows(), self.rows().len()) <= u32::MAX
    }

    /// A catalog without operators, for the shell of a region.
    pub fn regional_shell(operation_count: usize) -> (catalog: Self)
        ensures
            catalog.wf(),
            catalog.providers@.len() == 0,
            catalog.recognized@ == (RecognizedView {
                operators: seq![],
                by_source: Seq::new(operation_count as nat, |i: int| MISSING_OPERATOR_ID),
                sources: seq![],
                terms: seq![],
            }),
            catalog.rows() == Seq::<Seq<ImplementationCandidate>>::empty(),
    {
        let mut by_source: Vec<u32> = Vec::new();
        by_source.resize(operation_count, MISSING_OPERATOR_ID);
        let catalog = OperatorCatalog {
            providers: Vec::new(),
            recognized: RecognizedOperators {
                operators: Vec::new(),
                by_source,
                sources: Vec::new(),
                terms: Vec::new(),
            },
            candidates: Vec::new(),
            offers: Vec::new(),
        };
        assert(catalog.recognized@.by_source =~= Seq::new(
            operation_count as nat,
            |i: int| MISSING_OPERATOR_ID,
        ));
        catalog
    }

    /// Recognizes the operators of a module and numbers the recipes that are
    /// offered for them.
    #[verifier::rlimit(40)]
    pub fn for_module(
        module: &WordModule,
        knowledge: &KnowledgeArguments,
        providers: Vec<Provider>,
        offers: Vec<Vec<Offer>>,
    ) -> (result: Result<Self, SynthError>)
        requires
            module@.wf(),
            knowledge.fits(module@),
        ensures
            match recognized(module@, knowledge@, module@.operations.len()) {
                Err(error) => result matches Err(found) && found == error,
                Ok(operators) => if !offers_fit(
                    providers@,
                    offers@,
                    operators.operators.len(),
                ) {
                    result matches Err(found) && found == SynthError::Invariant(
                        Invariant::UnknownOperator,
                    )
                } else {
                    match candidate_table(providers@, offers@, operators.operators.len()) {
                        Err(error) => result matches Err(found) && found == error,
                        Ok(rows) => result matches Ok(catalog) && {
                            &&& catalog.wf()
                            &&& catalog.recognized@ == operators
                            &&& catalog.rows() == rows
                            &&& catalog.providers == providers
                            &&& catalog.offers == offers
                        },
                    }
                },
            },
    {
        let found = match recognize_operators(module, knowledge) {
            Ok(found) => found,
            Err(error) => return Err(error),
        };
        let ghost operators = found@;
        proof {
            lemma_operator_count(module@, knowledge@, module@.operations.len());
        }
        if !do_offers_fit(&providers, &offers, found.operators.len()) {
            return Err(SynthError::Invariant(Invariant::UnknownOperator));
        }
        let candidates = match candidates_of(&providers, &offers) {
            Ok(candidates) => candidates,
            Err(error) => return Err(error),
        };
        proof {
            candidates_are_numbered(providers@, offers@, offers@.len());
        }
        Ok(OperatorCatalog { providers, recognized: found, candidates, offers })
    }

    pub fn operators(&self) -> (operators: &Vec<SemanticOperator>)
        ensures
            operators@ == self.recognized.operators@,
    {
        &self.recognized.operators
    }

    pub fn operator(&self, id: OperatorId) -> (operator: Option<SemanticOperator>)
        ensures
            operator == (if id.number < self.recognized.operators@.len() {
                Some(self.recognized.operators@[id.number as int])
            } else {
                None
            }),
    {
        if (id.number as usize) < self.recognized.operators.len() {
            Some(self.recognized.operators[id.number as usize])
        } else {
            None
        }
    }

    /// The operations that an operator covers.
    pub fn source_operations(&self, id: OperatorId) -> (sources: Option<&Vec<OpId>>)
        ensures
            match sources {
                Some(row) => id.number < self.recognized@.sources.len() && row@
                    == self.recognized@.sources[id.number as int],
                None => id.number >= self.recognized@.sources.len(),
            },
    {
        if (id.number as usize) < self.recognized.sources.len() {
            Some(&self.recognized.sources[id.number as usize])
        } else {
            None
        }
    }

    /// The terms of a fused operator.
    pub fn arithmetic_terms(&self, id: OperatorId) -> (terms: Option<&Vec<ArithmeticTerm>>)
        ensures
            match terms {
                Some(row) => id.number < self.recognized@.terms.len() && row@
                    == self.recognized@.terms[id.number as int],
                None => id.number >= self.recognized@.terms.len(),
            },
    {
        if (id.number as usize) < self.recognized.terms.len() {
            Some(&self.recognized.terms[id.number as usize])
        } else {
            None
        }
    }

    pub open spec fn row(&self, operator: u32) -> Seq<ImplementationCandidate> {
        if operator < self.rows().len() {
            self.rows()[operator as int]
        } else {
            seq![]
        }
    }

    /// The candidates of an operator.
    pub fn candidates(&self, operator: OperatorId) -> (row: Option<&Vec<ImplementationCandidate>>)
        ensures
            match row {
                Some(found) => operator.number < self.candidates@.len() && found@ == self.row(
                    operator.number,
                ),
                None => operator.number >= self.candidates@.len(),
            },
    {
        if (operator.number as usize) < self.candidates.len() {
            Some(&self.candidates[operator.number as usize])
        } else {
            None
        }
    }

    /// A candidate with a number is in the catalog.
    pub open spec fn holds(&self, candidate: ImplementationCandidate) -> bool {
        exists|r: int, i: int|
            0 <= r < self.rows().len() && 0 <= i < self.rows()[r].len() && #[trigger] self.rows()[r][i]
                == candidate
    }

    /// The candidate with a number.
    pub fn candidate(&self, id: ImplementationCandidateId) -> (candidate: Option<
        ImplementationCandidate,
    >)
        requires
            self.wf(),
        ensures
            candidate is Some <==> id.number < candidate_count(self.rows(), self.rows().len()),
            candidate matches Some(found) ==> found.id == id && self.holds(found)
                && found.operator.number < self.rows().len() && self.row(
                found.operator.number,
            ).len() > 0,
    {
        let ghost rows = self.rows();
        let mut rest: u64 = id.number as u64;
        let mut r: usize = 0;
        while r < self.candidates.len()
            invariant
                self.wf(),
                rows == self.rows(),
                r <= self.candidates@.len(),
                id.number == rest + candidate_count(rows, r as nat),
            decreases self.candidates.len() - r,
        {
            assert(rows[r as int] == self.candidates@[r as int]@);
            let length: u64 = self.candidates[r].len() as u64;
            if rest < length {
                let found = self.candidates[r][rest as usize];
                proof {
                    assert(rows[r as int][rest as int] == found);
                    lemma_count_grows(rows, (r + 1) as nat, rows.len());
                    assert(self.holds(found));
                }
                return Some(found);
            }
            rest = rest - length;
            r += 1;
        }
        None
    }

    /// The estimate of a candidate.
    pub fn candidate_estimate(&self, candidate: ImplementationCandidate) -> (result: Result<
        StructuralEstimate,
        SynthError,
    >)
        ensures
            result is Ok <==> self.estimate_of(candidate) is Some,
            result matches Ok(estimate) ==> self.estimate_of(candidate) == Some(estimate),
            result matches Err(error) ==> error == SynthError::Invariant(
                Invariant::UnknownOperator,
            ) || error == SynthError::Invariant(Invariant::UnknownCandidate),
    {
        let operator: usize = candidate.operator.number as usize;
        let provider: usize = candidate.provider.number as usize;
        if operator >= self.offers.len() {
            return Err(SynthError::Invariant(Invariant::UnknownOperator));
        }
        if provider >= self.offers[operator].len() {
            return Err(SynthError::Invariant(Invariant::UnknownCandidate));
        }
        let offer = &self.offers[operator][provider];
        let mut i: usize = 0;
        while i < offer.recipes.len()
            invariant
                operator == candidate.operator.number,
                provider == candidate.provider.number,
                operator < self.offers@.len(),
                provider < self.offers@[operator as int]@.len(),
                *offer == self.offers@[operator as int]@[provider as int],
                i <= offer.recipes@.len(),
                forall|k: int|
                    0 <= k < i ==> (#[trigger] offer.recipes@[k]).number
                        != candidate.recipe.number,
            decreases offer.recipes.len() - i,
        {
            if offer.recipes[i].number == candidate.recipe.number {
                proof {
                    lemma_recipe_place(offer.recipes@, candidate.recipe.number, i as int);
                }
                if i < offer.estimates.len() {
                    return Ok(offer.estimates[i]);
                }
                return Err(SynthError::Invariant(Invariant::UnknownCandidate));
            }
            i += 1;
        }
        Err(SynthError::Invariant(Invariant::UnknownCandidate))
    }

    /// What was offered for a candidate.
    pub open spec fn estimate_of(&self, candidate: ImplementationCandidate) -> Option<
        StructuralEstimate,
    > {
        let operator = candidate.operator.number as int;
        let provider = candidate.provider.number as int;
        if operator < self.offers@.len() && provider < self.offers@[operator]@.len() {
            let offer = self.offers@[operator]@[provider];
            if is_offered(offer.recipes@, candidate.recipe.number) && recipe_place(
                offer.recipes@,
                candidate.recipe.number,
            ) < offer.estimates@.len() {
                Some(offer.estimates@[recipe_place(offer.recipes@, candidate.recipe.number)])
            } else {
                None
            }
        } else {
            None
        }
    }

    /// What a provider calls the recipe of a candidate.
    pub open spec fn recipe_of(&self, candidate: ImplementationCandidate) -> Option<Recipe> {
        let provider = candidate.provider.number as int;
        if provider < self.providers@.len() {
            let recipes = self.providers@[provider].recipes@;
            let place = named_from(recipes, candidate.recipe.number, 0);
            if place < recipes.len() {
                Some(recipes[place as int])
            } else {
                None
            }
        } else {
            None
        }
    }

    /// What a provider offers for the operator of a candidate.
    pub open spec fn offer_of(&self, candidate: ImplementationCandidate) -> Option<Offer> {
        let operator = candidate.operator.number as int;
        let provider = candidate.provider.number as int;
        if operator < self.offers@.len() && provider < self.offers@[operator]@.len() {
            Some(self.offers@[operator]@[provider])
        } else {
            None
        }
    }

    /// A number names a candidate of the catalog.
    pub open spec fn numbered(&self, id: ImplementationCandidateId) -> bool {
        id.number < candidate_count(self.rows(), self.rows().len())
    }

    fn candidate_recipe(&self, id: ImplementationCandidateId) -> (recipe: Option<&Recipe>)
        requires
            self.wf(),
        ensures
            recipe is Some ==> self.numbered(id),
            forall|found: ImplementationCandidate|
                #[trigger] self.holds(found) && found.id == id ==> self.recipe_of(found)
                    == (match recipe {
                    Some(recipe) => Some(*recipe),
                    None => None,
                }),
    {
        let candidate = match self.candidate(id) {
            Some(candidate) => candidate,
            None => {
                proof {
                    self.lemma_held_is_numbered(id);
                }
                return None;
            },
        };
        proof {
            self.lemma_one_holder(candidate);
        }
        let provider: usize = candidate.provider.number as usize;
        if provider >= self.providers.len() {
            return None;
        }
        let recipes = &self.providers[provider].recipes;
        let mut place: usize = 0;
        while place < recipes.len() && recipes[place].id.number != candidate.recipe.number
            invariant
                place <= recipes@.len(),
                named_from(recipes@, candidate.recipe.number, 0) == named_from(
                    recipes@,
                    candidate.recipe.number,
                    place as nat,
                ),
            decreases recipes.len() - place,
        {
            place += 1;
        }
        if place < recipes.len() {
            Some(&recipes[place])
        } else {
            None
        }
    }

    fn candidate_offer(&self, id: ImplementationCandidateId) -> (offer: Option<&Offer>)
        requires
            self.wf(),
        ensures
            offer is Some ==> self.numbered(id),
            forall|found: ImplementationCandidate|
                #[trigger] self.holds(found) && found.id == id ==> self.offer_of(found)
                    == (match offer {
                    Some(offer) => Some(*offer),
                    None => None,
                }),
    {
        let candidate = match self.candidate(id) {
            Some(candidate) => candidate,
            None => {
                proof {
                    self.lemma_held_is_numbered(id);
                }
                return None;
            },
        };
        proof {
            self.lemma_one_holder(candidate);
        }
        let operator: usize = candidate.operator.number as usize;
        let provider: usize = candidate.provider.number as usize;
        if operator < self.offers.len() && provider < self.offers[operator].len() {
            Some(&self.offers[operator][provider])
        } else {
            None
        }
    }

    /// A candidate that the catalog holds has a number below the count.
    proof fn lemma_held_is_numbered(&self, id: ImplementationCandidateId)
        requires
            self.wf(),
        ensures
            forall|found: ImplementationCandidate|
                #[trigger] self.holds(found) && found.id == id ==> self.numbered(id),
    {
        let rows = self.rows();
        assert forall|found: ImplementationCandidate|
            #[trigger] self.holds(found) && found.id == id implies self.numbered(id) by {
            let (r, i) = choose|r: int, i: int|
                0 <= r < rows.len() && 0 <= i < rows[r].len() && #[trigger] rows[r][i] == found;
            assert(rows[r][i].id.number == candidate_count(rows, r as nat) + i);
            lemma_count_grows(rows, (r + 1) as nat, rows.len());
        }
    }

    /// No other candidate has the number of one that the catalog holds.
    proof fn lemma_one_holder(&self, candidate: ImplementationCandidate)
        requires
            self.wf(),
            self.holds(candidate),
        ensures
            forall|found: ImplementationCandidate|
                #[trigger] self.holds(found) && found.id == candidate.id ==> found == candidate,
    {
        let rows = self.rows();
        let (r, i) = choose|r: int, i: int|
            0 <= r < rows.len() && 0 <= i < rows[r].len() && #[trigger] rows[r][i] == candidate;
        assert forall|found: ImplementationCandidate|
            #[trigger] self.holds(found) && found.id == candidate.id implies found == candidate by {
            let (s, j) = choose|s: int, j: int|
                0 <= s < rows.len() && 0 <= j < rows[s].len() && #[trigger] rows[s][j] == found;
            assert(rows[s][j].id.number == candidate_count(rows, s as nat) + j);
            assert(rows[r][i].id.number == candidate_count(rows, r as nat) + i);
            if s < r {
                lemma_count_grows(rows, (s + 1) as nat, r as nat);
            } else if r < s {
                lemma_count_grows(rows, (r + 1) as nat, s as nat);
            }
        }
    }

    /// The name of the recipe of a candidate.
    pub fn candidate_recipe_name(&self, id: ImplementationCandidateId) -> (name: Option<&String>)
        requires
            self.wf(),
        ensures
            name is Some ==> self.numbered(id),
            forall|found: ImplementationCandidate|
                #[trigger] self.holds(found) && found.id == id ==> (match self.recipe_of(found) {
                    Some(x) => Some(x.name),
                    None => None,
                }) == (match name {
                    Some(name) => Some(*name),
                    None => None,
                }),
    {
        match self.candidate_recipe(id) {
            Some(x) => Some(&x.name),
            None => None,
        }
    }

    /// The implementation that a recipe stands for.
    pub fn candidate_implementation_name(&self, id: ImplementationCandidateId) -> (name: Option<&String>)
        requires
            self.wf(),
        ensures
            name is Some ==> self.numbered(id),
            forall|found: ImplementationCandidate|
                #[trigger] self.holds(found) && found.id == id ==> (match self.recipe_of(found) {
                    Some(x) => x.implementation,
                    None => None,
                }) == (match name {
                    Some(name) => Some(*name),
                    None => None,
                }),
    {
        match self.candidate_recipe(id) {
            Some(x) => match &x.implementation {
                Some(name) => Some(name),
                None => None,
            },
            None => None,
        }
    }

    /// What the provider calls the module of the operator.
    pub fn candidate_module_name(&self, id: ImplementationCandidateId) -> (name: Option<&String>)
        requires
            self.wf(),
        ensures
            name is Some ==> self.numbered(id),
            forall|found: ImplementationCandidate|
                #[trigger] self.holds(found) && found.id == id ==> (match self.offer_of(found) {
                    Some(x) => x.module_name,
                    None => None,
                }) == (match name {
                    Some(name) => Some(*name),
                    None => None,
                }),
    {
        match self.candidate_offer(id) {
            Some(x) => match &x.module_name {
                Some(name) => Some(name),
                None => None,
            },
            None => None,
        }
    }

    /// What the provider calls the operation of the operator.
    pub fn candidate_operation_mnemonic(&self, id: ImplementationCandidateId) -> (name: Option<&String>)
        requires
            self.wf(),
        ensures
            name is Some ==> self.numbered(id),
            forall|found: ImplementationCandidate|
                #[trigger] self.holds(found) && found.id == id ==> (match self.offer_of(found) {
                    Some(x) => x.mnemonic,
                    None => None,
                }) == (match name {
                    Some(name) => Some(*name),
                    None => None,
                }),
    {
        match self.candidate_offer(id) {
            Some(x) => match &x.mnemonic {
                Some(name) => Some(name),
                None => None,
            },
            None => None,
        }
    }

    /// The operator that an operation belongs to.
    pub fn operator_for_source_operation(&self, operation: OpId) -> (operator: Option<OperatorId>)
        ensures
            operator == (if operation.raw < self.recognized.by_source@.len()
                && self.recognized.by_source@[operation.raw as int] != MISSING_OPERATOR_ID {
                Some(OperatorId { number: self.recognized.by_source@[operation.raw as int] })
            } else {
                None
            }),
    {
        if (operation.raw as usize) < self.recognized.by_source.len() {
            let number: u32 = self.recognized.by_source[operation.raw as usize];
            if number != MISSING_OPERATOR_ID {
                return Some(OperatorId { number });
            }
        }
        None
    }
}

/// The first place from which a recipe has a number, or the count.
pub open spec fn named_from(recipes: Seq<Recipe>, number: u32, from: nat) -> nat
    decreases recipes.len() - from,
{
    if from < recipes.len() && recipes[from as int].id.number != number {
        named_from(recipes, number, from + 1)
    } else {
        from
    }
}

/// A place where a recipe is first offered.
pub open spec fn first_place(recipes: Seq<ProviderRecipeId>, recipe: u32, place: int) -> bool {
    &&& 0 <= place < recipes.len()
    &&& recipes[place].number == recipe
    &&& forall|k: int| 0 <= k < place ==> (#[trigger] recipes[k]).number != recipe
}

pub open spec fn is_offered(recipes: Seq<ProviderRecipeId>, recipe: u32) -> bool {
    exists|place: int| #[trigger] first_place(recipes, recipe, place)
}

pub open spec fn recipe_place(recipes: Seq<ProviderRecipeId>, recipe: u32) -> int {
    choose|place: int| #[trigger] first_place(recipes, recipe, place)
}

proof fn lemma_recipe_place(recipes: Seq<ProviderRecipeId>, recipe: u32, place: int)
    requires
        first_place(recipes, recipe, place),
    ensures
        is_offered(recipes, recipe),
        recipe_place(recipes, recipe) == place,
{
    let other = recipe_place(recipes, recipe);
    assert(first_place(recipes, recipe, other));
    if other < place {
        assert(recipes[other].number != recipe);
    } else if place < other {
        assert(recipes[place].number != recipe);
    }
}

pub proof fn lemma_count_grows(rows: Seq<Seq<ImplementationCandidate>>, count: nat, total: nat)
    requires
        count <= total,
    ensures
        candidate_count(rows, count) <= candidate_count(rows, total),
    decreases total - count,
{
    if count < total {
        lemma_count_grows(rows, count, (total - 1) as nat);
    }
}

/// There are no more operators than operations.
proof fn lemma_operator_count(
    module: ModuleView,
    knowledge: super::recognition::Knowledge,
    count: nat,
)
    ensures
        recognized(module, knowledge, count) matches Ok(found) ==> found.operators.len() <= count
            && found.sources.len() == found.operators.len() && found.terms.len()
            == found.operators.len(),
    decreases count,
{
    if count > 0 {
        lemma_operator_count(module, knowledge, (count - 1) as nat);
    }
}

} // verus!
