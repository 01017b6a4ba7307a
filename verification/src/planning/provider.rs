//! What implements an operator.

use vstd::prelude::*;

verus! {

/// The place of a provider in the provider table.
#[derive(Clone, Copy, PartialEq, Eq, PartialOrd, Ord, Hash, Debug)]
pub struct ImplementationProviderId {
    pub number: u8,
}

impl ImplementationProviderId {
    pub fn from_raw(raw: u8) -> (id: Self)
        ensures
            id.number == raw,
    {
        ImplementationProviderId { number: raw }
    }

    pub fn index(self) -> (index: usize)
        ensures
            index == self.number,
    {
        self.number as usize
    }
}

/// The number by which a provider knows one of its recipes.
#[derive(Clone, Copy, PartialEq, Eq, PartialOrd, Ord, Hash, Debug)]
pub struct ProviderRecipeId {
    pub number: u32,
}

impl ProviderRecipeId {
    pub fn from_raw(raw: u32) -> (id: Self)
        ensures
            id.number == raw,
    {
        ProviderRecipeId { number: raw }
    }

    pub fn raw(self) -> (raw: u32)
        ensures
            raw == self.number,
    {
        self.number
    }
}

/// A cost summary without units, used to rank constructions before cells are
/// chosen.
#[derive(Clone, Copy, PartialEq, Eq, Structural, Debug)]
pub struct StructuralEstimate {
    /// The longest path, in logic levels.
    pub logic_depth: u32,
    /// The amount of logic.
    pub logic_units: u64,
    /// The amount of wiring.
    pub wiring_units: u64,
}

} // verus!
