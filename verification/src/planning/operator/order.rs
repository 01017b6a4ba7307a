//! The order of operators and signatures.

use super::signature::OperatorSignatureId;
use crate::planning::architecture::OperatorId;
use std::cmp::Ordering;
use vstd::prelude::*;
use vstd::std_specs::cmp::PartialOrdSpecImpl;

verus! {

/// Operators are ordered by their numbers.
impl PartialOrd for OperatorId {
    fn partial_cmp(&self, other: &Self) -> (order: Option<Ordering>) {
        if self.number < other.number {
            Some(Ordering::Less)
        } else if self.number == other.number {
            Some(Ordering::Equal)
        } else {
            Some(Ordering::Greater)
        }
    }
}

impl PartialOrdSpecImpl for OperatorId {
    open spec fn obeys_partial_cmp_spec() -> bool {
        true
    }

    open spec fn partial_cmp_spec(&self, other: &Self) -> Option<Ordering> {
        if self.number < other.number {
            Some(Ordering::Less)
        } else if self.number == other.number {
            Some(Ordering::Equal)
        } else {
            Some(Ordering::Greater)
        }
    }
}

/// The place that an index names.
pub open spec fn place_of(index: usize) -> int {
    index + 0
}

/// The order of bytes from a place on: the first difference decides.
pub open spec fn byte_order(left: Seq<u8>, right: Seq<u8>, from: int) -> Ordering
    decreases left.len() - from,
{
    if from < 0 || from >= left.len() {
        Ordering::Equal
    } else if left[from] < right[from] {
        Ordering::Less
    } else if left[from] > right[from] {
        Ordering::Greater
    } else {
        byte_order(left, right, from + 1)
    }
}

/// Signatures are ordered by the bytes of their digests.
impl PartialOrd for OperatorSignatureId {
    fn partial_cmp(&self, other: &Self) -> (order: Option<Ordering>) {
        let mut i: usize = 0;
        while i < 32
            invariant
                i <= 32,
                byte_order(self.digest@, other.digest@, 0) == byte_order(
                    self.digest@,
                    other.digest@,
                    place_of(i),
                ),
            decreases 32 - i,
        {
            if self.digest[i] < other.digest[i] {
                return Some(Ordering::Less);
            }
            if self.digest[i] > other.digest[i] {
                return Some(Ordering::Greater);
            }
            i += 1;
        }
        Some(Ordering::Equal)
    }
}

impl PartialOrdSpecImpl for OperatorSignatureId {
    open spec fn obeys_partial_cmp_spec() -> bool {
        true
    }

    open spec fn partial_cmp_spec(&self, other: &Self) -> Option<Ordering> {
        Some(byte_order(self.digest@, other.digest@, 0))
    }
}

} // verus!
