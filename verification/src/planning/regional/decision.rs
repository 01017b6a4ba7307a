//! What was decided for the memories of a region, and how it is kept.

use crate::digest::{
    blake3_digest, blake3_hash, lemma_little_endian_length, lemma_split, little_endian,
    push_little_endian,
};
use crate::error::{Invariant, SynthError};
use vstd::prelude::*;

verus! {

/// How a memory is implemented.
#[derive(Clone, Copy, PartialEq, Eq, Structural, Debug)]
pub enum MemoryImplementationCandidate {
    /// A register for every word.
    RegisterBank,
    /// The cell of the library with a number.
    Macro(u32),
}

impl MemoryImplementationCandidate {
    pub open spec fn number(self) -> u32 {
        match self {
            MemoryImplementationCandidate::RegisterBank => 0,
            MemoryImplementationCandidate::Macro(cell) => if cell == u32::MAX {
                u32::MAX
            } else {
                (cell + 1) as u32
            },
        }
    }

    pub open spec fn of_number(raw: u32) -> Self {
        if raw == 0 {
            MemoryImplementationCandidate::RegisterBank
        } else {
            MemoryImplementationCandidate::Macro((raw - 1) as u32)
        }
    }

    /// The number that an implementation is kept as. The last two cells share
    /// one.
    pub fn raw(self) -> (raw: u32)
        ensures
            raw == self.number(),
    {
        match self {
            MemoryImplementationCandidate::RegisterBank => 0,
            MemoryImplementationCandidate::Macro(cell) => cell.saturating_add(1),
        }
    }

    /// The implementation that is kept as a number.
    pub fn from_raw(raw: u32) -> (candidate: Self)
        ensures
            candidate == Self::of_number(raw),
    {
        if raw == 0 {
            MemoryImplementationCandidate::RegisterBank
        } else {
            MemoryImplementationCandidate::Macro(raw - 1)
        }
    }
}

/// Reading a number back gives the implementation that it was written for, and
/// writing it again gives the number. The last cell has no number of its own.
pub proof fn numbers_are_read_back(candidate: MemoryImplementationCandidate, raw: u32)
    requires
        candidate != MemoryImplementationCandidate::Macro(u32::MAX),
    ensures
        MemoryImplementationCandidate::of_number(candidate.number()) == candidate,
        MemoryImplementationCandidate::of_number(raw).number() == raw,
{
}

/// Four bytes as a number, the least significant one first.
pub open spec fn number_at(bytes: Seq<u8>, at: int) -> u32 {
    (bytes[at] as int + 256 * bytes[at + 1] as int + 65536 * bytes[at + 2] as int + 16777216
        * bytes[at + 3] as int) as u32
}

pub open spec fn decoded(bytes: Seq<u8>) -> Seq<MemoryImplementationCandidate> {
    Seq::new(
        bytes.len() / 4,
        |i: int| MemoryImplementationCandidate::of_number(number_at(bytes, 4 * i)),
    )
}

/// The implementations that were kept as bytes, four for each.
pub fn decode_memory_implementations(encoded: &Vec<u8>) -> (result: Result<
    Vec<MemoryImplementationCandidate>,
    SynthError,
>)
    ensures
        match result {
            Ok(implementations) => encoded@.len() % 4 == 0 && implementations@ == decoded(
                encoded@,
            ),
            Err(error) => encoded@.len() % 4 != 0 && error == SynthError::Invariant(
                Invariant::UnalignedMemoryImplementations,
            ),
        },
{
    if encoded.len() % 4 != 0 {
        return Err(SynthError::Invariant(Invariant::UnalignedMemoryImplementations));
    }
    let mut implementations: Vec<MemoryImplementationCandidate> = Vec::new();
    let total: usize = encoded.len();
    let count: usize = total / 4;
    let mut i: usize = 0;
    while i < count
        invariant
            total == encoded@.len(),
            count == total / 4,
            encoded@.len() % 4 == 0,
            i <= count,
            implementations@.len() == i,
            forall|k: int|
                0 <= k < i ==> #[trigger] implementations@[k]
                    == MemoryImplementationCandidate::of_number(number_at(encoded@, 4 * k)),
        decreases count - i,
    {
        assert(4 * i + 4 <= encoded@.len());
        let at: usize = 4 * i;
        let raw: u32 = encoded[at] as u32 + 256 * encoded[at + 1] as u32 + 65536 * encoded[at
            + 2] as u32 + 16777216 * encoded[at + 3] as u32;
        implementations.push(MemoryImplementationCandidate::from_raw(raw));
        i += 1;
    }
    assert(implementations@ =~= decoded(encoded@));
    Ok(implementations)
}

/// Implementations as bytes, four for each.
pub open spec fn portable(implementations: Seq<MemoryImplementationCandidate>) -> Seq<u8>
    decreases implementations.len(),
{
    if implementations.len() == 0 {
        seq![]
    } else {
        portable(implementations.drop_last()) + little_endian(
            implementations.last().number() as nat,
            4,
        )
    }
}

proof fn lemma_portable_length(implementations: Seq<MemoryImplementationCandidate>)
    ensures
        portable(implementations).len() == 4 * implementations.len(),
    decreases implementations.len(),
{
    if implementations.len() > 0 {
        lemma_portable_length(implementations.drop_last());
        lemma_little_endian_length(implementations.last().number() as nat, 4);
    }
}

proof fn lemma_four_bytes(number: u32)
    ensures
        little_endian(number as nat, 4).len() == 4,
        number_at(little_endian(number as nat, 4), 0) == number,
{
    reveal_with_fuel(little_endian, 5);
    let bytes = little_endian(number as nat, 4);
    let a = number as nat;
    let b = a / 256;
    let c = b / 256;
    let d = c / 256;
    assert(bytes[0] == (a % 256) as u8);
    assert(bytes[1] == (b % 256) as u8);
    assert(bytes[2] == (c % 256) as u8);
    assert(bytes[3] == (d % 256) as u8);
    assert(d < 256);
    assert(a == (a % 256) + 256 * (b % 256) + 65536 * (c % 256) + 16777216 * (d % 256));
}

proof fn lemma_decoded_at(implementations: Seq<MemoryImplementationCandidate>, i: int)
    requires
        0 <= i < implementations.len(),
    ensures
        number_at(portable(implementations), 4 * i) == implementations[i].number(),
    decreases implementations.len(),
{
    lemma_portable_length(implementations);
    let before = implementations.drop_last();
    lemma_portable_length(before);
    let bytes = portable(implementations);
    if i < before.len() {
        lemma_decoded_at(before, i);
        let short = portable(before);
        assert(bytes[4 * i] == short[4 * i] && bytes[4 * i + 1] == short[4 * i + 1] && bytes[4 * i
            + 2] == short[4 * i + 2] && bytes[4 * i + 3] == short[4 * i + 3]);
    } else {
        let last = implementations.last().number();
        lemma_four_bytes(last);
        let four = little_endian(last as nat, 4);
        assert(bytes[4 * i] == four[0] && bytes[4 * i + 1] == four[1] && bytes[4 * i + 2]
            == four[2] && bytes[4 * i + 3] == four[3]);
    }
}

/// Implementations that were written are read back, as long as none is the last
/// cell.
pub proof fn implementations_are_read_back(implementations: Seq<MemoryImplementationCandidate>)
    requires
        forall|i: int|
            0 <= i < implementations.len() ==> #[trigger] implementations[i]
                != MemoryImplementationCandidate::Macro(u32::MAX),
    ensures
        portable(implementations).len() % 4 == 0,
        decoded(portable(implementations)) == implementations,
{
    lemma_portable_length(implementations);
    let bytes = portable(implementations);
    assert forall|i: int| 0 <= i < implementations.len() implies decoded(bytes)[i]
        == implementations[i] by {
        lemma_decoded_at(implementations, i);
        numbers_are_read_back(implementations[i], 0);
    }
    assert(decoded(bytes) =~= implementations);
}

/// What every key starts from: `opto/regional/decision-vector/v3` and a zero.
pub open spec fn decision_domain() -> Seq<u8> {
    seq![
        111u8, 112u8, 116u8, 111u8, 47u8, 114u8, 101u8, 103u8, 105u8, 111u8, 110u8, 97u8, 108u8,
        47u8, 100u8, 101u8, 99u8, 105u8, 115u8, 105u8, 111u8, 110u8, 45u8, 118u8, 101u8, 99u8,
        116u8, 111u8, 114u8, 47u8, 118u8, 51u8, 0u8,
    ]
}

/// The bytes that the key of decisions is taken of.
pub open spec fn decision_bytes(implementations: Seq<MemoryImplementationCandidate>) -> Seq<u8> {
    decision_domain() + little_endian(implementations.len(), 8) + portable(implementations)
}

/// The key that decisions are found by.
pub fn decision_key(implementations: &Vec<MemoryImplementationCandidate>) -> (key: [u8; 32])
    ensures
        key@ == blake3_digest(decision_bytes(implementations@)),
{
    let bytes = key_bytes(implementations);
    blake3_hash(&bytes)
}

/// The bytes that the key of decisions is taken of.
pub fn key_bytes(implementations: &Vec<MemoryImplementationCandidate>) -> (bytes: Vec<u8>)
    ensures
        bytes@ == decision_bytes(implementations@),
{
    let mut bytes: Vec<u8> = vec![
        111u8, 112u8, 116u8, 111u8, 47u8, 114u8, 101u8, 103u8, 105u8, 111u8, 110u8, 97u8, 108u8,
        47u8, 100u8, 101u8, 99u8, 105u8, 115u8, 105u8, 111u8, 110u8, 45u8, 118u8, 101u8, 99u8,
        116u8, 111u8, 114u8, 47u8, 118u8, 51u8, 0u8,
    ];
    assert(bytes@ =~= decision_domain());
    push_little_endian(&mut bytes, implementations.len() as u64, 8);
    push_portable(&mut bytes, implementations);
    bytes
}

fn push_portable(bytes: &mut Vec<u8>, implementations: &Vec<MemoryImplementationCandidate>)
    ensures
        final(bytes)@ == old(bytes)@ + portable(implementations@),
{
    let ghost start = bytes@;
    let mut i: usize = 0;
    assert(bytes@ =~= start + portable(implementations@.take(0)));
    while i < implementations.len()
        invariant
            i <= implementations@.len(),
            bytes@ == start + portable(implementations@.take(i as int)),
        decreases implementations.len() - i,
    {
        push_little_endian(bytes, implementations[i].raw() as u64, 4);
        proof {
            let next = implementations@.take(i + 1);
            assert(next.drop_last() =~= implementations@.take(i as int));
            assert(next.last() == implementations@[i as int]);
            assert(bytes@ =~= start + portable(next));
        }
        i += 1;
    }
    assert(implementations@.take(i as int) =~= implementations@);
}

/// Decisions whose keys are taken of the same bytes have the same numbers.
pub proof fn decision_bytes_are_faithful(
    left: Seq<MemoryImplementationCandidate>,
    right: Seq<MemoryImplementationCandidate>,
)
    requires
        decision_bytes(left) == decision_bytes(right),
    ensures
        left.len() == right.len(),
        forall|i: int|
            0 <= i < left.len() ==> (#[trigger] left[i]).number() == right[i].number(),
{
    lemma_little_endian_length(left.len(), 8);
    lemma_little_endian_length(right.len(), 8);
    lemma_split(
        decision_domain() + little_endian(left.len(), 8),
        portable(left),
        decision_domain() + little_endian(right.len(), 8),
        portable(right),
    );
    lemma_portable_length(left);
    lemma_portable_length(right);
    assert forall|i: int| 0 <= i < left.len() implies (#[trigger] left[i]).number()
        == right[i].number() by {
        lemma_decoded_at(left, i);
        lemma_decoded_at(right, i);
    }
}

/// A cover that was kept for a region, in its encoded form.
#[derive(Clone, PartialEq, Eq, Debug)]
pub struct RegionCoverPlanRecord {
    pub encoded: Vec<u8>,
}

/// What was decided for one region.
#[derive(Clone, PartialEq, Eq, Debug)]
pub struct RegionalDecisionVector {
    pub memory_implementations: Vec<MemoryImplementationCandidate>,
    pub retained_plan: Option<RegionCoverPlanRecord>,
}

impl RegionalDecisionVector {
    pub fn new(memory_implementations: Vec<MemoryImplementationCandidate>) -> (vector: Self)
        ensures
            vector.memory_implementations == memory_implementations,
            vector.retained_plan is None,
    {
        RegionalDecisionVector { memory_implementations, retained_plan: None }
    }

    pub fn with_retained_plan(self, plan: Option<RegionCoverPlanRecord>) -> (vector: Self)
        ensures
            vector.memory_implementations == self.memory_implementations,
            vector.retained_plan == plan,
    {
        RegionalDecisionVector {
            memory_implementations: self.memory_implementations,
            retained_plan: plan,
        }
    }

    pub fn memory_implementations(&self) -> (implementations: &Vec<MemoryImplementationCandidate>)
        ensures
            implementations@ == self.memory_implementations@,
    {
        &self.memory_implementations
    }

    /// The implementations as bytes.
    pub fn portable_memory_implementations(&self) -> (bytes: Vec<u8>)
        ensures
            bytes@ == portable(self.memory_implementations@),
    {
        let mut bytes: Vec<u8> = Vec::new();
        push_portable(&mut bytes, &self.memory_implementations);
        assert(bytes@ =~= portable(self.memory_implementations@));
        bytes
    }

    /// The key that the vector is found by. The kept cover plays no part.
    pub fn stable_key(&self) -> (key: [u8; 32])
        ensures
            key@ == blake3_digest(decision_bytes(self.memory_implementations@)),
    {
        decision_key(&self.memory_implementations)
    }

    pub fn retained_plan(&self) -> (plan: Option<&RegionCoverPlanRecord>)
        ensures
            match plan {
                Some(found) => self.retained_plan == Some(*found),
                None => self.retained_plan is None,
            },
    {
        match &self.retained_plan {
            Some(plan) => Some(plan),
            None => None,
        }
    }
}

/// What was decided for every region.
#[derive(Debug)]
pub struct RegionalDecisionPlan {
    pub rows: Vec<RegionalDecisionVector>,
}

impl RegionalDecisionPlan {
    pub fn new(rows: Vec<RegionalDecisionVector>) -> (plan: Self)
        ensures
            plan.rows == rows,
    {
        RegionalDecisionPlan { rows }
    }

    pub fn vector(&self, row: u32) -> (vector: &RegionalDecisionVector)
        requires
            row < self.rows@.len(),
        ensures
            *vector == self.rows@[row as int],
    {
        &self.rows[row as usize]
    }

    pub fn len(&self) -> (length: usize)
        ensures
            length == self.rows@.len(),
    {
        self.rows.len()
    }
}

} // verus!
