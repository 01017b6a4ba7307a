//! Choosing among the candidates of a whole design.
//!
//! Every region offers groups of candidates, one group for each operator. A
//! candidate is chosen by how far it misses its budget, what its depth costs at
//! the price of the region, its size, and at last its name. Regions next to each
//! other then choose the candidates of their deepest groups together.

use super::catalog::ImplementationCandidateId;
use crate::error::{Invariant, SynthError};
use vstd::prelude::*;

verus! {

/// How often the prices of a design are adjusted.
pub const GLOBAL_SELECTION_ROUNDS: usize = 4;

/// What a candidate costs.
#[derive(Clone, Debug)]
pub struct CandidateSummary {
    pub candidate: ImplementationCandidateId,
    pub violation: u64,
    pub physical: u64,
    pub depth: u64,
    pub stable: Vec<u8>,
}

/// The groups of candidates of one region.
#[derive(Debug)]
pub struct RegionSummary {
    pub row: usize,
    pub groups: Vec<Vec<CandidateSummary>>,
}

/// A joint choice: region, group and candidate on both sides.
#[derive(Clone, Copy, PartialEq, Eq, Debug)]
pub struct FusionSelection {
    pub left: (usize, usize, usize),
    pub right: (usize, usize, usize),
}

/// The order of byte strings.
pub open spec fn row_less(left: Seq<u8>, right: Seq<u8>) -> bool
    decreases left.len(),
{
    if right.len() == 0 {
        false
    } else if left.len() == 0 {
        true
    } else if left[0] != right[0] {
        left[0] < right[0]
    } else {
        row_less(left.skip(1), right.skip(1))
    }
}

proof fn lemma_row_irreflexive(row: Seq<u8>)
    ensures
        !row_less(row, row),
    decreases row.len(),
{
    if row.len() > 0 {
        lemma_row_irreflexive(row.skip(1));
    }
}

proof fn lemma_row_transitive(a: Seq<u8>, b: Seq<u8>, c: Seq<u8>)
    requires
        row_less(a, b),
        row_less(b, c),
    ensures
        row_less(a, c),
    decreases a.len(),
{
    if a.len() > 0 && b.len() > 0 && c.len() > 0 && a[0] == b[0] && b[0] == c[0] {
        lemma_row_transitive(a.skip(1), b.skip(1), c.skip(1));
    }
}

proof fn lemma_row_total(a: Seq<u8>, b: Seq<u8>)
    requires
        a != b,
    ensures
        row_less(a, b) || row_less(b, a),
    decreases a.len(),
{
    if a.len() > 0 && b.len() > 0 && a[0] == b[0] {
        if a.skip(1) == b.skip(1) {
            assert(a =~= seq![a[0]] + a.skip(1));
            assert(b =~= seq![b[0]] + b.skip(1));
        }
        lemma_row_total(a.skip(1), b.skip(1));
    } else if a.len() == 0 && b.len() == 0 {
        assert(a =~= b);
    }
}

/// Compares byte strings: whether they are the same, and whether the first comes
/// before the second.
fn row_order(left: &Vec<u8>, right: &Vec<u8>) -> (order: (bool, bool))
    ensures
        order.0 == (left@ == right@),
        order.1 == row_less(left@, right@),
{
    let mut i: usize = 0;
    assert(left@.skip(0) =~= left@);
    assert(right@.skip(0) =~= right@);
    while i < left.len() && i < right.len() && left[i] == right[i]
        invariant
            i <= left@.len(),
            i <= right@.len(),
            left@.take(i as int) == right@.take(i as int),
            row_less(left@, right@) == row_less(left@.skip(i as int), right@.skip(i as int)),
        decreases left.len() - i,
    {
        proof {
            let a = left@.skip(i as int);
            let b = right@.skip(i as int);
            assert(a.skip(1) =~= left@.skip(i + 1));
            assert(b.skip(1) =~= right@.skip(i + 1));
            assert(a[0] == left@[i as int]);
            assert(b[0] == right@[i as int]);
            assert(left@.take(i + 1) =~= left@.take(i as int).push(left@[i as int]));
            assert(right@.take(i + 1) =~= right@.take(i as int).push(right@[i as int]));
        }
        i += 1;
    }
    proof {
        let a = left@.skip(i as int);
        let b = right@.skip(i as int);
        if i < left@.len() {
            assert(a[0] == left@[i as int]);
        }
        if i < right@.len() {
            assert(b[0] == right@[i as int]);
        }
        if i == left@.len() && i == right@.len() {
            assert(left@ =~= left@.take(i as int));
            assert(right@ =~= right@.take(i as int));
        }
    }
    let same = i == left.len() && i == right.len();
    let less = i < right.len() && (i == left.len() || left[i] < right[i]);
    (same, less)
}

/// Byte strings are ordered strictly and completely.
pub proof fn rows_are_ordered(a: Seq<u8>, b: Seq<u8>, c: Seq<u8>)
    ensures
        !row_less(a, a),
        row_less(a, b) && row_less(b, c) ==> row_less(a, c),
        !row_less(a, b) && !row_less(b, a) ==> a == b,
{
    lemma_row_irreflexive(a);
    if row_less(a, b) && row_less(b, c) {
        lemma_row_transitive(a, b, c);
    }
    if a != b {
        lemma_row_total(a, b);
    }
}

/// Whether one digest comes before another.
pub fn digest_less(left: &[u8; 32], right: &[u8; 32]) -> (less: bool)
    ensures
        less == row_less(left@, right@),
{
    let mut i: usize = 0;
    assert(left@.skip(0) =~= left@);
    assert(right@.skip(0) =~= right@);
    while i < 32 && left[i] == right[i]
        invariant
            i <= 32,
            row_less(left@, right@) == row_less(left@.skip(i as int), right@.skip(i as int)),
        decreases 32 - i,
    {
        proof {
            let a = left@.skip(i as int);
            let b = right@.skip(i as int);
            assert(a.skip(1) =~= left@.skip(i + 1));
            assert(b.skip(1) =~= right@.skip(i + 1));
            assert(a[0] == left@[i as int]);
            assert(b[0] == right@[i as int]);
        }
        i += 1;
    }
    proof {
        if i < 32 {
            assert(left@.skip(i as int)[0] == left@[i as int]);
            assert(right@.skip(i as int)[0] == right@[i as int]);
        }
    }
    i < 32 && left[i] < right[i]
}

/// What candidates are ordered by.
pub ghost struct Key {
    pub numbers: Seq<nat>,
    pub names: Seq<Seq<u8>>,
}

pub open spec fn numbers_less(left: Seq<nat>, right: Seq<nat>, from: nat) -> bool
    decreases left.len() - from,
{
    if from >= left.len() || from >= right.len() {
        false
    } else if left[from as int] != right[from as int] {
        left[from as int] < right[from as int]
    } else {
        numbers_less(left, right, from + 1)
    }
}

pub open spec fn names_less(left: Seq<Seq<u8>>, right: Seq<Seq<u8>>, from: nat) -> bool
    decreases left.len() - from,
{
    if from >= left.len() || from >= right.len() {
        false
    } else if left[from as int] != right[from as int] {
        row_less(left[from as int], right[from as int])
    } else {
        names_less(left, right, from + 1)
    }
}

/// The order of keys: by their numbers in turn, and then by their names.
pub open spec fn key_less(left: Key, right: Key) -> bool {
    numbers_less(left.numbers, right.numbers, 0) || (left.numbers == right.numbers && names_less(
        left.names,
        right.names,
        0,
    ))
}

proof fn lemma_numbers_order(a: Seq<nat>, b: Seq<nat>, c: Seq<nat>, from: nat)
    requires
        a.len() == b.len() == c.len(),
        from <= a.len(),
    ensures
        !numbers_less(a, a, from),
        numbers_less(a, b, from) && numbers_less(b, c, from) ==> numbers_less(a, c, from),
        !numbers_less(a, b, from) && !numbers_less(b, a, from) ==> a.skip(from as int) == b.skip(
            from as int,
        ),
        numbers_less(a, b, from) ==> a.skip(from as int) != b.skip(from as int),
    decreases a.len() - from,
{
    if from < a.len() {
        lemma_numbers_order(a, b, c, from + 1);
        assert(a.skip(from as int)[0] == a[from as int]);
        assert(b.skip(from as int)[0] == b[from as int]);
        assert(a.skip(from as int).skip(1) =~= a.skip((from + 1) as int));
        assert(b.skip(from as int).skip(1) =~= b.skip((from + 1) as int));
        if a[from as int] == b[from as int] && a.skip((from + 1) as int) == b.skip((from + 1) as int) {
            assert(a.skip(from as int) =~= seq![a[from as int]] + a.skip((from + 1) as int));
            assert(b.skip(from as int) =~= seq![b[from as int]] + b.skip((from + 1) as int));
        }
    } else {
        assert(a.skip(from as int) =~= b.skip(from as int));
    }
}

proof fn lemma_names_order(a: Seq<Seq<u8>>, b: Seq<Seq<u8>>, c: Seq<Seq<u8>>, from: nat)
    requires
        a.len() == b.len() == c.len(),
        from <= a.len(),
    ensures
        !names_less(a, a, from),
        names_less(a, b, from) && names_less(b, c, from) ==> names_less(a, c, from),
        !names_less(a, b, from) && !names_less(b, a, from) ==> a.skip(from as int) == b.skip(
            from as int,
        ),
    decreases a.len() - from,
{
    if from < a.len() {
        lemma_names_order(a, b, c, from + 1);
        let x = a[from as int];
        let y = b[from as int];
        let z = c[from as int];
        lemma_row_irreflexive(x);
        lemma_row_irreflexive(y);
        if x != y {
            lemma_row_total(x, y);
        }
        if row_less(x, y) && row_less(y, z) {
            lemma_row_transitive(x, y, z);
        }
        if x == z && row_less(x, y) && row_less(y, x) {
            lemma_row_transitive(x, y, x);
        }
        if x == y && a.skip((from + 1) as int) == b.skip((from + 1) as int) {
            assert(a.skip(from as int) =~= seq![x] + a.skip((from + 1) as int));
            assert(b.skip(from as int) =~= seq![y] + b.skip((from + 1) as int));
        }
    } else {
        assert(a.skip(from as int) =~= b.skip(from as int));
    }
}

/// Keys of one shape are ordered strictly and completely: none comes before
/// itself, the order carries over, and of two different keys one comes first.
pub proof fn keys_are_ordered(a: Key, b: Key, c: Key)
    requires
        a.numbers.len() == b.numbers.len() == c.numbers.len(),
        a.names.len() == b.names.len() == c.names.len(),
    ensures
        !key_less(a, a),
        key_less(a, b) && key_less(b, c) ==> key_less(a, c),
        !key_less(a, b) && !key_less(b, a) ==> a == b,
{
    lemma_numbers_order(a.numbers, b.numbers, c.numbers, 0);
    lemma_numbers_order(b.numbers, c.numbers, a.numbers, 0);
    lemma_names_order(a.names, b.names, c.names, 0);
    assert(a.numbers.skip(0) =~= a.numbers);
    assert(b.numbers.skip(0) =~= b.numbers);
    assert(c.numbers.skip(0) =~= c.numbers);
    assert(a.names.skip(0) =~= a.names);
    assert(b.names.skip(0) =~= b.names);
}

/// What a candidate is ordered by at a price: how far it misses its budget, its
/// priced depth and size, its size, its name.
pub open spec fn key_of(candidate: CandidateSummary, price: nat) -> Key {
    Key {
        numbers: seq![
            candidate.violation as nat,
            (candidate.depth * price + candidate.physical) as nat,
            candidate.physical as nat,
        ],
        names: seq![candidate.stable@],
    }
}

/// The key of a candidate, of which the last part is its name.
pub fn candidate_key<'a>(candidate: &'a CandidateSummary, price: u64) -> (key: (
    u64,
    u128,
    u64,
    &'a Vec<u8>,
))
    ensures
        key_of(*candidate, price as nat) == (Key {
            numbers: seq![key.0 as nat, key.1 as nat, key.2 as nat],
            names: seq![key.3@],
        }),
        key.0 == candidate.violation,
        key.2 == candidate.physical,
        *key.3 == candidate.stable,
{
    let depth: u128 = candidate.depth as u128;
    let unit: u128 = price as u128;
    assert(depth * unit <= 0xffff_ffff_ffff_ffff * 0xffff_ffff_ffff_ffff) by (nonlinear_arith)
        requires
            depth <= 0xffff_ffff_ffff_ffff,
            unit <= 0xffff_ffff_ffff_ffff,
    ;
    let cost: u128 = depth * unit + candidate.physical as u128;
    (candidate.violation, cost, candidate.physical, &candidate.stable)
}

fn candidate_less(left: &CandidateSummary, right: &CandidateSummary, price: u64) -> (less: bool)
    ensures
        less == key_less(key_of(*left, price as nat), key_of(*right, price as nat)),
{
    let first = candidate_key(left, price);
    let second = candidate_key(right, price);
    let order = row_order(first.3, second.3);
    proof {
        reveal_with_fuel(numbers_less, 4);
        reveal_with_fuel(names_less, 2);
        let a = key_of(*left, price as nat);
        let b = key_of(*right, price as nat);
        if first.0 == second.0 && first.1 == second.1 && first.2 == second.2 {
            assert(a.numbers =~= b.numbers);
            if first.3@ == second.3@ {
                assert(a.names =~= b.names);
                lemma_row_irreflexive(first.3@);
            }
        } else {
            assert(a.numbers[0] == first.0 && a.numbers[1] == first.1 && a.numbers[2] == first.2);
            assert(b.numbers[0] == second.0 && b.numbers[1] == second.1 && b.numbers[2]
                == second.2);
        }
    }
    if first.0 != second.0 {
        first.0 < second.0
    } else if first.1 != second.1 {
        first.1 < second.1
    } else if first.2 != second.2 {
        first.2 < second.2
    } else {
        order.1
    }
}

/// The first of the candidates with the least key.
pub open spec fn is_best(candidates: Seq<CandidateSummary>, price: nat, best: int) -> bool {
    &&& 0 <= best < candidates.len()
    &&& forall|k: int|
        0 <= k < candidates.len() ==> !key_less(
            key_of(#[trigger] candidates[k], price),
            key_of(candidates[best], price),
        )
    &&& forall|k: int|
        0 <= k < best ==> key_less(
            key_of(candidates[best], price),
            key_of(#[trigger] candidates[k], price),
        )
}

proof fn lemma_best_step(candidates: Seq<CandidateSummary>, price: nat, best: int, count: int)
    requires
        0 <= count < candidates.len(),
        is_best(candidates.take(count), price, best),
    ensures
        key_less(key_of(candidates[count], price), key_of(candidates[best], price)) ==> is_best(
            candidates.take(count + 1),
            price,
            count,
        ),
        !key_less(key_of(candidates[count], price), key_of(candidates[best], price)) ==> is_best(
            candidates.take(count + 1),
            price,
            best,
        ),
{
    let before = candidates.take(count);
    let after = candidates.take(count + 1);
    assert forall|k: int| 0 <= k < count implies after[k] == before[k] by {}
    assert(after[count] == candidates[count]);
    let new = key_of(candidates[count], price);
    let old_best = key_of(candidates[best], price);
    keys_are_ordered(new, old_best, new);
    if key_less(new, old_best) {
        assert forall|k: int| 0 <= k < after.len() implies !key_less(
            key_of(#[trigger] after[k], price),
            new,
        ) && (k < count ==> key_less(new, key_of(after[k], price))) by {
            keys_are_ordered(new, old_best, key_of(after[k], price));
            keys_are_ordered(key_of(after[k], price), new, old_best);
            if k < count {
                assert(!key_less(key_of(before[k], price), old_best));
                keys_are_ordered(old_best, key_of(before[k], price), new);
            }
        }
    } else {
        assert forall|k: int| 0 <= k < after.len() implies !key_less(
            key_of(#[trigger] after[k], price),
            old_best,
        ) by {
            if k < count {
                assert(!key_less(key_of(before[k], price), old_best));
            }
        }
        assert forall|k: int| 0 <= k < best implies key_less(
            old_best,
            key_of(#[trigger] after[k], price),
        ) by {
            assert(key_less(old_best, key_of(before[k], price)));
        }
    }
}

/// The place of the first candidate with the least key.
pub fn best_candidate(candidates: &Vec<CandidateSummary>, price: u64) -> (best: Option<usize>)
    ensures
        match best {
            Some(found) => is_best(candidates@, price as nat, found as int),
            None => candidates@.len() == 0,
        },
{
    if candidates.len() == 0 {
        return None;
    }
    let mut best: usize = 0;
    let mut i: usize = 1;
    proof {
        let key = key_of(candidates@[0], price as nat);
        keys_are_ordered(key, key, key);
    }
    while i < candidates.len()
        invariant
            best < i <= candidates@.len(),
            is_best(candidates@.take(i as int), price as nat, best as int),
        decreases candidates.len() - i,
    {
        proof {
            lemma_best_step(candidates@, price as nat, best as int, i as int);
        }
        if candidate_less(&candidates[i], &candidates[best], price) {
            best = i;
        }
        i += 1;
    }
    assert(candidates@.take(i as int) =~= candidates@);
    Some(best)
}

/// Two places that both hold the best candidate are one.
pub proof fn best_is_unique(candidates: Seq<CandidateSummary>, price: nat, left: int, right: int)
    requires
        is_best(candidates, price, left),
        is_best(candidates, price, right),
    ensures
        left == right,
{
    if left < right {
        assert(key_less(key_of(candidates[right], price), key_of(candidates[left], price)));
    } else if right < left {
        assert(key_less(key_of(candidates[left], price), key_of(candidates[right], price)));
    }
}

pub open spec fn capped(value: nat, limit: nat) -> nat {
    if value > limit {
        limit
    } else {
        value
    }
}

/// What a pair of candidates is ordered by: the greater miss, the sum of the
/// misses, the priced depths and sizes, the sum of the sizes, both names. The
/// sums stop at the largest number of their type.
pub open spec fn pair_key(
    left: CandidateSummary,
    right: CandidateSummary,
    left_price: nat,
    right_price: nat,
) -> Key {
    Key {
        numbers: seq![
            if left.violation >= right.violation {
                left.violation as nat
            } else {
                right.violation as nat
            },
            capped((left.violation + right.violation) as nat, u64::MAX as nat),
            capped(
                (left.depth * left_price + right.depth * right_price + left.physical
                    + right.physical) as nat,
                u128::MAX as nat,
            ),
            capped((left.physical + right.physical) as nat, u64::MAX as nat),
        ],
        names: seq![left.stable@, right.stable@],
    }
}

/// The numbers of the key of a pair.
fn pair_numbers(
    left: &CandidateSummary,
    right: &CandidateSummary,
    left_price: u64,
    right_price: u64,
) -> (numbers: (u64, u64, u128, u64))
    ensures
        pair_key(*left, *right, left_price as nat, right_price as nat).numbers == seq![
            numbers.0 as nat,
            numbers.1 as nat,
            numbers.2 as nat,
            numbers.3 as nat,
        ],
{
    let worst: u64 = if left.violation >= right.violation {
        left.violation
    } else {
        right.violation
    };
    let first = candidate_key(left, left_price);
    let second = candidate_key(right, right_price);
    let cost: u128 = first.1.saturating_add(second.1);
    let numbers = (
        worst,
        left.violation.saturating_add(right.violation),
        cost,
        left.physical.saturating_add(right.physical),
    );
    proof {
        let a = key_of(*left, left_price as nat).numbers;
        let b = key_of(*right, right_price as nat).numbers;
        assert(a[1] == first.1);
        assert(b[1] == second.1);
        assert(pair_key(*left, *right, left_price as nat, right_price as nat).numbers =~= seq![
            numbers.0 as nat,
            numbers.1 as nat,
            numbers.2 as nat,
            numbers.3 as nat,
        ]);
    }
    numbers
}

/// Whether the key of one pair comes before that of another, at the same prices.
fn pair_less(
    first: (&CandidateSummary, &CandidateSummary),
    second: (&CandidateSummary, &CandidateSummary),
    left_price: u64,
    right_price: u64,
) -> (less: bool)
    ensures
        less == key_less(
            pair_key(*first.0, *first.1, left_price as nat, right_price as nat),
            pair_key(*second.0, *second.1, left_price as nat, right_price as nat),
        ),
{
    let a = pair_numbers(first.0, first.1, left_price, right_price);
    let b = pair_numbers(second.0, second.1, left_price, right_price);
    let left_names = row_order(&first.0.stable, &second.0.stable);
    let right_names = row_order(&first.1.stable, &second.1.stable);
    proof {
        reveal_with_fuel(numbers_less, 5);
        reveal_with_fuel(names_less, 3);
        let x = pair_key(*first.0, *first.1, left_price as nat, right_price as nat);
        let y = pair_key(*second.0, *second.1, left_price as nat, right_price as nat);
        assert(x.numbers[0] == a.0 && x.numbers[1] == a.1 && x.numbers[2] == a.2 && x.numbers[3]
            == a.3);
        assert(y.numbers[0] == b.0 && y.numbers[1] == b.1 && y.numbers[2] == b.2 && y.numbers[3]
            == b.3);
        if a == b {
            assert(x.numbers =~= y.numbers);
        }
        lemma_row_irreflexive(first.1.stable@);
    }
    if a.0 != b.0 {
        a.0 < b.0
    } else if a.1 != b.1 {
        a.1 < b.1
    } else if a.2 != b.2 {
        a.2 < b.2
    } else if a.3 != b.3 {
        a.3 < b.3
    } else if !left_names.0 {
        left_names.1
    } else {
        right_names.1
    }
}

/// The depth of the chosen candidate of a group.
pub open spec fn chosen_depth(
    groups: Seq<Vec<CandidateSummary>>,
    selected: Seq<usize>,
    group: int,
) -> u64 {
    groups[group]@[selected[group] as int].depth
}

/// The last of the deepest groups of a region.
pub open spec fn is_critical(
    groups: Seq<Vec<CandidateSummary>>,
    selected: Seq<usize>,
    group: int,
) -> bool {
    &&& 0 <= group < groups.len()
    &&& forall|k: int|
        0 <= k < groups.len() ==> #[trigger] chosen_depth(groups, selected, k) <= chosen_depth(
            groups,
            selected,
            group,
        )
    &&& forall|k: int|
        group < k < groups.len() ==> #[trigger] chosen_depth(groups, selected, k) < chosen_depth(
            groups,
            selected,
            group,
        )
}

/// Every group has a chosen candidate.
pub open spec fn chosen(groups: Seq<Vec<CandidateSummary>>, selected: Seq<usize>) -> bool {
    &&& selected.len() == groups.len()
    &&& forall|g: int|
        0 <= g < groups.len() ==> (#[trigger] selected[g]) < groups[g]@.len()
}

fn critical_group(groups: &Vec<Vec<CandidateSummary>>, selected: &Vec<usize>) -> (group: Option<
    usize,
>)
    requires
        chosen(groups@, selected@),
    ensures
        match group {
            Some(found) => is_critical(groups@, selected@, found as int),
            None => groups@.len() == 0,
        },
{
    if groups.len() == 0 {
        return None;
    }
    let mut best: usize = 0;
    let mut g: usize = 1;
    while g < groups.len()
        invariant
            chosen(groups@, selected@),
            best < g <= groups@.len(),
            forall|k: int|
                0 <= k < g ==> #[trigger] chosen_depth(groups@, selected@, k) <= chosen_depth(
                    groups@,
                    selected@,
                    best as int,
                ),
            forall|k: int|
                best < k < g ==> #[trigger] chosen_depth(groups@, selected@, k) < chosen_depth(
                    groups@,
                    selected@,
                    best as int,
                ),
        decreases groups.len() - g,
    {
        assert(selected@[g as int] < groups@[g as int]@.len());
        assert(selected@[best as int] < groups@[best as int]@.len());
        let depth: u64 = groups[g][selected[g]].depth;
        let deepest: u64 = groups[best][selected[best]].depth;
        assert(chosen_depth(groups@, selected@, g as int) == depth);
        assert(chosen_depth(groups@, selected@, best as int) == deepest);
        if depth >= deepest {
            best = g;
        }
        g += 1;
    }
    Some(best)
}

/// Two candidate rows and the prices of their regions.
pub ghost struct PairChoice {
    pub left: Seq<CandidateSummary>,
    pub right: Seq<CandidateSummary>,
    pub left_price: nat,
    pub right_price: nat,
}

impl PairChoice {
    pub open spec fn key(self, l: int, r: int) -> Key {
        pair_key(self.left[l], self.right[r], self.left_price, self.right_price)
    }

    pub open spec fn has(self, l: int, r: int) -> bool {
        0 <= l < self.left.len() && 0 <= r < self.right.len()
    }
}

/// A pair comes before another in the order of the rows.
pub open spec fn pair_before(l: int, r: int, m: int, s: int) -> bool {
    l < m || (l == m && r < s)
}

/// The first of the pairs before a place with the least key.
pub open spec fn is_best_pair_before(
    choice: PairChoice,
    end: (int, int),
    best: (int, int),
) -> bool {
    &&& choice.has(best.0, best.1)
    &&& pair_before(best.0, best.1, end.0, end.1)
    &&& forall|l: int, r: int|
        choice.has(l, r) && pair_before(l, r, end.0, end.1) ==> !key_less(
            #[trigger] choice.key(l, r),
            choice.key(best.0, best.1),
        )
    &&& forall|l: int, r: int|
        choice.has(l, r) && pair_before(l, r, best.0, best.1) ==> key_less(
            choice.key(best.0, best.1),
            #[trigger] choice.key(l, r),
        )
}

/// The first of all pairs with the least key.
pub open spec fn is_best_pair(choice: PairChoice, best: (int, int)) -> bool {
    is_best_pair_before(choice, (choice.left.len() as int, 0), best)
}

/// No sum over a pair reaches the end of its range.
pub open spec fn sums_fit(choice: PairChoice) -> bool {
    forall|l: int, r: int| choice.has(l, r) ==> #[trigger] pair_fits(choice, l, r)
}

pub open spec fn pair_fits(choice: PairChoice, l: int, r: int) -> bool {
    let left = choice.left[l];
    let right = choice.right[r];
    &&& left.violation + right.violation <= u64::MAX
    &&& key_of(left, choice.left_price).numbers[1] + key_of(right, choice.right_price).numbers[1]
        <= u128::MAX
    &&& left.physical + right.physical <= u64::MAX
}

/// A pair of candidates that are not worse than those of another pair is not worse,
/// and is better where one of them is.
proof fn lemma_pair_of_best(choice: PairChoice, best: (int, int), other: (int, int))
    requires
        choice.has(best.0, best.1),
        choice.has(other.0, other.1),
        pair_fits(choice, best.0, best.1),
        pair_fits(choice, other.0, other.1),
        !key_less(
            key_of(choice.left[other.0], choice.left_price),
            key_of(choice.left[best.0], choice.left_price),
        ),
        !key_less(
            key_of(choice.right[other.1], choice.right_price),
            key_of(choice.right[best.1], choice.right_price),
        ),
    ensures
        !key_less(choice.key(other.0, other.1), choice.key(best.0, best.1)),
        key_less(
            key_of(choice.left[best.0], choice.left_price),
            key_of(choice.left[other.0], choice.left_price),
        ) || key_less(
            key_of(choice.right[best.1], choice.right_price),
            key_of(choice.right[other.1], choice.right_price),
        ) ==> key_less(choice.key(best.0, best.1), choice.key(other.0, other.1)),
{
    reveal_with_fuel(numbers_less, 5);
    reveal_with_fuel(names_less, 3);
    let a = key_of(choice.left[best.0], choice.left_price);
    let b = key_of(choice.right[best.1], choice.right_price);
    let c = key_of(choice.left[other.0], choice.left_price);
    let d = key_of(choice.right[other.1], choice.right_price);
    let x = choice.key(best.0, best.1);
    let y = choice.key(other.0, other.1);
    keys_are_ordered(a, c, a);
    keys_are_ordered(b, d, b);
    keys_are_ordered(x, y, x);
    lemma_row_irreflexive(choice.left[best.0].stable@);
    lemma_row_irreflexive(choice.right[best.1].stable@);
    if a.numbers != c.numbers {
        assert(!(a.numbers =~= c.numbers));
    }
    if b.numbers != d.numbers {
        assert(!(b.numbers =~= d.numbers));
    }
    if a.numbers == c.numbers && b.numbers == d.numbers {
        assert(x.numbers =~= y.numbers);
    }
}

/// The best candidates of two regions on their own make the best pair, where no sum
/// over a pair reaches the end of its range.
pub proof fn separate_optima_are_joint(choice: PairChoice, left: int, right: int)
    requires
        is_best(choice.left, choice.left_price, left),
        is_best(choice.right, choice.right_price, right),
        sums_fit(choice),
    ensures
        is_best_pair(choice, (left, right)),
{
    assert(pair_fits(choice, left, right));
    assert forall|l: int, r: int|
        choice.has(l, r) && pair_before(l, r, choice.left.len() as int, 0) implies !key_less(
        #[trigger] choice.key(l, r),
        choice.key(left, right),
    ) by {
        assert(pair_fits(choice, l, r));
        lemma_pair_of_best(choice, (left, right), (l, r));
    }
    assert forall|l: int, r: int|
        choice.has(l, r) && pair_before(l, r, left, right) implies key_less(
        choice.key(left, right),
        #[trigger] choice.key(l, r),
    ) by {
        assert(pair_fits(choice, l, r));
        lemma_pair_of_best(choice, (left, right), (l, r));
    }
}

proof fn lemma_pair_step(choice: PairChoice, end: (int, int), best: (int, int))
    requires
        choice.has(end.0, end.1),
        is_best_pair_before(choice, end, best),
    ensures
        key_less(choice.key(end.0, end.1), choice.key(best.0, best.1)) ==> is_best_pair_before(
            choice,
            (end.0, end.1 + 1),
            end,
        ),
        !key_less(choice.key(end.0, end.1), choice.key(best.0, best.1)) ==> is_best_pair_before(
            choice,
            (end.0, end.1 + 1),
            best,
        ),
{
    let new = choice.key(end.0, end.1);
    let old_best = choice.key(best.0, best.1);
    keys_are_ordered(new, old_best, new);
    if key_less(new, old_best) {
        assert forall|l: int, r: int|
            choice.has(l, r) && pair_before(l, r, end.0, end.1 + 1) implies !key_less(
            #[trigger] choice.key(l, r),
            new,
        ) by {
            keys_are_ordered(choice.key(l, r), new, old_best);
        }
        assert forall|l: int, r: int|
            choice.has(l, r) && pair_before(l, r, end.0, end.1) implies key_less(
            new,
            #[trigger] choice.key(l, r),
        ) by {
            let other = choice.key(l, r);
            assert(!key_less(other, old_best));
            keys_are_ordered(new, old_best, other);
            keys_are_ordered(old_best, other, new);
        }
    } else {
        assert forall|l: int, r: int|
            choice.has(l, r) && pair_before(l, r, end.0, end.1 + 1) implies !key_less(
            #[trigger] choice.key(l, r),
            old_best,
        ) by {
            if l == end.0 && r == end.1 {
            } else {
                assert(pair_before(l, r, end.0, end.1));
            }
        }
    }
}

/// The best pair of candidates from two rows.
fn best_pair(
    left: &Vec<CandidateSummary>,
    right: &Vec<CandidateSummary>,
    left_price: u64,
    right_price: u64,
) -> (best: Option<(usize, usize)>)
    ensures
        match best {
            Some(found) => is_best_pair(
                (PairChoice {
                    left: left@,
                    right: right@,
                    left_price: left_price as nat,
                    right_price: right_price as nat,
                }),
                (found.0 as int, found.1 as int),
            ),
            None => left@.len() == 0 || right@.len() == 0,
        },
{
    if left.len() == 0 || right.len() == 0 {
        return None;
    }
    let ghost choice = PairChoice {
        left: left@,
        right: right@,
        left_price: left_price as nat,
        right_price: right_price as nat,
    };
    let mut best: (usize, usize) = (0, 0);
    let mut l: usize = 0;
    while l < left.len()
        invariant
            choice == (PairChoice {
                left: left@,
                right: right@,
                left_price: left_price as nat,
                right_price: right_price as nat,
            }),
            l <= left@.len(),
            left@.len() > 0,
            right@.len() > 0,
            best.0 < left@.len(),
            best.1 < right@.len(),
            l == 0 ==> best == (0usize, 0usize),
            l > 0 ==> is_best_pair_before(
                choice,
                (l as int, 0),
                (best.0 as int, best.1 as int),
            ),
        decreases left.len() - l,
    {
        let mut r: usize = 0;
        while r < right.len()
            invariant
                choice == (PairChoice {
                    left: left@,
                    right: right@,
                    left_price: left_price as nat,
                    right_price: right_price as nat,
                }),
                l < left@.len(),
                r <= right@.len(),
                best.0 < left@.len(),
                best.1 < right@.len(),
                l == 0 && r == 0 ==> best == (0usize, 0usize),
                l > 0 || r > 0 ==> is_best_pair_before(
                    choice,
                    (l as int, r as int),
                    (best.0 as int, best.1 as int),
                ),
            decreases right.len() - r,
        {
            let ghost end = (l as int, r as int);
            let ghost place = (best.0 as int, best.1 as int);
            let less = pair_less(
                (&left[l], &right[r]),
                (&left[best.0], &right[best.1]),
                left_price,
                right_price,
            );
            proof {
                let key = choice.key(end.0, end.1);
                keys_are_ordered(key, key, key);
                if l > 0 || r > 0 {
                    lemma_pair_step(choice, end, place);
                } else {
                    assert forall|x: int, y: int|
                        choice.has(x, y) && pair_before(x, y, 0, 1) implies !key_less(
                        #[trigger] choice.key(x, y),
                        key,
                    ) by {
                        assert(x == 0 && y == 0);
                    }
                    assert(is_best_pair_before(choice, (0, 1), (0, 0)));
                }
            }
            if less {
                best = (l, r);
            }
            r += 1;
        }
        proof {
            let place = (best.0 as int, best.1 as int);
            assert forall|x: int, y: int|
                choice.has(x, y) && pair_before(x, y, l + 1, 0) implies !key_less(
                #[trigger] choice.key(x, y),
                choice.key(place.0, place.1),
            ) by {
                assert(pair_before(x, y, l as int, r as int));
            }
            assert(is_best_pair_before(choice, (l + 1, 0), place));
        }
        l += 1;
    }
    Some(best)
}

/// Every region has a chosen candidate in every group, and a price.
pub open spec fn design_chosen(
    summaries: Seq<RegionSummary>,
    selected: Seq<Vec<usize>>,
) -> bool {
    &&& selected.len() == summaries.len()
    &&& forall|row: int|
        0 <= row < summaries.len() ==> chosen(
            summaries[row].groups@,
            (#[trigger] selected[row])@,
        )
}

/// A joint choice takes the deepest group of both regions, and the first of the
/// best pairs of their candidates.
pub open spec fn is_joint(
    summaries: Seq<RegionSummary>,
    selected: Seq<Vec<usize>>,
    prices: Seq<u64>,
    left: int,
    right: int,
    joint: FusionSelection,
) -> bool {
    &&& joint.left.0 == left
    &&& joint.right.0 == right
    &&& is_critical(summaries[left].groups@, selected[left]@, joint.left.1 as int)
    &&& is_critical(summaries[right].groups@, selected[right]@, joint.right.1 as int)
    &&& is_best_pair(
        PairChoice {
            left: summaries[left].groups@[joint.left.1 as int]@,
            right: summaries[right].groups@[joint.right.1 as int]@,
            left_price: prices[left] as nat,
            right_price: prices[right] as nat,
        },
        (joint.left.2 as int, joint.right.2 as int),
    )
}

/// The joint choice of two regions, which exists where both have a group.
pub fn joint_selection(
    summaries: &Vec<RegionSummary>,
    selected: &Vec<Vec<usize>>,
    prices: &Vec<u64>,
    left: usize,
    right: usize,
) -> (joint: Option<FusionSelection>)
    requires
        design_chosen(summaries@, selected@),
        prices@.len() == summaries@.len(),
        left < summaries@.len(),
        right < summaries@.len(),
    ensures
        match joint {
            Some(found) => is_joint(
                summaries@,
                selected@,
                prices@,
                left as int,
                right as int,
                found,
            ),
            None => summaries@[left as int].groups@.len() == 0 || summaries@[right as int].groups@.len()
                == 0,
        },
{
    assert(chosen(summaries@[left as int].groups@, selected@[left as int]@));
    assert(chosen(summaries@[right as int].groups@, selected@[right as int]@));
    let left_group: usize = match critical_group(&summaries[left].groups, &selected[left]) {
        Some(group) => group,
        None => return None,
    };
    let right_group: usize = match critical_group(&summaries[right].groups, &selected[right]) {
        Some(group) => group,
        None => return None,
    };
    assert(selected@[left as int]@[left_group as int]
        < summaries@[left as int].groups@[left_group as int]@.len());
    assert(selected@[right as int]@[right_group as int]
        < summaries@[right as int].groups@[right_group as int]@.len());
    match best_pair(
        &summaries[left].groups[left_group],
        &summaries[right].groups[right_group],
        prices[left],
        prices[right],
    ) {
        Some(pair) => Some(
            FusionSelection {
                left: (left, left_group, pair.0),
                right: (right, right_group, pair.1),
            },
        ),
        None => None,
    }
}

/// The best candidates of the groups of a region at a price.
pub open spec fn best_choices(
    groups: Seq<Vec<CandidateSummary>>,
    price: nat,
    selected: Seq<usize>,
) -> bool {
    &&& selected.len() == groups.len()
    &&& forall|g: int|
        0 <= g < groups.len() ==> is_best(groups[g]@, price, (#[trigger] selected[g]) as int)
}

/// A group of a region has no candidate.
pub open spec fn lacks_candidate(groups: Seq<Vec<CandidateSummary>>) -> bool {
    exists|g: int| 0 <= g < groups.len() && (#[trigger] groups[g])@.len() == 0
}

pub open spec fn design_lacks_candidate(summaries: Seq<RegionSummary>) -> bool {
    exists|row: int|
        0 <= row < summaries.len() && lacks_candidate((#[trigger] summaries[row]).groups@)
}

fn choose_region(groups: &Vec<Vec<CandidateSummary>>, price: u64) -> (selected: Option<Vec<usize>>)
    ensures
        match selected {
            Some(found) => best_choices(groups@, price as nat, found@) && !lacks_candidate(groups@),
            None => lacks_candidate(groups@),
        },
{
    let mut selected: Vec<usize> = Vec::new();
    let mut g: usize = 0;
    while g < groups.len()
        invariant
            g <= groups@.len(),
            selected@.len() == g,
            forall|k: int|
                0 <= k < g ==> is_best(
                    groups@[k]@,
                    price as nat,
                    (#[trigger] selected@[k]) as int,
                ),
        decreases groups.len() - g,
    {
        match best_candidate(&groups[g], price) {
            Some(best) => selected.push(best),
            None => {
                assert(groups@[g as int]@.len() == 0);
                return None;
            },
        }
        g += 1;
    }
    proof {
        if lacks_candidate(groups@) {
            let k = choose|k: int| 0 <= k < groups@.len() && (#[trigger] groups@[k])@.len() == 0;
            assert(is_best(groups@[k]@, price as nat, selected@[k] as int));
        }
    }
    Some(selected)
}

/// Every region has the best candidates at its price.
pub open spec fn priced(
    summaries: Seq<RegionSummary>,
    prices: Seq<u64>,
    selected: Seq<Vec<usize>>,
) -> bool {
    &&& selected.len() == summaries.len()
    &&& forall|row: int|
        0 <= row < summaries.len() ==> best_choices(
            summaries[row].groups@,
            prices[row] as nat,
            (#[trigger] selected[row])@,
        )
}

/// Choosing by price chooses a candidate in every group.
pub proof fn priced_is_chosen(
    summaries: Seq<RegionSummary>,
    prices: Seq<u64>,
    selected: Seq<Vec<usize>>,
)
    requires
        priced(summaries, prices, selected),
    ensures
        design_chosen(summaries, selected),
{
    assert forall|row: int| 0 <= row < summaries.len() implies chosen(
        summaries[row].groups@,
        (#[trigger] selected[row])@,
    ) by {
        let groups = summaries[row].groups@;
        let picks = selected[row]@;
        assert(best_choices(groups, prices[row] as nat, picks));
        assert forall|g: int| 0 <= g < groups.len() implies (#[trigger] picks[g])
            < groups[g]@.len() by {
            assert(is_best(groups[g]@, prices[row] as nat, picks[g] as int));
        }
    }
}

fn choose_design(summaries: &Vec<RegionSummary>, prices: &Vec<u64>) -> (result: Result<
    Vec<Vec<usize>>,
    SynthError,
>)
    requires
        prices@.len() == summaries@.len(),
    ensures
        match result {
            Ok(selected) => priced(summaries@, prices@, selected@) && !design_lacks_candidate(
                summaries@,
            ),
            Err(error) => error == SynthError::Invariant(Invariant::NoCandidate)
                && design_lacks_candidate(summaries@),
        },
{
    let mut selected: Vec<Vec<usize>> = Vec::new();
    let mut row: usize = 0;
    while row < summaries.len()
        invariant
            prices@.len() == summaries@.len(),
            row <= summaries@.len(),
            selected@.len() == row,
            forall|k: int|
                0 <= k < row ==> best_choices(
                    summaries@[k].groups@,
                    prices@[k] as nat,
                    (#[trigger] selected@[k])@,
                ),
            forall|k: int|
                0 <= k < row ==> !lacks_candidate((#[trigger] summaries@[k]).groups@),
        decreases summaries.len() - row,
    {
        match choose_region(&summaries[row].groups, prices[row]) {
            Some(picks) => selected.push(picks),
            None => {
                assert(lacks_candidate(summaries@[row as int].groups@));
                return Err(SynthError::Invariant(Invariant::NoCandidate));
            },
        }
        row += 1;
    }
    Ok(selected)
}

/// The greatest miss among the chosen candidates of the first groups.
pub open spec fn worst_violation(
    groups: Seq<Vec<CandidateSummary>>,
    selected: Seq<usize>,
    count: nat,
) -> u64
    decreases count,
{
    if count == 0 {
        0
    } else {
        let before = worst_violation(groups, selected, (count - 1) as nat);
        let here = groups[count - 1]@[selected[count - 1] as int].violation;
        if here >= before {
            here
        } else {
            before
        }
    }
}

fn region_violation(groups: &Vec<Vec<CandidateSummary>>, selected: &Vec<usize>) -> (worst: u64)
    requires
        chosen(groups@, selected@),
    ensures
        worst == worst_violation(groups@, selected@, groups@.len()),
{
    let mut worst: u64 = 0;
    let mut g: usize = 0;
    while g < groups.len()
        invariant
            chosen(groups@, selected@),
            g <= groups@.len(),
            worst == worst_violation(groups@, selected@, g as nat),
        decreases groups.len() - g,
    {
        assert(selected@[g as int] < groups@[g as int]@.len());
        let here: u64 = groups[g][selected[g]].violation;
        if here >= worst {
            worst = here;
        }
        g += 1;
    }
    worst
}

/// A design whose candidates are being chosen. What regions lie next to each
/// other, and how prices travel between them, is known outside.
#[derive(Debug)]
pub struct DesignSelection {
    pub summaries: Vec<RegionSummary>,
    pub selected: Vec<Vec<usize>>,
    pub prices: Vec<u64>,
}

/// Joint choices taken over in order, each first for its left region.
pub open spec fn fused(
    table: Seq<Seq<usize>>,
    joints: Seq<Option<FusionSelection>>,
) -> Seq<Seq<usize>>
    decreases joints.len(),
{
    if joints.len() == 0 {
        table
    } else {
        let before = fused(table, joints.drop_last());
        match joints.last() {
            Some(joint) => with_choice(with_choice(before, joint.left), joint.right),
            None => before,
        }
    }
}

impl DesignSelection {
    pub open spec fn wf(&self) -> bool {
        &&& design_chosen(self.summaries@, self.selected@)
        &&& self.prices@.len() == self.summaries@.len()
    }

    /// Starts with the best candidates where depth has the price one.
    pub fn start(summaries: Vec<RegionSummary>, regions: usize) -> (result: Result<
        Self,
        SynthError,
    >)
        ensures
            match result {
                Ok(design) => {
                    &&& design.wf()
                    &&& design.summaries == summaries
                    &&& design.prices@ == Seq::new(regions as nat, |row: int| 1u64)
                    &&& priced(summaries@, design.prices@, design.selected@)
                    &&& covers(summaries@, regions as nat)
                },
                Err(error) => if !covers(summaries@, regions as nat) {
                    error == SynthError::Invariant(Invariant::MisalignedRegions)
                } else {
                    error == SynthError::Invariant(Invariant::NoCandidate)
                        && design_lacks_candidate(summaries@)
                },
            },
    {
        if !do_summaries_cover(&summaries, regions) {
            return Err(SynthError::Invariant(Invariant::MisalignedRegions));
        }
        let mut prices: Vec<u64> = Vec::new();
        prices.resize(regions, 1);
        assert(prices@ =~= Seq::new(regions as nat, |row: int| 1u64));
        match choose_design(&summaries, &prices) {
            Ok(selected) => {
                proof {
                    priced_is_chosen(summaries@, prices@, selected@);
                }
                Ok(DesignSelection { summaries, selected, prices })
            },
            Err(error) => Err(error),
        }
    }

    /// What each region misses now, plus one: the price that it asks for.
    pub fn local_violations(&self) -> (local: Vec<u64>)
        requires
            self.wf(),
        ensures
            local@ == Seq::new(
                self.summaries@.len(),
                |row: int|
                    asked_price(self.summaries@[row].groups@, self.selected@[row]@),
            ),
    {
        let mut local: Vec<u64> = Vec::new();
        let mut row: usize = 0;
        while row < self.summaries.len()
            invariant
                self.wf(),
                row <= self.summaries@.len(),
                local@.len() == row,
                forall|k: int|
                    0 <= k < row ==> #[trigger] local@[k] == asked_price(
                        self.summaries@[k].groups@,
                        self.selected@[k]@,
                    ),
            decreases self.summaries.len() - row,
        {
            assert(chosen(self.summaries@[row as int].groups@, self.selected@[row as int]@));
            let worst: u64 = region_violation(&self.summaries[row].groups, &self.selected[row]);
            local.push(worst.saturating_add(1));
            row += 1;
        }
        local
    }

    /// Chooses again at new prices.
    pub fn reprice(&mut self, prices: Vec<u64>) -> (result: Result<(), SynthError>)
        requires
            old(self).wf(),
        ensures
            final(self).wf(),
            final(self).summaries == old(self).summaries,
            match result {
                Ok(()) => {
                    &&& prices@.len() == old(self).summaries@.len()
                    &&& final(self).prices == prices
                    &&& priced(final(self).summaries@, prices@, final(self).selected@)
                },
                Err(error) => {
                    &&& *final(self) == *old(self)
                    &&& if prices@.len() != old(self).summaries@.len() {
                        error == SynthError::Invariant(Invariant::MisalignedRegions)
                    } else {
                        error == SynthError::Invariant(Invariant::NoCandidate)
                            && design_lacks_candidate(old(self).summaries@)
                    }
                },
            },
    {
        if prices.len() != self.summaries.len() {
            return Err(SynthError::Invariant(Invariant::MisalignedRegions));
        }
        match choose_design(&self.summaries, &prices) {
            Ok(selected) => {
                proof {
                    priced_is_chosen(self.summaries@, prices@, selected@);
                }
                self.selected = selected;
                self.prices = prices;
                Ok(())
            },
            Err(error) => Err(error),
        }
    }

    /// What two regions choose together.
    pub open spec fn joins(&self, left: int, right: int, joint: Option<FusionSelection>) -> bool {
        match joint {
            Some(found) => is_joint(
                self.summaries@,
                self.selected@,
                self.prices@,
                left,
                right,
                found,
            ),
            None => self.summaries@[left].groups@.len() == 0 || self.summaries@[right].groups@.len()
                == 0,
        }
    }

    /// What the pairs of a wave choose together.
    pub open spec fn wave_joins(
        &self,
        wave: Seq<(usize, usize)>,
        joints: Seq<Option<FusionSelection>>,
    ) -> bool {
        &&& joints.len() == wave.len()
        &&& forall|i: int|
            0 <= i < joints.len() ==> self.joins(
                wave[i].0 as int,
                wave[i].1 as int,
                #[trigger] joints[i],
            )
    }

    /// The joint choice of two regions.
    pub fn propose(&self, left: usize, right: usize) -> (joint: Option<FusionSelection>)
        requires
            self.wf(),
            left < self.summaries@.len(),
            right < self.summaries@.len(),
        ensures
            match joint {
                Some(found) => is_joint(
                    self.summaries@,
                    self.selected@,
                    self.prices@,
                    left as int,
                    right as int,
                    found,
                ),
                None => self.summaries@[left as int].groups@.len() == 0
                    || self.summaries@[right as int].groups@.len() == 0,
            },
    {
        joint_selection(&self.summaries, &self.selected, &self.prices, left, right)
    }

    /// Takes a joint choice over: first that of the left region, and then that of
    /// the right one.
    pub fn accept(&mut self, joint: FusionSelection)
        requires
            old(self).wf(),
            valid_place(old(self).summaries@, joint.left),
            valid_place(old(self).summaries@, joint.right),
        ensures
            final(self).wf(),
            final(self).summaries == old(self).summaries,
            final(self).prices == old(self).prices,
            choice_table(final(self).selected@) == with_choice(
                with_choice(choice_table(old(self).selected@), joint.left),
                joint.right,
            ),
    {
        let ghost table = choice_table(self.selected@);
        self.put(joint.left);
        self.put(joint.right);
    }

    /// What regions ask for before a round of prices; nothing after the last one.
    pub fn asks(&self, round: usize) -> (asked: Option<Vec<u64>>)
        requires
            self.wf(),
        ensures
            asked is Some <==> round < GLOBAL_SELECTION_ROUNDS,
            asked matches Some(local) ==> local@ == Seq::new(
                self.summaries@.len(),
                |row: int| asked_price(self.summaries@[row].groups@, self.selected@[row]@),
            ),
    {
        if round < GLOBAL_SELECTION_ROUNDS {
            Some(self.local_violations())
        } else {
            None
        }
    }

    /// Lets the pairs of a wave choose together. All of them choose from what was
    /// selected before the wave; their choices are then taken over in order.
    pub fn fuse_wave(&mut self, wave: &Vec<(usize, usize)>) -> (result: Result<(), SynthError>)
        requires
            old(self).wf(),
        ensures
            final(self).wf(),
            final(self).summaries == old(self).summaries,
            final(self).prices == old(self).prices,
            result is Ok <==> forall|i: int|
                0 <= i < wave@.len() ==> (#[trigger] wave@[i]).0 < old(self).summaries@.len()
                    && wave@[i].1 < old(self).summaries@.len(),
            result matches Err(error) ==> error == SynthError::Invariant(
                Invariant::MisalignedRegions,
            ) && *final(self) == *old(self),
            result is Ok ==> exists|joints: Seq<Option<FusionSelection>>| #[trigger]
                old(self).wave_joins(wave@, joints) && choice_table(final(self).selected@)
                    == fused(choice_table(old(self).selected@), joints),
    {
        let ghost start = *self;
        let mut joints: Vec<Option<FusionSelection>> = Vec::new();
        let mut i: usize = 0;
        while i < wave.len()
            invariant
                start == *old(self),
                *self == start,
                start.wf(),
                i <= wave@.len(),
                joints@.len() == i,
                forall|k: int|
                    0 <= k < i ==> (#[trigger] wave@[k]).0 < start.summaries@.len() && wave@[k].1
                        < start.summaries@.len(),
                forall|k: int|
                    0 <= k < i ==> start.joins(
                        wave@[k].0 as int,
                        wave@[k].1 as int,
                        #[trigger] joints@[k],
                    ),
            decreases wave.len() - i,
        {
            let (left, right) = wave[i];
            if left >= self.summaries.len() || right >= self.summaries.len() {
                assert(wave@[i as int].0 == left && wave@[i as int].1 == right);
                return Err(SynthError::Invariant(Invariant::MisalignedRegions));
            }
            joints.push(self.propose(left, right));
            i += 1;
        }
        assert(start.wave_joins(wave@, joints@));
        let mut j: usize = 0;
        while j < joints.len()
            invariant
                start.wf(),
                self.wf(),
                self.summaries == start.summaries,
                self.prices == start.prices,
                j <= joints@.len(),
                start.wave_joins(wave@, joints@),
                joints@.len() == wave@.len(),
                forall|k: int|
                    0 <= k < wave@.len() ==> (#[trigger] wave@[k]).0 < start.summaries@.len()
                        && wave@[k].1 < start.summaries@.len(),
                choice_table(self.selected@) == fused(
                    choice_table(start.selected@),
                    joints@.take(j as int),
                ),
            decreases joints.len() - j,
        {
            proof {
                assert(joints@.take(j + 1).drop_last() =~= joints@.take(j as int));
                let (left, right) = wave@[j as int];
                assert(start.joins(left as int, right as int, joints@[j as int]));
                if joints@[j as int] is Some {
                    joint_choices_are_valid(start, left as int, right as int, joints@[j as int]->0);
                }
            }
            match joints[j] {
                Some(joint) => self.accept(joint),
                None => {},
            }
            j += 1;
        }
        assert(joints@.take(j as int) =~= joints@);
        Ok(())
    }

    fn put(&mut self, place: (usize, usize, usize))
        requires
            old(self).wf(),
            valid_place(old(self).summaries@, place),
        ensures
            final(self).wf(),
            final(self).summaries == old(self).summaries,
            final(self).prices == old(self).prices,
            choice_table(final(self).selected@) == with_choice(
                choice_table(old(self).selected@),
                place,
            ),
    {
        let ghost before = self.selected@;
        assert(chosen(self.summaries@[place.0 as int].groups@, before[place.0 as int]@));
        self.selected[place.0].set(place.1, place.2);
        proof {
            let after = self.selected@;
            assert forall|row: int| 0 <= row < self.summaries@.len() implies chosen(
                self.summaries@[row].groups@,
                (#[trigger] after[row])@,
            ) by {
                assert(chosen(self.summaries@[row].groups@, before[row]@));
            }
            assert(choice_table(after) =~= with_choice(choice_table(before), place));
        }
    }

    /// The chosen candidate of a group.
    pub fn choice(&self, row: usize, group: usize) -> (candidate: ImplementationCandidateId)
        requires
            self.wf(),
            row < self.summaries@.len(),
            group < self.summaries@[row as int].groups@.len(),
        ensures
            candidate == self.summaries@[row as int].groups@[group as int]@[self.selected@[row as int]@[group as int] as int].candidate,
    {
        assert(chosen(self.summaries@[row as int].groups@, self.selected@[row as int]@));
        assert(self.selected@[row as int]@[group as int]
            < self.summaries@[row as int].groups@[group as int]@.len());
        self.summaries[row].groups[group][self.selected[row][group]].candidate
    }
}

/// The price that a region asks for.
pub open spec fn asked_price(groups: Seq<Vec<CandidateSummary>>, selected: Seq<usize>) -> u64 {
    let worst = worst_violation(groups, selected, groups.len());
    if worst == u64::MAX {
        u64::MAX
    } else {
        (worst + 1) as u64
    }
}

/// There is one summary for each region, in order.
pub open spec fn covers(summaries: Seq<RegionSummary>, regions: nat) -> bool {
    &&& summaries.len() == regions
    &&& forall|row: int| 0 <= row < summaries.len() ==> (#[trigger] summaries[row]).row == row
}

fn do_summaries_cover(summaries: &Vec<RegionSummary>, regions: usize) -> (covered: bool)
    ensures
        covered == covers(summaries@, regions as nat),
{
    if summaries.len() != regions {
        return false;
    }
    let mut row: usize = 0;
    while row < summaries.len()
        invariant
            row <= summaries@.len(),
            forall|k: int| 0 <= k < row ==> (#[trigger] summaries@[k]).row == k,
        decreases summaries.len() - row,
    {
        if summaries[row].row != row {
            assert(summaries@[row as int].row != row);
            return false;
        }
        row += 1;
    }
    true
}

/// The chosen places, region by region.
pub open spec fn choice_table(selected: Seq<Vec<usize>>) -> Seq<Seq<usize>> {
    selected.map_values(|row: Vec<usize>| row@)
}

pub open spec fn with_choice(table: Seq<Seq<usize>>, place: (usize, usize, usize)) -> Seq<
    Seq<usize>,
> {
    table.update(place.0 as int, table[place.0 as int].update(place.1 as int, place.2))
}

/// A place names a candidate of the design.
pub open spec fn valid_place(summaries: Seq<RegionSummary>, place: (usize, usize, usize)) -> bool {
    &&& place.0 < summaries.len()
    &&& place.1 < summaries[place.0 as int].groups@.len()
    &&& place.2 < summaries[place.0 as int].groups@[place.1 as int]@.len()
}

/// A joint choice names candidates of the design.
pub proof fn joint_choices_are_valid(design: DesignSelection, left: int, right: int, joint: FusionSelection)
    requires
        0 <= left < design.summaries@.len(),
        0 <= right < design.summaries@.len(),
        is_joint(
            design.summaries@,
            design.selected@,
            design.prices@,
            left,
            right,
            joint,
        ),
    ensures
        valid_place(design.summaries@, joint.left),
        valid_place(design.summaries@, joint.right),
{
}

} // verus!
