//! Which of two candidates comes first, and how prices and pairs change that.

use super::selection::{key_less, key_of, numbers_less, pair_key, CandidateSummary};
use vstd::prelude::*;

verus! {

/// A candidate misses no more, is no larger and no deeper than another.
pub open spec fn no_worse(left: CandidateSummary, right: CandidateSummary) -> bool {
    left.violation <= right.violation && left.physical <= right.physical && left.depth
        <= right.depth
}

/// What misses its budget by less comes first at any price; of two that miss it alike, so does
/// what is neither larger nor deeper, and smaller or, at a price, shallower.
pub proof fn better_candidates_come_first(
    left: CandidateSummary,
    right: CandidateSummary,
    price: nat,
)
    ensures
        left.violation < right.violation ==> key_less(key_of(left, price), key_of(right, price)),
        no_worse(left, right) && left.physical < right.physical ==> key_less(
            key_of(left, price),
            key_of(right, price),
        ),
        no_worse(left, right) && left.depth < right.depth && price > 0 ==> key_less(
            key_of(left, price),
            key_of(right, price),
        ),
{
    reveal_with_fuel(numbers_less, 4);
    let a = left.depth as int;
    let b = right.depth as int;
    if a <= b {
        assert(a * price <= b * price) by (nonlinear_arith)
            requires
                0 <= a <= b,
                price >= 0,
        ;
    }
    if a < b && price > 0 {
        assert(a * price < b * price) by (nonlinear_arith)
            requires
                0 <= a < b,
                price > 0,
        ;
    }
    let l = key_of(left, price).numbers;
    let r = key_of(right, price).numbers;
    assert(l[0] == left.violation && r[0] == right.violation);
    assert(l[1] == left.depth * price + left.physical);
    assert(r[1] == right.depth * price + right.physical);
    assert(l[2] == left.physical && r[2] == right.physical);
}

/// A higher price never makes the deeper of two candidates come first.
pub proof fn higher_prices_favor_shallow_candidates(
    left: CandidateSummary,
    right: CandidateSummary,
    price: nat,
    higher: nat,
)
    requires
        price <= higher,
        left.depth <= right.depth,
        key_less(key_of(left, price), key_of(right, price)),
    ensures
        key_less(key_of(left, higher), key_of(right, higher)),
{
    reveal_with_fuel(numbers_less, 4);
    let a = left.depth as int;
    let b = right.depth as int;
    let more = higher - price;
    assert(a * higher == a * price + a * more && b * higher == b * price + b * more)
        by (nonlinear_arith)
        requires
            more == higher - price,
    ;
    assert(a * more <= b * more) by (nonlinear_arith)
        requires
            0 <= a <= b,
            more >= 0,
    ;
    let l = key_of(left, price).numbers;
    let r = key_of(right, price).numbers;
    let lh = key_of(left, higher).numbers;
    let rh = key_of(right, higher).numbers;
    assert(l[0] == left.violation && r[0] == right.violation);
    assert(l[1] == left.depth * price + left.physical);
    assert(r[1] == right.depth * price + right.physical);
    assert(l[2] == left.physical && r[2] == right.physical);
    assert(lh[0] == left.violation && rh[0] == right.violation);
    assert(lh[1] == left.depth * higher + left.physical);
    assert(rh[1] == right.depth * higher + right.physical);
    assert(lh[2] == left.physical && rh[2] == right.physical);
    if l == r {
        assert(l[1] == r[1] && l[2] == r[2] && l[0] == r[0]);
        if lh[1] == rh[1] {
            assert(lh =~= rh);
        }
    }
}

/// What a pair costs does not depend on which of the two comes first, and is no more where
/// one of them is replaced by one that is no worse.
pub proof fn pairs_cost_what_their_parts_do(
    left: CandidateSummary,
    right: CandidateSummary,
    better: CandidateSummary,
    left_price: nat,
    right_price: nat,
    k: int,
)
    requires
        0 <= k < 4,
    ensures
        pair_key(left, right, left_price, right_price).numbers == pair_key(
            right,
            left,
            right_price,
            left_price,
        ).numbers,
        no_worse(better, left) ==> pair_key(
            better,
            right,
            left_price,
            right_price,
        ).numbers[k] <= pair_key(left, right, left_price, right_price).numbers[k],
        pair_key(left, right, left_price, right_price).numbers[0] >= left.violation,
        pair_key(left, right, left_price, right_price).numbers[0] >= right.violation,
        pair_key(left, right, left_price, right_price).numbers[0] == left.violation || pair_key(
            left,
            right,
            left_price,
            right_price,
        ).numbers[0] == right.violation,
{
    let a = better.depth as int;
    let b = left.depth as int;
    if a <= b {
        assert(a * left_price <= b * left_price) by (nonlinear_arith)
            requires
                0 <= a <= b,
                left_price >= 0,
        ;
    }
    let one = pair_key(left, right, left_price, right_price).numbers;
    let two = pair_key(right, left, right_price, left_price).numbers;
    assert(one =~= two);
}

} // verus!
