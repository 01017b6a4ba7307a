//! Groups of candidates that share: who is in one, and who is left over.

use super::shared::{
    can_share, goes_into, group_places, grouping, guard_depends, guards_depend, picked,
    ShareCandidate,
};
use crate::planning::fsm::invisibility::shows;
use crate::word::module::ModuleView;
use crate::word::types::{op_inputs, ValueId};
use vstd::prelude::*;

verus! {

/// A group has two members or more, any two of which can share, and none of its conditions
/// depends on it.
pub open spec fn shares_pairwise(
    module: ModuleView,
    candidates: Seq<ShareCandidate>,
    places: Seq<int>,
) -> bool {
    &&& places.len() >= 2
    &&& !guards_depend(module, picked(candidates, places))
    &&& forall|i: int, j: int|
        0 <= i < j < places.len() ==> 0 <= #[trigger] places[i] < #[trigger] places[j]
            < candidates.len() && can_share(module, candidates[places[i]], candidates[places[j]])
}

pub open spec fn in_group(groups: Seq<Seq<int>>, g: int, place: int) -> bool {
    0 <= g < groups.len() && groups[g].contains(place)
}

/// A candidate belongs to no group.
pub open spec fn left_alone(groups: Seq<Seq<int>>, place: int) -> bool {
    forall|g: int| !(#[trigger] in_group(groups, g, place))
}

/// A group that a candidate starts has conditions that depend on it.
pub open spec fn starts_dependent(
    module: ModuleView,
    candidates: Seq<ShareCandidate>,
    seed: int,
) -> bool {
    exists|places: Seq<int>|
        places.len() >= 2 && places[0] == seed && #[trigger] guards_depend(
            module,
            picked(candidates, places),
        )
}

proof fn lemma_places(
    module: ModuleView,
    candidates: Seq<ShareCandidate>,
    consumed: Set<int>,
    seed: int,
    count: int,
)
    requires
        0 <= seed < count,
    ensures
        ({
            let places = group_places(module, candidates, consumed, seed, count);
            &&& places.len() >= 1
            &&& places[0] == seed
            &&& forall|i: int|
                0 < i < places.len() ==> seed < #[trigger] places[i] < count && !consumed.contains(
                    places[i],
                )
            &&& forall|i: int, j: int|
                0 <= i < j < places.len() ==> #[trigger] places[i] < #[trigger] places[j]
                    && can_share(module, candidates[places[i]], candidates[places[j]])
            &&& forall|j: int|
                seed < j < count && !consumed.contains(j) && #[trigger] can_share(
                    module,
                    candidates[seed],
                    candidates[j],
                ) ==> places.len() >= 2
        }),
    decreases count - seed,
{
    let places = group_places(module, candidates, consumed, seed, count);
    if count > seed + 1 {
        lemma_places(module, candidates, consumed, seed, count - 1);
        let before = group_places(module, candidates, consumed, seed, count - 1);
        assert forall|i: int| 0 < i < places.len() implies seed < #[trigger] places[i] < count
            && !consumed.contains(places[i]) by {
            if i < before.len() {
                assert(places[i] == before[i]);
            }
        }
        assert forall|i: int, j: int|
            0 <= i < j < places.len() implies #[trigger] places[i] < #[trigger] places[j]
            && can_share(module, candidates[places[i]], candidates[places[j]]) by {
            assert(places[i] == before[i]);
            if j < before.len() {
                assert(places[j] == before[j]);
            } else if i > 0 {
                assert(before[i] < count - 1);
            }
        }
        assert forall|j: int|
            seed < j < count && !consumed.contains(j) && #[trigger] can_share(
                module,
                candidates[seed],
                candidates[j],
            ) implies places.len() >= 2 by {
            if j == count - 1 && before.len() == 1 {
                assert forall|i: int| 0 <= i < before.len() implies can_share(
                    module,
                    candidates[#[trigger] before[i]],
                    candidates[count - 1],
                ) by {
                    assert(before[i] == seed);
                }
            }
        }
    }
}

proof fn lemma_grouping(module: ModuleView, candidates: Seq<ShareCandidate>, count: nat)
    requires
        count <= candidates.len(),
    ensures
        ({
            let groups = grouping(module, candidates, count).0;
            let consumed = grouping(module, candidates, count).1;
            &&& forall|g: int|
                0 <= g < groups.len() ==> #[trigger] shares_pairwise(module, candidates, groups[g])
            &&& forall|place: int| #[trigger]
                consumed.contains(place) <==> exists|g: int| #[trigger] in_group(groups, g, place)
            &&& forall|g: int, h: int, place: int|
                #[trigger] in_group(groups, g, place) && #[trigger] in_group(groups, h, place)
                    ==> g == h
            &&& forall|i: int, j: int|
                0 <= i < count && i < j < candidates.len() && left_alone(groups, i) && left_alone(
                    groups,
                    j,
                ) && #[trigger] can_share(module, candidates[i], candidates[j])
                    ==> starts_dependent(module, candidates, i)
        }),
    decreases count,
{
    let groups = grouping(module, candidates, count).0;
    let consumed = grouping(module, candidates, count).1;
    if count > 0 {
        let seed = count - 1;
        lemma_grouping(module, candidates, seed as nat);
        let before = grouping(module, candidates, seed as nat).0;
        let taken = grouping(module, candidates, seed as nat).1;
        let places = group_places(module, candidates, taken, seed, candidates.len() as int);
        lemma_places(module, candidates, taken, seed, candidates.len() as int);
        let formed = !taken.contains(seed) && places.len() >= 2 && !guards_depend(
            module,
            picked(candidates, places),
        );
        if formed {
            assert(groups == before.push(places));
            assert(shares_pairwise(module, candidates, places)) by {
                assert forall|i: int, j: int| 0 <= i < j < places.len() implies 0
                    <= #[trigger] places[i] < #[trigger] places[j] < candidates.len() && can_share(
                    module,
                    candidates[places[i]],
                    candidates[places[j]],
                ) by {
                    assert(seed < places[j] < candidates.len());
                    if i > 0 {
                        assert(seed < places[i]);
                    }
                }
            }
            assert forall|g: int| 0 <= g < groups.len() implies #[trigger] shares_pairwise(
                module,
                candidates,
                groups[g],
            ) by {
                if g < before.len() {
                    assert(groups[g] == before[g]);
                    assert(shares_pairwise(module, candidates, before[g]));
                }
            }
            assert forall|g: int, place: int| #[trigger]
                in_group(groups, g, place) implies if g < before.len() {
                in_group(before, g, place)
            } else {
                g == before.len() && places.contains(place)
            } by {
                if g < before.len() {
                    assert(groups[g] == before[g]);
                }
            }
            assert forall|g: int, place: int| #[trigger]
                in_group(before, g, place) implies in_group(groups, g, place) by {
                assert(groups[g] == before[g]);
            }
            assert forall|place: int| places.contains(place) implies #[trigger] in_group(
                groups,
                before.len() as int,
                place,
            ) && !taken.contains(place) by {
                let i = choose|i: int| 0 <= i < places.len() && places[i] == place;
                if i > 0 {
                    assert(!taken.contains(places[i]));
                }
            }
            assert forall|place: int| #[trigger] consumed.contains(place) <==> exists|g: int|
                #[trigger] in_group(groups, g, place) by {
                if consumed.contains(place) {
                    if taken.contains(place) {
                        let g = choose|g: int| #[trigger] in_group(before, g, place);
                        assert(in_group(groups, g, place));
                    } else {
                        assert(places.to_set().contains(place));
                        assert(places.contains(place));
                        assert(in_group(groups, before.len() as int, place));
                    }
                }
                if exists|g: int| #[trigger] in_group(groups, g, place) {
                    let g = choose|g: int| #[trigger] in_group(groups, g, place);
                    if g < before.len() {
                        assert(in_group(before, g, place));
                    } else {
                        assert(places.to_set().contains(place));
                    }
                }
            }
            assert forall|g: int, h: int, place: int|
                #[trigger] in_group(groups, g, place) && #[trigger] in_group(
                    groups,
                    h,
                    place,
                ) implies g == h by {
                if g < before.len() {
                    assert(in_group(before, g, place));
                }
                if h < before.len() {
                    assert(in_group(before, h, place));
                }
                if g < before.len() || h < before.len() {
                    assert(taken.contains(place));
                }
            }
        }
        assert forall|i: int, j: int|
            0 <= i < count && i < j < candidates.len() && left_alone(groups, i) && left_alone(
                groups,
                j,
            ) && #[trigger] can_share(module, candidates[i], candidates[j]) implies starts_dependent(
            module,
            candidates,
            i,
        ) by {
            assert(left_alone(before, i) && left_alone(before, j)) by {
                assert forall|g: int, place: int| place == i || place == j implies !(
                #[trigger] in_group(before, g, place)) by {
                    if in_group(before, g, place) && formed {
                        assert(groups[g] == before[g]);
                        assert(in_group(groups, g, place));
                    }
                }
            }
            if i == seed {
                assert(!taken.contains(i) && !taken.contains(j));
                if formed {
                    assert(places[0] == seed);
                    assert(in_group(groups, before.len() as int, seed));
                }
                assert(places.len() >= 2);
                assert(guards_depend(module, picked(candidates, places)));
            }
        }
    }
}

/// Candidates are grouped as far as they can be: the members of a group can share, no
/// candidate is in two groups, and of two that can share one is in a group, unless the
/// conditions of a group that the first starts depend on that group.
pub proof fn candidates_are_grouped_as_far_as_they_can_be(
    module: ModuleView,
    candidates: Seq<ShareCandidate>,
)
    ensures
        ({
            let groups = grouping(module, candidates, candidates.len()).0;
            &&& forall|g: int|
                0 <= g < groups.len() ==> #[trigger] shares_pairwise(module, candidates, groups[g])
            &&& forall|g: int, h: int, place: int|
                #[trigger] in_group(groups, g, place) && #[trigger] in_group(groups, h, place)
                    ==> g == h
            &&& forall|i: int, j: int|
                0 <= i < j < candidates.len() && left_alone(groups, i) && left_alone(groups, j)
                    && #[trigger] can_share(module, candidates[i], candidates[j])
                    ==> starts_dependent(module, candidates, i)
        }),
{
    lemma_grouping(module, candidates, candidates.len());
}

/// What shows in a value, over operations without state, goes into it.
pub proof fn what_shows_goes_in(module: ModuleView, source: ValueId, value: ValueId)
    requires
        module.wf(),
        module.has(value),
        shows(module, source.raw as int, value.raw as int),
    ensures
        goes_into(module, source, value),
    decreases value.raw,
{
    if value != source {
        let v = value.raw as int;
        assert(module.value_ok(v));
        let o = module.kind(value)->Operation_0.raw as int;
        let inputs = op_inputs(module.operations[o].kind);
        let k = choose|k: int|
            0 <= k < inputs.len() && inputs[k].raw < v && shows(
                module,
                source.raw as int,
                (#[trigger] inputs[k]).raw as int,
            );
        what_shows_goes_in(module, source, inputs[k]);
    }
}

/// No condition under which a member of a group is needed shows the result of a member.
pub proof fn conditions_do_not_show_their_group(
    module: ModuleView,
    candidates: Seq<ShareCandidate>,
    places: Seq<int>,
    c: int,
    l: int,
    m: int,
)
    requires
        module.wf(),
        shares_pairwise(module, candidates, places),
        0 <= c < places.len(),
        0 <= m < places.len(),
        0 <= l < candidates[places[c]].activation.literals@.len(),
        module.has(candidates[places[c]].activation.literals@[l].condition),
    ensures
        !shows(
            module,
            candidates[places[m]].result.raw as int,
            candidates[places[c]].activation.literals@[l].condition.raw as int,
        ),
{
    let condition = candidates[places[c]].activation.literals@[l].condition;
    let result = candidates[places[m]].result;
    if shows(module, result.raw as int, condition.raw as int) {
        what_shows_goes_in(module, result, condition);
        assert(guard_depends(module, picked(candidates, places), c, l, m));
    }
}

} // verus!
