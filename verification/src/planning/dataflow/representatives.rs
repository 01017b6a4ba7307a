//! Which values stand for which.

use crate::error::{Invariant, SynthError};
use crate::word::types::ValueId;
use vstd::prelude::*;

verus! {

/// The value reached from a value by a number of steps.
pub open spec fn followed(map: Seq<ValueId>, value: int, steps: nat) -> int
    decreases steps,
{
    if steps == 0 {
        value
    } else {
        let below = followed(map, value, (steps - 1) as nat);
        if 0 <= below < map.len() {
            map[below].raw as int
        } else {
            below
        }
    }
}

/// A value that stands for itself.
pub open spec fn is_terminal(map: Seq<ValueId>, value: int) -> bool {
    0 <= value < map.len() && map[value].raw == value
}

pub open spec fn ends_at(map: Seq<ValueId>, value: int, end: int, steps: nat) -> bool {
    is_terminal(map, end) && followed(map, value, steps) == end
}

/// Following a map from a value leads to one that stands for itself.
pub open spec fn leads_to(map: Seq<ValueId>, value: int, end: int) -> bool {
    exists|steps: nat| #[trigger] ends_at(map, value, end, steps)
}

pub open spec fn settles(map: Seq<ValueId>, value: int) -> bool {
    exists|end: int| #[trigger] leads_to(map, value, end)
}

/// Every value stands for the end of its chain.
pub open spec fn closed_from(before: Seq<ValueId>, after: Seq<ValueId>) -> bool {
    &&& after.len() == before.len()
    &&& forall|v: int|
        0 <= v < after.len() ==> leads_to(before, v, (#[trigger] after[v]).raw as int)
}

/// A chain that starts one step later ends at the same value.
proof fn lemma_followed_tail(map: Seq<ValueId>, value: int, steps: nat)
    requires
        0 <= value < map.len(),
        steps > 0,
    ensures
        followed(map, value, steps) == followed(
            map,
            map[value].raw as int,
            (steps - 1) as nat,
        ),
    decreases steps,
{
    if steps > 1 {
        lemma_followed_tail(map, value, (steps - 1) as nat);
    } else {
        assert(followed(map, value, 0) == value);
        assert(followed(map, value, 1) == map[value].raw as int);
    }
}

/// What a value leads to, its successor leads to, and the other way round.
pub proof fn lemma_leads_step(map: Seq<ValueId>, value: int, end: int)
    requires
        0 <= value < map.len(),
    ensures
        leads_to(map, map[value].raw as int, end) ==> leads_to(map, value, end),
        leads_to(map, value, end) && value != end ==> leads_to(map, map[value].raw as int, end),
        is_terminal(map, value) && leads_to(map, value, end) ==> value == end,
{
    if leads_to(map, map[value].raw as int, end) {
        let steps = choose|steps: nat| #[trigger]
            ends_at(map, map[value].raw as int, end, steps);
        lemma_followed_tail(map, value, steps + 1);
        assert(ends_at(map, value, end, steps + 1));
    }
    if leads_to(map, value, end) {
        let steps = choose|steps: nat| #[trigger] ends_at(map, value, end, steps);
        if value != end {
            assert(steps > 0);
            lemma_followed_tail(map, value, steps);
            assert(ends_at(map, map[value].raw as int, end, (steps - 1) as nat));
        }
        if is_terminal(map, value) {
            lemma_terminal_stays(map, value, steps);
        }
    }
}

proof fn lemma_terminal_stays(map: Seq<ValueId>, value: int, steps: nat)
    requires
        is_terminal(map, value),
    ensures
        followed(map, value, steps) == value,
    decreases steps,
{
    if steps > 0 {
        lemma_terminal_stays(map, value, (steps - 1) as nat);
    }
}

/// A terminal value leads to itself.
pub proof fn lemma_terminal(map: Seq<ValueId>, value: int)
    requires
        is_terminal(map, value),
    ensures
        leads_to(map, value, value),
{
    assert(ends_at(map, value, value, 0));
}

/// A set of values that chains do not leave and that holds no terminal value
/// leads nowhere.
proof fn lemma_trapped(map: Seq<ValueId>, trap: Set<int>, value: int, steps: nat)
    requires
        trap.contains(value),
        forall|v: int| #[trigger]
            trap.contains(v) ==> 0 <= v < map.len() && trap.contains(map[v].raw as int),
    ensures
        trap.contains(followed(map, value, steps)),
    decreases steps,
{
    if steps > 0 {
        lemma_trapped(map, trap, value, (steps - 1) as nat);
    }
}

/// The same end, whichever way it is reached.
pub proof fn lemma_end_unique(map: Seq<ValueId>, value: int, left: int, right: int)
    requires
        leads_to(map, value, left),
        leads_to(map, value, right),
    ensures
        left == right,
{
    let a = choose|steps: nat| #[trigger] ends_at(map, value, left, steps);
    let b = choose|steps: nat| #[trigger] ends_at(map, value, right, steps);
    if a <= b {
        lemma_followed_more(map, value, a, (b - a) as nat);
        lemma_terminal_stays(map, left, (b - a) as nat);
    } else {
        lemma_followed_more(map, value, b, (a - b) as nat);
        lemma_terminal_stays(map, right, (a - b) as nat);
    }
}

proof fn lemma_followed_more(map: Seq<ValueId>, value: int, steps: nat, more: nat)
    ensures
        followed(map, value, steps + more) == followed(map, followed(map, value, steps), more),
    decreases more,
{
    if more > 0 {
        lemma_followed_more(map, value, steps, (more - 1) as nat);
        assert((steps + more - 1) as nat == steps + (more - 1) as nat);
    }
}

/// The walk from a start: a path of unfinished values.
spec fn walking(
    start_map: Seq<ValueId>,
    map: Seq<ValueId>,
    state: Seq<u8>,
    path: Seq<usize>,
    start: int,
    current: int,
) -> bool {
    let n = start_map.len();
    &&& map.len() == n
    &&& state.len() == n
    &&& forall|v: int| 0 <= v < n ==> (#[trigger] state[v]) <= 2
    &&& forall|v: int|
        0 <= v < n && (#[trigger] state[v]) != 2 ==> map[v] == start_map[v]
    &&& forall|v: int|
        0 <= v < n && (#[trigger] state[v]) == 2 ==> leads_to(start_map, v, map[v].raw as int)
    &&& forall|i: int|
        0 <= i < path.len() ==> (#[trigger] path[i]) < n && state[path[i] as int] == 1
            && start_map[path[i] as int].raw != path[i]
    &&& forall|v: int| 0 <= v < n && (#[trigger] state[v]) == 1 ==> path.contains(v as usize)
    &&& path.no_duplicates()
    &&& forall|i: int|
        0 <= i < path.len() ==> next_on_path(start_map, path, current, i)
    &&& path.len() == 0 ==> current == start
    &&& path.len() > 0 ==> path[0] == start
}

spec fn next_on_path(
    map: Seq<ValueId>,
    path: Seq<usize>,
    current: int,
    i: int,
) -> bool {
    map[path[i] as int].raw == (if i + 1 < path.len() {
        path[i + 1] as int
    } else {
        current
    })
}

/// If the last value of a path leads somewhere, so do all before it.
proof fn lemma_path_leads(map: Seq<ValueId>, path: Seq<usize>, current: int, i: int, end: int)
    requires
        forall|j: int| 0 <= j < path.len() ==> (#[trigger] path[j]) < map.len(),
        forall|j: int| 0 <= j < path.len() ==> next_on_path(map, path, current, j),
        0 <= i < path.len(),
        leads_to(map, current, end),
    ensures
        leads_to(map, path[i] as int, end),
    decreases path.len() - i,
{
    assert(next_on_path(map, path, current, i));
    if i + 1 < path.len() {
        lemma_path_leads(map, path, current, i + 1, end);
    }
    assert(path[i] < map.len());
    lemma_leads_step(map, path[i] as int, end);
}

/// If the first value of a path leads somewhere, so does its last.
proof fn lemma_path_follows(map: Seq<ValueId>, path: Seq<usize>, current: int, i: int, end: int)
    requires
        forall|j: int|
            0 <= j < path.len() ==> (#[trigger] path[j]) < map.len() && map[path[j] as int].raw
                != path[j],
        forall|j: int| 0 <= j < path.len() ==> next_on_path(map, path, current, j),
        0 <= i < path.len(),
        leads_to(map, path[i] as int, end),
    ensures
        leads_to(map, current, end),
    decreases path.len() - i,
{
    assert(next_on_path(map, path, current, i));
    assert(path[i] < map.len());
    lemma_leads_step(map, path[i] as int, end);
    assert(path[i] != end) by {
        let steps = choose|steps: nat| #[trigger] ends_at(map, path[i] as int, end, steps);
        assert(is_terminal(map, end));
    }
    if i + 1 < path.len() {
        lemma_path_follows(map, path, current, i + 1, end);
    }
}

/// A path that comes back to itself leads nowhere.
proof fn lemma_cycle(map: Seq<ValueId>, path: Seq<usize>, current: int)
    requires
        forall|j: int|
            0 <= j < path.len() ==> (#[trigger] path[j]) < map.len() && map[path[j] as int].raw
                != path[j],
        forall|j: int| 0 <= j < path.len() ==> next_on_path(map, path, current, j),
        path.len() > 0,
        0 <= current <= usize::MAX,
        path.contains(current as usize),
    ensures
        !settles(map, path[0] as int),
        !runs_out(map, path[0] as int),
{
    let trap = Set::new(
        |v: int| exists|j: int| 0 <= j < path.len() && (#[trigger] path[j]) as int == v,
    );
    assert forall|v: int| #[trigger] trap.contains(v) implies 0 <= v < map.len() && trap.contains(
        map[v].raw as int,
    ) by {
        let j = choose|j: int| 0 <= j < path.len() && (#[trigger] path[j]) as int == v;
        assert(next_on_path(map, path, current, j));
        if j + 1 < path.len() {
            assert(path[j + 1] as int == map[v].raw as int);
        } else {
            let k = choose|k: int| 0 <= k < path.len() && path[k] == current as usize;
            assert(path[k] as int == map[v].raw as int);
        }
    }
    assert(trap.contains(path[0] as int));
    if runs_out(map, path[0] as int) {
        let steps = choose|steps: nat| #[trigger]
            followed(map, path[0] as int, steps) >= map.len();
        lemma_trapped(map, trap, path[0] as int, steps);
    }
    if settles(map, path[0] as int) {
        let end = choose|end: int| #[trigger] leads_to(map, path[0] as int, end);
        let steps = choose|steps: nat| #[trigger] ends_at(map, path[0] as int, end, steps);
        lemma_trapped(map, trap, path[0] as int, steps);
        let j = choose|j: int| 0 <= j < path.len() && (#[trigger] path[j]) as int == end;
        assert(map[path[j] as int].raw != path[j]);
    }
}

/// A chain runs out of the list.
pub open spec fn runs_out(map: Seq<ValueId>, value: int) -> bool {
    exists|steps: nat| #[trigger] followed(map, value, steps) >= map.len()
}

/// Chains of values that are all in the list do not run out of it.
pub proof fn lemma_stays_inside(map: Seq<ValueId>, value: int)
    requires
        0 <= value < map.len(),
        forall|v: int| 0 <= v < map.len() ==> (#[trigger] map[v]).raw < map.len(),
    ensures
        !runs_out(map, value),
{
    let all = Set::new(|v: int| 0 <= v < map.len());
    if runs_out(map, value) {
        let steps = choose|steps: nat| #[trigger] followed(map, value, steps) >= map.len();
        lemma_trapped(map, all, value, steps);
    }
}

/// The first value whose chain does not end.
pub open spec fn first_stuck(map: Seq<ValueId>, value: int) -> bool {
    &&& 0 <= value < map.len()
    &&& !settles(map, value)
    &&& forall|v: int| 0 <= v < value ==> #[trigger] settles(map, v)
}

/// What is told of a chain that does not end: that it leaves the list, or that it runs
/// in a circle.
pub open spec fn stuck_error(map: Seq<ValueId>, value: int) -> SynthError {
    if runs_out(map, value) {
        SynthError::Invariant(Invariant::UnknownValue)
    } else {
        SynthError::Invariant(Invariant::CombinationalCycle)
    }
}

/// A path is what following its first value passes.
proof fn lemma_path_followed(map: Seq<ValueId>, path: Seq<usize>, current: int, i: nat)
    requires
        forall|j: int| 0 <= j < path.len() ==> (#[trigger] path[j]) < map.len(),
        forall|j: int| 0 <= j < path.len() ==> next_on_path(map, path, current, j),
        path.len() > 0,
        i <= path.len(),
    ensures
        followed(map, path[0] as int, i) == if i < path.len() {
            path[i as int] as int
        } else {
            current
        },
    decreases i,
{
    if i > 0 {
        lemma_path_followed(map, path, current, (i - 1) as nat);
        assert(next_on_path(map, path, current, i - 1));
    }
}

/// Makes every value stand for the end of its chain. A chain that runs in a
/// circle or out of the list is refused.
#[verifier::rlimit(60)]
pub fn close_representatives(representatives: &mut Vec<ValueId>) -> (result: Result<
    (),
    SynthError,
>)
    requires
        old(representatives)@.len() <= u32::MAX,
    ensures
        final(representatives)@.len() == old(representatives)@.len(),
        result is Ok <==> forall|v: int|
            0 <= v < old(representatives)@.len() ==> #[trigger] settles(old(representatives)@, v),
        result is Ok ==> closed_from(old(representatives)@, final(representatives)@),
        result matches Err(error) ==> exists|v: int| #[trigger]
            first_stuck(old(representatives)@, v) && error == stuck_error(
                old(representatives)@,
                v,
            ),
{
    let ghost map = representatives@;
    let count: usize = representatives.len();
    let mut state: Vec<u8> = Vec::new();
    state.resize(count, 0);
    let mut start: usize = 0;
    while start < count
        invariant
            map == old(representatives)@,
            count == map.len(),
            count <= u32::MAX,
            start <= count,
            walking(map, representatives@, state@, seq![], start as int, start as int),
            forall|v: int| 0 <= v < start ==> state@[v] == 2,
        decreases count - start,
    {
        if state[start] == 2 {
            start += 1;
            continue ;
        }
        let mut path: Vec<usize> = Vec::new();
        let mut current: usize = start;
        loop
            invariant_except_break
                path@.len() == 0 ==> state@[start as int] != 2,
            invariant
                map == old(representatives)@,
                count == map.len(),
                count <= u32::MAX,
                start < count,
                state@[start as int] != 2 || path@.len() > 0 || current == start,
                walking(map, representatives@, state@, path@, start as int, current as int),
                forall|v: int| 0 <= v < start ==> state@[v] == 2,
                path@.len() <= count,
            ensures
                current < count,
                state@[current as int] == 2,
                current == start || path@.len() > 0,
            decreases count - path.len(),
        {
            if current >= count {
                proof {
                    assert(path@.len() > 0);
                    if settles(map, start as int) {
                        let end = choose|end: int| #[trigger] leads_to(map, start as int, end);
                        lemma_path_follows(map, path@, current as int, 0, end);
                        let steps = choose|steps: nat| #[trigger]
                            ends_at(map, current as int, end, steps);
                        lemma_outside(map, current as int, steps);
                    }
                    lemma_path_followed(map, path@, current as int, path@.len());
                    assert(followed(map, start as int, path@.len()) >= map.len());
                    lemma_below_settle(map, representatives@, state@, start as int);
                    assert(first_stuck(map, start as int));
                }
                return Err(SynthError::Invariant(Invariant::UnknownValue));
            }
            let representative = representatives[current];
            let next: usize = representative.raw as usize;
            if next == current {
                proof {
                    if state@[current as int] != 2 {
                        assert(is_terminal(map, current as int));
                        lemma_terminal(map, current as int);
                        if state@[current as int] == 1 {
                            assert(path@.contains(current as int as usize));
                            let i = choose|i: int| 0 <= i < path@.len() && path@[i] == current;
                            assert(map[path@[i] as int].raw != path@[i]);
                        }
                    }
                }
                state.set(current, 2);
                break ;
            }
            let mark: u8 = state[current];
            if mark == 0 {
                let ghost before = path@;
                state.set(current, 1);
                path.push(current);
                proof {
                    assert(!before.contains(current)) by {
                        if before.contains(current) {
                            let i = choose|i: int| 0 <= i < before.len() && before[i] == current;
                            assert(state@[before[i] as int] == 1);
                        }
                    }
                    assert forall|v: int| 0 <= v < map.len() && (#[trigger] state@[v]) == 1 implies
                        path@.contains(v as usize) by {
                        crate::planning::fsm::dependency::lemma_push_contains(
                            before,
                            current,
                            v as usize,
                        );
                    }
                    assert forall|i: int| 0 <= i < path@.len() implies next_on_path(
                        map,
                        path@,
                        next as int,
                        i,
                    ) by {
                        if i < before.len() {
                            assert(next_on_path(map, before, current as int, i));
                        }
                    }
                    assert(path@.len() <= count) by {
                        lemma_distinct_bound(path@, count as nat);
                    }
                }
                current = next;
            } else if mark == 1 {
                proof {
                    assert(path@.contains(current as int as usize));
                    lemma_cycle(map, path@, current as int);
                    lemma_below_settle(map, representatives@, state@, start as int);
                    assert(first_stuck(map, start as int));
                }
                return Err(SynthError::Invariant(Invariant::CombinationalCycle));
            } else {
                break ;
            }
        }
        let terminal = representatives[current];
        let ghost end = terminal.raw as int;
        assert(leads_to(map, current as int, end));
        let mut left: usize = path.len();
        let ghost walked = path@;
        proof {
            assert forall|i: int| 0 <= i < walked.len() implies leads_to(
                map,
                (#[trigger] walked[i]) as int,
                end,
            ) by {
                lemma_path_leads(map, walked, current as int, i, end);
            }
        }
        while left > 0
            invariant
                map == old(representatives)@,
                count == map.len(),
                left <= path@.len(),
                walked == path@,
                start < count,
                terminal.raw == end,
                representatives@.len() == count,
                state@.len() == count,
                forall|v: int| 0 <= v < count ==> (#[trigger] state@[v]) <= 2,
                forall|v: int|
                    0 <= v < count && (#[trigger] state@[v]) != 2 ==> representatives@[v] == map[v],
                forall|v: int|
                    0 <= v < count && (#[trigger] state@[v]) == 2 ==> leads_to(
                        map,
                        v,
                        representatives@[v].raw as int,
                    ),
                forall|i: int| 0 <= i < walked.len() ==> (#[trigger] walked[i]) < count,
                forall|i: int|
                    left <= i < walked.len() ==> state@[(#[trigger] walked[i]) as int] == 2,
                forall|v: int|
                    0 <= v < count && (#[trigger] state@[v]) == 1 ==> walked.contains(v as usize),
                forall|i: int|
                    0 <= i < walked.len() ==> leads_to(map, (#[trigger] walked[i]) as int, end),
                forall|v: int| 0 <= v < start ==> state@[v] == 2,
                walked.len() == 0 ==> state@[start as int] == 2,
                walked.len() > 0 ==> walked[0] == start,
            decreases left,
        {
            left -= 1;
            let value: usize = path[left];
            assert(walked[left as int] < count);
            representatives.set(value, terminal);
            state.set(value, 2);
        }
        proof {
            assert(state@[start as int] == 2) by {
                if walked.len() > 0 {
                    assert(state@[walked[0] as int] == 2);
                }
            }
            assert forall|v: int| 0 <= v < count && (#[trigger] state@[v]) == 1 implies false by {
                assert(walked.contains(v as usize));
                let i = choose|i: int| 0 <= i < walked.len() && walked[i] == v as usize;
                assert(state@[walked[i] as int] == 2);
            }
        }
        start += 1;
    }
    proof {
        assert forall|v: int| 0 <= v < map.len() implies #[trigger] settles(map, v) by {
            assert(state@[v] == 2);
            assert(leads_to(map, v, representatives@[v].raw as int));
        }
        assert forall|v: int| 0 <= v < map.len() implies leads_to(
            map,
            v,
            (#[trigger] representatives@[v]).raw as int,
        ) by {
            assert(state@[v] == 2);
        }
    }
    Ok(())
}

/// Finished values settle.
proof fn lemma_below_settle(
    start_map: Seq<ValueId>,
    map: Seq<ValueId>,
    state: Seq<u8>,
    below: int,
)
    requires
        below <= start_map.len() == state.len() == map.len(),
        forall|v: int| 0 <= v < below ==> state[v] == 2,
        forall|v: int|
            0 <= v < start_map.len() && (#[trigger] state[v]) == 2 ==> leads_to(
                start_map,
                v,
                map[v].raw as int,
            ),
    ensures
        forall|v: int| 0 <= v < below ==> #[trigger] settles(start_map, v),
{
    assert forall|v: int| 0 <= v < below implies #[trigger] settles(start_map, v) by {
        assert(state[v] == 2);
        assert(leads_to(start_map, v, map[v].raw as int));
    }
}

proof fn lemma_outside(map: Seq<ValueId>, value: int, steps: nat)
    requires
        value >= map.len(),
    ensures
        followed(map, value, steps) == value,
    decreases steps,
{
    if steps > 0 {
        lemma_outside(map, value, (steps - 1) as nat);
    }
}

proof fn lemma_distinct_bound(path: Seq<usize>, bound: nat)
    requires
        path.no_duplicates(),
        forall|i: int| 0 <= i < path.len() ==> (#[trigger] path[i]) < bound,
    ensures
        path.len() <= bound,
{
    let ints = path.map_values(|x: usize| x as int);
    assert(ints.no_duplicates());
    ints.unique_seq_to_set();
    vstd::set_lib::lemma_int_range(0, bound as int);
    assert forall|x: int| ints.to_set().contains(x) implies vstd::set_lib::set_int_range(
        0,
        bound as int,
    ).contains(x) by {
        let i = choose|i: int| 0 <= i < ints.len() && ints[i] == x;
        assert(path[i] < bound);
    }
    vstd::set_lib::lemma_len_subset(
        ints.to_set(),
        vstd::set_lib::set_int_range(0, bound as int),
    );
}

/// Once closed, a map stays as it is: every value stands for one that stands
/// for itself.
pub proof fn closing_is_idempotent(before: Seq<ValueId>, after: Seq<ValueId>, value: int)
    requires
        closed_from(before, after),
        0 <= value < after.len(),
    ensures
        is_terminal(after, after[value].raw as int),
{
    let end = after[value].raw as int;
    assert(leads_to(before, value, end));
    let steps = choose|steps: nat| #[trigger] ends_at(before, value, end, steps);
    assert(is_terminal(before, end));
    lemma_terminal(before, end);
    assert(leads_to(before, end, after[end].raw as int));
    lemma_end_unique(before, end, end, after[end].raw as int);
}

} // verus!
