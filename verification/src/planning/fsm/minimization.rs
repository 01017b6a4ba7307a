//! Merging the states of a machine that behave alike.

use super::behavior::{lit_rows, SymbolicBehavior};
use super::encoding::{group_signatures, grouped, rows_view};
use super::symbolic::encoder::WordLogicEncoder;
use super::symbolic::gates::{exhausted, lemma_share, SymbolicError, MAX_SYMBOLIC_NODES};
use super::symbolic::selection::{class_form, class_of, states_view};
use crate::error::SynthError;
use crate::logic::{
    constant_row, keeps_values, lemma_keeps_values, lemma_lits_keep, lits_ok, lits_value, Inputs, Lit, LogicNode,
};
use crate::word::bits::bits_of;
use crate::word::numbers::all_known;
use crate::word::types::{BitVal, ConstBits};
use vstd::arithmetic::power2::pow2;
use vstd::prelude::*;

verus! {

/// The literals of a row as numbers.
pub open spec fn codes(row: Seq<Lit>) -> Seq<u64> {
    row.map_values(|lit: Lit| lit.code_spec() as u64)
}

pub open spec fn code_rows(rows: Seq<Seq<Lit>>) -> Seq<Seq<u64>> {
    rows.map_values(|row: Seq<Lit>| codes(row))
}

/// Rows that begin with a class.
pub open spec fn keyed(classes: Seq<usize>, rows: Seq<Seq<Lit>>) -> Seq<Seq<u64>> {
    Seq::new(rows.len(), |s: int| seq![classes[s] as u64] + codes(rows[s]))
}

/// Rows that say, for each state, to which class the next state belongs.
pub open spec fn signs(
    nodes: Seq<LogicNode>,
    next: Seq<Seq<Lit>>,
    states: Seq<Seq<BitVal>>,
    classes: Seq<usize>,
    rows: Seq<Seq<Lit>>,
) -> bool {
    &&& rows.len() == next.len()
    &&& forall|s: int, i: int|
        0 <= s < rows.len() && 0 <= i < classes.len() ==> (#[trigger] classes[i]) < pow2(
            (#[trigger] rows[s]).len(),
        )
    &&& forall|s: int, inputs: Inputs|
        0 <= s < rows.len() ==> #[trigger] lits_value(nodes, inputs, rows[s]) == bits_of(
            class_of(
                states,
                classes,
                lits_value(nodes, inputs, next[s]),
                states.len() as int,
            ) as int,
            rows[s].len(),
        )
    &&& forall|s: int| 0 <= s < rows.len() ==> lits_ok(nodes, #[trigger] rows[s])
    &&& forall|s: int| 0 <= s < rows.len() ==> row_fixed(next[s], states, classes, #[trigger] rows[s])
}

/// What is fixed of a row that says to which class another one belongs: it is no wider
/// than the classes need, it is constant where the other is, and it needs no gate where
/// none is called for.
pub open spec fn row_fixed(
    value: Seq<Lit>,
    states: Seq<Seq<BitVal>>,
    classes: Seq<usize>,
    row: Seq<Lit>,
) -> bool {
    &&& row.len() >= 1
    &&& row.len() > 1 ==> exists|i: int|
        0 <= i < classes.len() && (#[trigger] classes[i]) >= pow2((row.len() - 1) as nat)
    &&& constant_row(value) ==> constant_row(row)
    &&& class_form(value, states, classes, row.len(), states.len()) matches Some(form) ==> row
        == form
}

/// One step of refinement: states stay together where they are together and
/// their next states are in the same class by the same row.
pub open spec fn refines(
    nodes: Seq<LogicNode>,
    next: Seq<Seq<Lit>>,
    states: Seq<Seq<BitVal>>,
    from: Seq<usize>,
    to: Seq<usize>,
) -> bool {
    exists|rows: Seq<Seq<Lit>>| #[trigger]
        signs(nodes, next, states, from, rows) && grouped(keyed(from, rows), to)
}

pub open spec fn refined_at(
    nodes: Seq<LogicNode>,
    next: Seq<Seq<Lit>>,
    states: Seq<Seq<BitVal>>,
    trace: Seq<Seq<usize>>,
    i: int,
) -> bool {
    refines(nodes, next, states, trace[i], trace[i + 1])
}

/// A refinement that starts from what is seen in each state.
pub open spec fn refinement(
    nodes: Seq<LogicNode>,
    observations: Seq<Seq<Lit>>,
    next: Seq<Seq<Lit>>,
    states: Seq<Seq<BitVal>>,
    trace: Seq<Seq<usize>>,
) -> bool {
    &&& trace.len() >= 1
    &&& grouped(code_rows(observations), trace[0])
    &&& forall|i: int|
        0 <= i < trace.len() - 1 ==> #[trigger] refined_at(nodes, next, states, trace, i)
}

/// The classes with which a refinement ends.
pub open spec fn settled(
    nodes: Seq<LogicNode>,
    observations: Seq<Seq<Lit>>,
    next: Seq<Seq<Lit>>,
    states: Seq<Seq<BitVal>>,
    classes: Seq<usize>,
) -> bool {
    &&& refines(nodes, next, states, classes, classes)
    &&& exists|trace: Seq<Seq<usize>>| #[trigger]
        refinement(nodes, observations, next, states, trace) && trace.last() == classes
}

/// Each state by itself.
pub open spec fn apart(count: nat) -> Seq<usize> {
    Seq::new(count, |s: int| s as usize)
}

/// A class that did not occur before.
pub open spec fn fresh(classes: Seq<usize>, i: int) -> bool {
    forall|j: int| 0 <= j < i ==> #[trigger] classes[j] != classes[i]
}

/// The number of classes among the first states.
pub open spec fn class_count(classes: Seq<usize>, count: int) -> nat
    decreases count,
{
    if count <= 0 {
        0
    } else {
        class_count(classes, count - 1) + (if fresh(classes, count - 1) {
            1nat
        } else {
            0
        })
    }
}

/// Classes are numbered in the order in which they first occur.
pub open spec fn in_sequence(classes: Seq<usize>) -> bool {
    forall|i: int|
        0 <= i < classes.len() && #[trigger] fresh(classes, i) ==> classes[i] == class_count(
            classes,
            i,
        )
}

proof fn lemma_set_count(rows: Seq<Seq<u64>>, classes: Seq<usize>, count: int)
    requires
        grouped(rows, classes),
        0 <= count <= rows.len(),
    ensures
        rows.take(count).to_set().len() == class_count(classes, count),
    decreases count,
{
    let now = rows.take(count);
    if count == 0 {
        assert(now.to_set() =~= Set::empty());
    } else {
        let seen = rows.take(count - 1);
        let row = rows[count - 1];
        lemma_set_count(rows, classes, count - 1);
        seen.lemma_cardinality_of_set();
        assert(now =~= seen.push(row));
        assert(now.to_set() =~= seen.to_set().insert(row)) by {
            assert forall|x: Seq<u64>| #[trigger]
                now.to_set().contains(x) == seen.to_set().insert(row).contains(x) by {
                super::dependency::lemma_push_contains(seen, row, x);
            }
        }
        if fresh(classes, count - 1) {
            if seen.contains(row) {
                let j = choose|j: int| 0 <= j < seen.len() && seen[j] == row;
                assert(rows[j] == rows[count - 1]);
                assert(classes[j] == classes[count - 1]);
            }
        } else {
            let j = choose|j: int|
                0 <= j < count - 1 && #[trigger] classes[j] == classes[count - 1];
            assert(rows[j] == rows[count - 1]);
            assert(seen[j] == row);
            assert(seen.contains(row));
            assert(now.to_set() =~= seen.to_set());
        }
    }
}

pub proof fn lemma_in_sequence(rows: Seq<Seq<u64>>, classes: Seq<usize>)
    requires
        grouped(rows, classes),
    ensures
        in_sequence(classes),
{
    assert forall|i: int| 0 <= i < classes.len() && #[trigger] fresh(classes, i) implies classes[i]
        == class_count(classes, i) by {
        lemma_set_count(rows, classes, i);
        if rows.take(i).contains(rows[i]) {
            let j = choose|j: int| 0 <= j < i && rows.take(i)[j] == rows[i];
            assert(rows[j] == rows[i]);
            assert(classes[j] == classes[i]);
        }
    }
}

pub proof fn lemma_class_count_bound(classes: Seq<usize>, count: int)
    requires
        0 <= count,
    ensures
        class_count(classes, count) <= count,
    decreases count,
{
    if count > 0 {
        lemma_class_count_bound(classes, count - 1);
    }
}

/// The first state of the class of a state.
proof fn lemma_first_of(classes: Seq<usize>, i: int) -> (first: int)
    requires
        0 <= i < classes.len(),
    ensures
        0 <= first <= i,
        fresh(classes, first),
        classes[first] == classes[i],
    decreases i,
{
    if fresh(classes, i) {
        i
    } else {
        let j = choose|j: int| 0 <= j < i && #[trigger] classes[j] == classes[i];
        lemma_first_of(classes, j)
    }
}

pub open spec fn finer(to: Seq<usize>, from: Seq<usize>) -> bool {
    forall|i: int, j: int|
        0 <= i < to.len() && 0 <= j < to.len() && #[trigger] to[i] == #[trigger] to[j] ==> from[i]
            == from[j]
}

proof fn lemma_finer_counts(from: Seq<usize>, to: Seq<usize>, count: int)
    requires
        from.len() == to.len(),
        finer(to, from),
        0 <= count <= from.len(),
    ensures
        class_count(to, count) >= class_count(from, count),
        class_count(to, count) == class_count(from, count) ==> forall|i: int|
            0 <= i < count ==> fresh(to, i) == #[trigger] fresh(from, i),
    decreases count,
{
    if count > 0 {
        lemma_finer_counts(from, to, count - 1);
        if fresh(from, count - 1) && !fresh(to, count - 1) {
            let j = choose|j: int| 0 <= j < count - 1 && #[trigger] to[j] == to[count - 1];
            assert(from[j] == from[count - 1]);
        }
    }
}

/// A finer partition with as many classes is the same one.
proof fn lemma_same_classes(from: Seq<usize>, to: Seq<usize>)
    requires
        from.len() == to.len(),
        finer(to, from),
        in_sequence(from),
        in_sequence(to),
        class_count(to, to.len() as int) == class_count(from, from.len() as int),
    ensures
        from == to,
{
    let n = from.len() as int;
    lemma_finer_counts(from, to, n);
    assert forall|i: int| 0 <= i < n implies from[i] == to[i] by {
        let f = lemma_first_of(from, i);
        let g = lemma_first_of(to, i);
        assert(to[g] == to[i]);
        assert(from[g] == from[i]);
        assert(fresh(to, g) == fresh(from, g));
        assert(f == g) by {
            if f < g {
                assert(from[f] == from[g]);
            }
            if g < f {
                assert(from[g] == from[f]);
            }
        }
        assert(to[f] == class_count(to, f) && from[f] == class_count(from, f));
        lemma_prefix_counts(from, to, f, n);
    }
    assert(from =~= to);
}

proof fn lemma_prefix_counts(from: Seq<usize>, to: Seq<usize>, count: int, n: int)
    requires
        0 <= count <= n,
        forall|i: int| 0 <= i < n ==> fresh(to, i) == #[trigger] fresh(from, i),
    ensures
        class_count(to, count) == class_count(from, count),
    decreases count,
{
    if count > 0 {
        lemma_prefix_counts(from, to, count - 1, n);
        assert(fresh(to, count - 1) == fresh(from, count - 1));
    }
}

/// A refinement step makes classes finer.
proof fn lemma_refines_finer(from: Seq<usize>, rows: Seq<Seq<Lit>>, to: Seq<usize>)
    requires
        grouped(keyed(from, rows), to),
        from.len() == rows.len(),
        forall|i: int| 0 <= i < from.len() ==> #[trigger] from[i] <= u64::MAX,
    ensures
        finer(to, from),
        forall|i: int, j: int|
            0 <= i < to.len() && 0 <= j < to.len() && #[trigger] to[i] == #[trigger] to[j]
                ==> rows[i] == rows[j],
{
    let all = keyed(from, rows);
    assert forall|i: int, j: int|
        0 <= i < to.len() && 0 <= j < to.len() && #[trigger] to[i] == #[trigger] to[j] implies
        from[i] == from[j] && rows[i] == rows[j] by {
        assert(all[i] == all[j]);
        assert(all[i][0] == from[i] as u64 && all[j][0] == from[j] as u64);
        assert(all[i].skip(1) =~= codes(rows[i]));
        assert(all[j].skip(1) =~= codes(rows[j]));
        lemma_codes(rows[i], rows[j]);
    }
}

/// Rows with the same codes are the same.
pub proof fn lemma_codes(left: Seq<Lit>, right: Seq<Lit>)
    requires
        codes(left) == codes(right),
    ensures
        left == right,
{
    assert(left.len() == codes(left).len());
    assert(right.len() == codes(right).len());
    assert forall|i: int| 0 <= i < left.len() implies left[i] == right[i] by {
        assert(codes(left)[i] == left[i].code_spec() as u64);
        assert(codes(right)[i] == right[i].code_spec() as u64);
    }
    assert(left =~= right);
}

proof fn lemma_signs_keep(
    before: Seq<LogicNode>,
    after: Seq<LogicNode>,
    next: Seq<Seq<Lit>>,
    states: Seq<Seq<BitVal>>,
    classes: Seq<usize>,
    rows: Seq<Seq<Lit>>,
)
    requires
        keeps_values(before, after),
        signs(before, next, states, classes, rows),
        forall|s: int| 0 <= s < next.len() ==> lits_ok(before, #[trigger] next[s]),
    ensures
        signs(after, next, states, classes, rows),
{
    assert forall|s: int, inputs: Inputs| 0 <= s < rows.len() implies #[trigger] lits_value(
        after,
        inputs,
        rows[s],
    ) == bits_of(
        class_of(
            states,
            classes,
            lits_value(after, inputs, next[s]),
            states.len() as int,
        ) as int,
        rows[s].len(),
    ) by {
        assert(lits_ok(before, rows[s]));
        assert(lits_ok(before, next[s]));
        lemma_lits_keep(before, after, rows[s], inputs);
        lemma_lits_keep(before, after, next[s], inputs);
        assert(lits_value(before, inputs, rows[s]) == bits_of(
            class_of(
                states,
                classes,
                lits_value(before, inputs, next[s]),
                states.len() as int,
            ) as int,
            rows[s].len(),
        ));
    }
    assert forall|s: int| 0 <= s < rows.len() implies lits_ok(after, #[trigger] rows[s]) by {
        assert(lits_ok(before, rows[s]));
    }
}

proof fn lemma_refinement_keep(
    before: Seq<LogicNode>,
    after: Seq<LogicNode>,
    observations: Seq<Seq<Lit>>,
    next: Seq<Seq<Lit>>,
    states: Seq<Seq<BitVal>>,
    trace: Seq<Seq<usize>>,
)
    requires
        keeps_values(before, after),
        refinement(before, observations, next, states, trace),
        forall|s: int| 0 <= s < next.len() ==> lits_ok(before, #[trigger] next[s]),
    ensures
        refinement(after, observations, next, states, trace),
{
    assert forall|i: int| 0 <= i < trace.len() - 1 implies #[trigger] refined_at(
        after,
        next,
        states,
        trace,
        i,
    ) by {
        assert(refined_at(before, next, states, trace, i));
        let rows = choose|rows: Seq<Seq<Lit>>| #[trigger]
            signs(before, next, states, trace[i], rows) && grouped(
                keyed(trace[i], rows),
                trace[i + 1],
            );
        lemma_signs_keep(before, after, next, states, trace[i], rows);
    }
}

fn push_codes(row: &mut Vec<u64>, lits: &Vec<Lit>)
    ensures
        final(row)@ == old(row)@ + codes(lits@),
{
    let mut i: usize = 0;
    let ghost all = codes(lits@);
    while i < lits.len()
        invariant
            i <= lits@.len(),
            all == codes(lits@),
            row@ == old(row)@ + all.take(i as int),
        decreases lits.len() - i,
    {
        row.push(lits[i].code());
        i += 1;
        assert(all.take(i as int) =~= all.take(i - 1).push(all[i - 1]));
    }
    assert(all.take(i as int) =~= all);
}

/// Groups states by what is seen in them.
fn group_observations(observations: &Vec<Vec<Lit>>) -> (classes: Vec<usize>)
    ensures
        grouped(code_rows(lit_rows(observations@)), classes@),
{
    let mut rows: Vec<Vec<u64>> = Vec::new();
    let mut s: usize = 0;
    while s < observations.len()
        invariant
            s <= observations@.len(),
            rows@.len() == s,
            forall|r: int| 0 <= r < s ==> (#[trigger] rows@[r])@ == codes(observations@[r]@),
        decreases observations.len() - s,
    {
        let mut row: Vec<u64> = Vec::new();
        push_codes(&mut row, &observations[s]);
        assert(row@ =~= codes(observations@[s as int]@));
        rows.push(row);
        s += 1;
    }
    assert(rows_view(rows@) =~= code_rows(lit_rows(observations@)));
    group_signatures(&rows)
}

/// Groups states by their classes and further rows.
fn group_keyed(classes: &Vec<usize>, rows: &Vec<Vec<Lit>>) -> (refined: Vec<usize>)
    requires
        classes@.len() == rows@.len(),
    ensures
        grouped(keyed(classes@, lit_rows(rows@)), refined@),
{
    let mut keys: Vec<Vec<u64>> = Vec::new();
    let mut s: usize = 0;
    while s < rows.len()
        invariant
            s <= rows@.len(),
            classes@.len() == rows@.len(),
            keys@.len() == s,
            forall|r: int|
                0 <= r < s ==> (#[trigger] keys@[r])@ == seq![classes@[r] as u64] + codes(
                    rows@[r]@,
                ),
        decreases rows.len() - s,
    {
        let mut key: Vec<u64> = Vec::new();
        key.push(classes[s] as u64);
        push_codes(&mut key, &rows[s]);
        assert(key@ =~= seq![classes@[s as int] as u64] + codes(rows@[s as int]@));
        keys.push(key);
        s += 1;
    }
    assert(rows_view(keys@) =~= keyed(classes@, lit_rows(rows@)));
    group_signatures(&keys)
}

/// The rows that say where each state goes, class by class.
#[verifier::rlimit(40)]
fn next_classes(
    encoder: &mut WordLogicEncoder,
    next_values: &Vec<Vec<Lit>>,
    states: &Vec<ConstBits>,
    classes: &Vec<usize>,
    Ghost(width): Ghost<nat>,
) -> (result: Result<Vec<Vec<Lit>>, SymbolicError>)
    requires
        old(encoder).wf(),
        forall|s: int| 0 <= s < next_values@.len() ==> (#[trigger] next_values@[s])@.len() == width,
        states@.len() > 0,
        states@.len() == classes@.len(),
        next_values@.len() == states@.len(),
        forall|s: int|
            0 <= s < next_values@.len() ==> lits_ok(
                old(encoder).nodes(),
                (#[trigger] next_values@[s])@,
            ),
        forall|s: int, t: int|
            0 <= s < next_values@.len() && 0 <= t < states@.len() ==> (
            #[trigger] next_values@[s])@.len() == (#[trigger] states@[t])@.len(),
        forall|t: int| 0 <= t < states@.len() ==> all_known((#[trigger] states@[t])@),
    ensures
        final(encoder).wf(),
        final(encoder).outgrows(old(encoder)),
        final(encoder).nodes().len() <= old(encoder).nodes().len() + states@.len() * (states@.len()
            * (width + 192)),
        result matches Ok(rows) ==> signs(
            final(encoder).nodes(),
            lit_rows(next_values@),
            states_view(states@),
            classes@,
            lit_rows(rows@),
        ),
        result matches Err(error) ==> exhausted(final(encoder).nodes(), error),
{
    let ghost start = *encoder;
    let ghost next = lit_rows(next_values@);
    let ghost known = states_view(states@);
    let mut rows: Vec<Vec<Lit>> = Vec::new();
    proof {
        lemma_keeps_values(encoder.nodes(), encoder.nodes());
    }
    let mut s: usize = 0;
    while s < next_values.len()
        invariant
            start == *old(encoder),
            encoder.wf(),
            encoder.outgrows(&start),
            forall|s: int| 0 <= s < next_values@.len() ==> (#[trigger] next_values@[s])@.len() == width,
            encoder.nodes().len() <= start.nodes().len() + s * (states@.len() * (width + 192)),
            next == lit_rows(next_values@),
            known == states_view(states@),
            s <= next_values@.len(),
            rows@.len() == s,
            states@.len() > 0,
            states@.len() == classes@.len(),
            next_values@.len() == states@.len(),
            forall|s: int|
                0 <= s < next_values@.len() ==> lits_ok(
                    encoder.nodes(),
                    (#[trigger] next_values@[s])@,
                ),
            forall|s: int, t: int|
                0 <= s < next_values@.len() && 0 <= t < states@.len() ==> (
                #[trigger] next_values@[s])@.len() == (#[trigger] states@[t])@.len(),
            forall|t: int| 0 <= t < states@.len() ==> all_known((#[trigger] states@[t])@),
            signs(encoder.nodes(), next.take(s as int), known, classes@, lit_rows(rows@)),
        decreases next_values.len() - s,
    {
        let ghost before = *encoder;
        let ghost was = lit_rows(rows@);
        proof {
            lemma_share(s as nat, states@.len(), states@.len() * (width + 192));
        }
        assert(lits_ok(encoder.nodes(), next_values@[s as int]@));
        let row = match encoder.partition(&next_values[s], states, classes) {
            Ok(row) => row,
            Err(error) => {
                return Err(error);
            },
        };
        proof {
            let now = next.take(s + 1);
            assert forall|r: int| 0 <= r < s implies lits_ok(
                before.nodes(),
                #[trigger] next.take(s as int)[r],
            ) by {
                assert(lits_ok(before.nodes(), next_values@[r]@));
            }
            lemma_signs_keep(
                before.nodes(),
                encoder.nodes(),
                next.take(s as int),
                known,
                classes@,
                was,
            );
            assert forall|r: int| 0 <= r < next_values@.len() implies lits_ok(
                encoder.nodes(),
                (#[trigger] next_values@[r])@,
            ) by {
                assert(lits_ok(before.nodes(), next_values@[r]@));
            }
            let after = was.push(row@);
            assert forall|r: int, inputs: Inputs| 0 <= r < after.len() implies #[trigger] lits_value(
                encoder.nodes(),
                inputs,
                after[r],
            ) == bits_of(
                class_of(
                    known,
                    classes@,
                    lits_value(encoder.nodes(), inputs, now[r]),
                    known.len() as int,
                ) as int,
                after[r].len(),
            ) by {
                if r < s {
                    assert(after[r] == was[r]);
                    assert(now[r] == next.take(s as int)[r]);
                    assert(lits_value(encoder.nodes(), inputs, was[r]) == bits_of(
                        class_of(
                            known,
                            classes@,
                            lits_value(encoder.nodes(), inputs, next.take(s as int)[r]),
                            known.len() as int,
                        ) as int,
                        was[r].len(),
                    ));
                } else {
                    assert(now[r] == next_values@[s as int]@);
                    lemma_lits_keep(before.nodes(), encoder.nodes(), now[r], inputs);
                }
            }
            assert forall|r: int, i: int| 0 <= r < after.len() && 0 <= i < classes@.len() implies (
            #[trigger] classes@[i]) < pow2((#[trigger] after[r]).len()) by {
                if r < s {
                    assert(after[r] == was[r]);
                }
            }
            assert forall|r: int| 0 <= r < after.len() implies lits_ok(
                encoder.nodes(),
                #[trigger] after[r],
            ) by {
                if r < s {
                    assert(after[r] == was[r]);
                }
            }
            assert forall|r: int| 0 <= r < after.len() implies row_fixed(
                now[r],
                known,
                classes@,
                #[trigger] after[r],
            ) by {
                if r < s {
                    assert(after[r] == was[r]);
                    assert(now[r] == next.take(s as int)[r]);
                } else {
                    assert(now[r] == next_values@[s as int]@);
                }
            }
            assert(signs(encoder.nodes(), now, known, classes@, after));
        }
        rows.push(row);
        assert(lit_rows(rows@) =~= was.push(row@));
        s += 1;
    }
    assert(next.take(s as int) =~= next);
    Ok(rows)
}


/// Among some states there is a class.
proof fn lemma_first_class(classes: Seq<usize>, count: int)
    requires
        0 < count,
    ensures
        class_count(classes, count) >= 1,
    decreases count,
{
    if count > 1 {
        lemma_first_class(classes, count - 1);
    } else {
        assert(fresh(classes, 0));
    }
}

/// Classes of states that behave alike: the end of a refinement from what is
/// seen in each state, or each state by itself where the graph outgrows its
/// budget.
#[verifier::rlimit(60)]
pub fn merge_states(
    encoder: &mut WordLogicEncoder,
    behavior: &SymbolicBehavior,
    states: &Vec<ConstBits>,
    Ghost(width): Ghost<nat>,
) -> (result: Result<Vec<usize>, SynthError>)
    requires
        old(encoder).wf(),
        forall|s: int|
            0 <= s < behavior.next_values@.len() ==> (#[trigger] behavior.next_values@[s])@.len()
                == width,
        states@.len() > 0,
        behavior.observations@.len() == states@.len(),
        behavior.next_values@.len() == states@.len(),
        forall|s: int|
            0 <= s < states@.len() ==> lits_ok(
                old(encoder).nodes(),
                (#[trigger] behavior.next_values@[s])@,
            ),
        forall|s: int, t: int|
            0 <= s < states@.len() && 0 <= t < states@.len() ==> (
            #[trigger] behavior.next_values@[s])@.len() == (#[trigger] states@[t])@.len(),
        forall|t: int| 0 <= t < states@.len() ==> all_known((#[trigger] states@[t])@),
    ensures
        final(encoder).wf(),
        final(encoder).outgrows(old(encoder)),
        final(encoder).nodes().len() <= old(encoder).nodes().len() + states@.len() * (states@.len() * (
        states@.len() * (width + 192))),
        result matches Ok(classes) ==> settled(
            final(encoder).nodes(),
            lit_rows(behavior.observations@),
            lit_rows(behavior.next_values@),
            states_view(states@),
            classes@,
        ) || (classes@ == apart(states@.len()) && final(encoder).nodes().len() > MAX_SYMBOLIC_NODES
            && old(encoder).nodes().len() + states@.len() * (
        states@.len() * (states@.len() * (width + 192))) > MAX_SYMBOLIC_NODES),
        result is Ok,
{
    let ghost start = *encoder;
    let ghost observations = lit_rows(behavior.observations@);
    let ghost next = lit_rows(behavior.next_values@);
    let ghost known = states_view(states@);
    let count: usize = states.len();
    let mut classes = group_observations(&behavior.observations);
    let ghost mut trace: Seq<Seq<usize>> = seq![classes@];
    let ghost mut rounds: nat = 0;
    let ghost each = states@.len() * (states@.len() * (width + 192));
    proof {
        lemma_first_class(classes@, count as int);
        lemma_keeps_values(encoder.nodes(), encoder.nodes());
        lemma_in_sequence(code_rows(observations), classes@);
        lemma_class_count_bound(classes@, count as int);
    }
    loop
        invariant
            start == *old(encoder),
            encoder.wf(),
            encoder.outgrows(&start),
            forall|s: int|
                0 <= s < behavior.next_values@.len() ==> (#[trigger] behavior.next_values@[s])@.len()
                    == width,
            each == states@.len() * (states@.len() * (width + 192)),
            rounds < class_count(classes@, count as int),
            encoder.nodes().len() <= start.nodes().len() + rounds * each,
            observations == lit_rows(behavior.observations@),
            next == lit_rows(behavior.next_values@),
            known == states_view(states@),
            count == states@.len(),
            count > 0,
            behavior.next_values@.len() == count,
            classes@.len() == count,
            in_sequence(classes@),
            class_count(classes@, count as int) <= count,
            refinement(encoder.nodes(), observations, next, known, trace),
            trace.last() == classes@,
            forall|s: int|
                0 <= s < states@.len() ==> lits_ok(
                    encoder.nodes(),
                    (#[trigger] behavior.next_values@[s])@,
                ),
            forall|s: int, t: int|
                0 <= s < states@.len() && 0 <= t < states@.len() ==> (
                #[trigger] behavior.next_values@[s])@.len() == (#[trigger] states@[t])@.len(),
            forall|t: int| 0 <= t < states@.len() ==> all_known((#[trigger] states@[t])@),
        decreases count - class_count(classes@, count as int),
    {
        let ghost before = *encoder;
        proof {
            lemma_share(rounds, count as nat, each);
        }
        let rows = match next_classes(
            encoder,
            &behavior.next_values,
            states,
            &classes,
            Ghost(width),
        ) {
            Ok(rows) => rows,
            Err(SymbolicError::Unsupported) => {
                let mut single: Vec<usize> = Vec::new();
                let mut s: usize = 0;
                while s < count
                    invariant
                        s <= count,
                        single@ == apart(s as nat),
                    decreases count - s,
                {
                    single.push(s);
                    s += 1;
                    assert(single@ =~= apart(s as nat));
                }
                return Ok(single);
            },
            Err(SymbolicError::Synthesis(error)) => {
                assert(false);
                return Err(error);
            },
        };
        let ghost signed = lit_rows(rows@);
        let refined = group_keyed(&classes, &rows);
        proof {
            assert forall|s: int| 0 <= s < next.len() implies lits_ok(
                before.nodes(),
                #[trigger] next[s],
            ) by {
                assert(lits_ok(before.nodes(), behavior.next_values@[s]@));
            }
            assert forall|s: int| 0 <= s < states@.len() implies lits_ok(
                encoder.nodes(),
                (#[trigger] behavior.next_values@[s])@,
            ) by {
                assert(lits_ok(before.nodes(), behavior.next_values@[s]@));
            }
            lemma_refinement_keep(
                before.nodes(),
                encoder.nodes(),
                observations,
                next,
                known,
                trace,
            );
            lemma_refines_finer(classes@, signed, refined@);
            lemma_in_sequence(keyed(classes@, signed), refined@);
            lemma_class_count_bound(refined@, count as int);
            lemma_finer_counts(classes@, refined@, count as int);
            assert(refines(encoder.nodes(), next, known, classes@, refined@));
        }
        let mut same: bool = true;
        let mut s: usize = 0;
        while s < count
            invariant
                s <= count,
                count == classes@.len(),
                count == refined@.len(),
                same == forall|r: int| 0 <= r < s ==> classes@[r] == #[trigger] refined@[r],
            decreases count - s,
        {
            if classes[s] != refined[s] {
                same = false;
                assert(classes@[s as int] != refined@[s as int]);
            }
            s += 1;
        }
        if same {
            assert(classes@ =~= refined@);
            return Ok(classes);
        }
        proof {
            if class_count(refined@, count as int) == class_count(classes@, count as int) {
                lemma_same_classes(classes@, refined@);
            }
            let longer = trace.push(refined@);
            assert forall|i: int| 0 <= i < longer.len() - 1 implies #[trigger] refined_at(
                encoder.nodes(),
                next,
                known,
                longer,
                i,
            ) by {
                if i < trace.len() - 1 {
                    assert(refined_at(encoder.nodes(), next, known, trace, i));
                } else {
                    assert(longer[i] == classes@ && longer[i + 1] == refined@);
                }
            }
            trace = longer;
            rounds = rounds + 1;
        }
        classes = refined;
    }
}

/// Classes that get their states from a refinement are finer than the seen
/// rows.
proof fn lemma_trace_finer(
    nodes: Seq<LogicNode>,
    observations: Seq<Seq<Lit>>,
    next: Seq<Seq<Lit>>,
    states: Seq<Seq<BitVal>>,
    trace: Seq<Seq<usize>>,
    i: int,
    s: int,
    t: int,
)
    requires
        refinement(nodes, observations, next, states, trace),
        next.len() == observations.len(),
        0 <= i < trace.len(),
        0 <= s < observations.len(),
        0 <= t < observations.len(),
        trace[i][s] == trace[i][t],
    ensures
        trace[i].len() == observations.len(),
        observations[s] == observations[t],
    decreases i,
{
    if i == 0 {
        assert(code_rows(observations)[s] == code_rows(observations)[t]);
        lemma_codes(observations[s], observations[t]);
    } else {
        assert(refined_at(nodes, next, states, trace, i - 1));
        let rows = choose|rows: Seq<Seq<Lit>>| #[trigger]
            signs(nodes, next, states, trace[i - 1], rows) && grouped(
                keyed(trace[i - 1], rows),
                trace[i - 1 + 1],
            );
        let all = keyed(trace[i - 1], rows);
        assert(all[s] == all[t]);
        assert(all[s][0] == trace[i - 1][s] as u64);
        assert(all[t][0] == trace[i - 1][t] as u64);
        lemma_trace_finer(nodes, observations, next, states, trace, i - 1, s, t);
    }
}

/// Merged states behave alike: whatever the inputs are, the same is seen in
/// them, and they go on to states of the same class.
pub proof fn merged_states_behave_alike(
    nodes: Seq<LogicNode>,
    observations: Seq<Seq<Lit>>,
    next: Seq<Seq<Lit>>,
    states: Seq<Seq<BitVal>>,
    classes: Seq<usize>,
    s: int,
    t: int,
    inputs: Inputs,
)
    requires
        settled(nodes, observations, next, states, classes),
        next.len() == observations.len(),
        next.len() == states.len(),
        0 <= s < observations.len(),
        0 <= t < observations.len(),
        classes[s] == classes[t],
    ensures
        lits_value(nodes, inputs, observations[s]) == lits_value(nodes, inputs, observations[t]),
        class_of(states, classes, lits_value(nodes, inputs, next[s]), states.len() as int)
            == class_of(states, classes, lits_value(nodes, inputs, next[t]), states.len() as int),
{
    let trace = choose|trace: Seq<Seq<usize>>| #[trigger]
        refinement(nodes, observations, next, states, trace) && trace.last() == classes;
    lemma_trace_finer(nodes, observations, next, states, trace, trace.len() - 1, s, t);
    let rows = choose|rows: Seq<Seq<Lit>>| #[trigger]
        signs(nodes, next, states, classes, rows) && grouped(keyed(classes, rows), classes);
    lemma_refines_finer(classes, rows, classes);
    assert(rows[s] == rows[t]);
    let width = rows[s].len();
    let a = class_of(states, classes, lits_value(nodes, inputs, next[s]), states.len() as int);
    let b = class_of(states, classes, lits_value(nodes, inputs, next[t]), states.len() as int);
    assert(lits_value(nodes, inputs, rows[s]) == bits_of(a as int, width));
    assert(lits_value(nodes, inputs, rows[t]) == bits_of(b as int, width));
    lemma_class_of(states, classes, lits_value(nodes, inputs, next[s]), states.len() as int);
    lemma_class_of(states, classes, lits_value(nodes, inputs, next[t]), states.len() as int);
    assert(a < pow2(width)) by {
        let i = choose|i: int| 0 <= i < classes.len() && #[trigger] classes[i] == a;
        assert(classes[i] < pow2(rows[s].len()));
    }
    assert(b < pow2(width)) by {
        let i = choose|i: int| 0 <= i < classes.len() && #[trigger] classes[i] == b;
        assert(classes[i] < pow2(rows[s].len()));
    }
    crate::word::bits::lemma_nat_of_bits(a as int, width);
    crate::word::bits::lemma_nat_of_bits(b as int, width);
    vstd::arithmetic::div_mod::lemma_small_mod(a as nat, pow2(width));
    vstd::arithmetic::div_mod::lemma_small_mod(b as nat, pow2(width));
}

/// The class of a word is one of the classes.
proof fn lemma_class_of(states: Seq<Seq<BitVal>>, classes: Seq<usize>, word: Seq<bool>, count: int)
    requires
        classes.len() > 0,
        0 <= count <= classes.len(),
    ensures
        exists|i: int|
            0 <= i < classes.len() && #[trigger] classes[i] == class_of(
                states,
                classes,
                word,
                count,
            ),
    decreases count,
{
    if count <= 0 {
        assert(classes[0] == class_of(states, classes, word, count));
    } else if crate::word::numbers::known_word(states[count - 1]) == word {
        assert(classes[count - 1] == class_of(states, classes, word, count));
    } else {
        lemma_class_of(states, classes, word, count - 1);
    }
}

} // verus!
