//! States that cannot be told apart are merged.

use super::encoding::grouped;
use super::invisibility::lemma_class_at;
use super::minimization::{code_rows, keyed, refined_at, refinement, row_fixed, settled, signs};
use crate::logic::{constant_row, lit_value, lits_value, Inputs, Lit, LogicNode};
use crate::word::numbers::known_word;
use crate::word::types::BitVal;
use vstd::arithmetic::power2::{lemma_pow2_strictly_increases, pow2};
use vstd::prelude::*;

verus! {

/// A state goes on to a fixed one.
pub open spec fn goes_to(
    nodes: Seq<LogicNode>,
    next: Seq<Seq<Lit>>,
    states: Seq<Seq<BitVal>>,
    from: int,
    to: int,
) -> bool {
    &&& 0 <= from < next.len()
    &&& 0 <= to < states.len()
    &&& constant_row(next[from])
    &&& forall|inputs: Inputs| #[trigger]
        lits_value(nodes, inputs, next[from]) == known_word(states[to])
}

/// Two states go on to states that are one or related.
pub open spec fn go_on_alike(
    nodes: Seq<LogicNode>,
    next: Seq<Seq<Lit>>,
    states: Seq<Seq<BitVal>>,
    related: spec_fn(int, int) -> bool,
    s: int,
    t: int,
) -> bool {
    exists|a: int, b: int| #[trigger]
        goes_to(nodes, next, states, s, a) && #[trigger] goes_to(nodes, next, states, t, b) && (a
            == b || related(a, b))
}

/// In related states the same is seen, and they go on to related states.
pub open spec fn is_alike(
    nodes: Seq<LogicNode>,
    observations: Seq<Seq<Lit>>,
    next: Seq<Seq<Lit>>,
    states: Seq<Seq<BitVal>>,
    related: spec_fn(int, int) -> bool,
) -> bool {
    forall|s: int, t: int| #[trigger]
        related(s, t) ==> {
            &&& 0 <= s < states.len()
            &&& 0 <= t < states.len()
            &&& observations[s] == observations[t]
            &&& go_on_alike(nodes, next, states, related, s, t)
        }
}

/// Rows of one width that are constant and mean the same are the same.
proof fn lemma_constant_rows(nodes: Seq<LogicNode>, left: Seq<Lit>, right: Seq<Lit>, inputs: Inputs)
    requires
        constant_row(left),
        constant_row(right),
        lits_value(nodes, inputs, left) == lits_value(nodes, inputs, right),
    ensures
        left == right,
{
    let a = lits_value(nodes, inputs, left);
    let b = lits_value(nodes, inputs, right);
    assert(a.len() == left.len() && b.len() == right.len());
    assert forall|i: int| 0 <= i < left.len() implies #[trigger] left[i] == right[i] by {
        assert(a[i] == lit_value(nodes, inputs, left[i]));
        assert(b[i] == lit_value(nodes, inputs, right[i]));
        assert(left[i].node == 0 && right[i].node == 0);
    }
    assert(left =~= right);
}

/// Rows that say classes are as wide as the classes need, one as another.
proof fn lemma_rows_wide(
    nodes: Seq<LogicNode>,
    next: Seq<Seq<Lit>>,
    states: Seq<Seq<BitVal>>,
    classes: Seq<usize>,
    rows: Seq<Seq<Lit>>,
    s: int,
    t: int,
)
    requires
        signs(nodes, next, states, classes, rows),
        0 <= s < rows.len(),
        0 <= t < rows.len(),
    ensures
        rows[s].len() >= rows[t].len(),
{
    assert(row_fixed(next[t], states, classes, rows[t]));
    assert(row_fixed(next[s], states, classes, rows[s]));
    if rows[s].len() < rows[t].len() {
        let i = choose|i: int|
            0 <= i < classes.len() && (#[trigger] classes[i]) >= pow2((rows[t].len() - 1) as nat);
        assert(classes[i] < pow2(rows[s].len()));
        if rows[s].len() < rows[t].len() - 1 {
            lemma_pow2_strictly_increases(rows[s].len(), (rows[t].len() - 1) as nat);
        }
    }
}

proof fn lemma_stays_together(
    nodes: Seq<LogicNode>,
    observations: Seq<Seq<Lit>>,
    next: Seq<Seq<Lit>>,
    states: Seq<Seq<BitVal>>,
    trace: Seq<Seq<usize>>,
    related: spec_fn(int, int) -> bool,
    i: int,
    s: int,
    t: int,
)
    requires
        refinement(nodes, observations, next, states, trace),
        next.len() == states.len(),
        observations.len() == states.len(),
        forall|a: int, b: int|
            0 <= a < b < states.len() ==> known_word(#[trigger] states[a]) != known_word(
                #[trigger] states[b],
            ),
        is_alike(nodes, observations, next, states, related),
        related(s, t),
        0 <= i < trace.len(),
    ensures
        trace[i].len() == states.len(),
        trace[i][s] == trace[i][t],
    decreases i,
{
    if i == 0 {
        assert(code_rows(observations)[s] == code_rows(observations)[t]);
    } else {
        lemma_stays_together(nodes, observations, next, states, trace, related, i - 1, s, t);
        let classes = trace[i - 1];
        assert(refined_at(nodes, next, states, trace, i - 1));
        let rows = choose|rows: Seq<Seq<Lit>>| #[trigger]
            signs(nodes, next, states, classes, rows) && grouped(
                keyed(classes, rows),
                trace[i - 1 + 1],
            );
        let (a, b) = choose|a: int, b: int| #[trigger]
            goes_to(nodes, next, states, s, a) && #[trigger] goes_to(nodes, next, states, t, b) && (
            a == b || related(a, b));
        if a != b {
            lemma_stays_together(nodes, observations, next, states, trace, related, i - 1, a, b);
        }
        lemma_class_at(states, classes, a, states.len() as int);
        lemma_class_at(states, classes, b, states.len() as int);
        lemma_rows_wide(nodes, next, states, classes, rows, s, t);
        lemma_rows_wide(nodes, next, states, classes, rows, t, s);
        assert(row_fixed(next[s], states, classes, rows[s]));
        assert(row_fixed(next[t], states, classes, rows[t]));
        let inputs = Inputs { value: |place: int| false };
        assert(lits_value(nodes, inputs, next[s]) == known_word(states[a]));
        assert(lits_value(nodes, inputs, next[t]) == known_word(states[b]));
        assert(lits_value(nodes, inputs, rows[s]) == lits_value(nodes, inputs, rows[t]));
        lemma_constant_rows(nodes, rows[s], rows[t], inputs);
        let all = keyed(classes, rows);
        assert(all[s] == all[t]);
    }
}

/// States in which the same is seen and which go on, from there on, to states in which the
/// same is seen are merged.
pub proof fn alike_states_are_merged(
    nodes: Seq<LogicNode>,
    observations: Seq<Seq<Lit>>,
    next: Seq<Seq<Lit>>,
    states: Seq<Seq<BitVal>>,
    classes: Seq<usize>,
    related: spec_fn(int, int) -> bool,
    s: int,
    t: int,
)
    requires
        settled(nodes, observations, next, states, classes),
        next.len() == states.len(),
        observations.len() == states.len(),
        forall|a: int, b: int|
            0 <= a < b < states.len() ==> known_word(#[trigger] states[a]) != known_word(
                #[trigger] states[b],
            ),
        is_alike(nodes, observations, next, states, related),
        related(s, t),
    ensures
        classes[s] == classes[t],
{
    let trace = choose|trace: Seq<Seq<usize>>| #[trigger]
        refinement(nodes, observations, next, states, trace) && trace.last() == classes;
    lemma_stays_together(
        nodes,
        observations,
        next,
        states,
        trace,
        related,
        trace.len() - 1,
        s,
        t,
    );
}

} // verus!
