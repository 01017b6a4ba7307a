//! Sharing arithmetic keeps what is observed.

use super::redirect::{redirects, renaming, uses_redirected};
use super::shared::{
    activated, all_shared, at_places, candidate_ok, group_shared, grouping, needed,
    one_member_is_needed, only_needed, replaced_in, replaces_members, same_candidate, shares_all,
    ShareCandidate, SharedGroup,
};
use super::sharing::{
    connect_uses, literals_hold, module_uses, operation_uses, reads_of_signal, uses_of, way_up,
    Literal, Use, UseIndex,
};
use crate::planning::fsm::invisibility::{
    changed, lemma_gathered_at, lemma_gathered_from, reads_changed, shows,
};
use crate::planning::regional::transfer::{lemma_bits_transfer, lemma_partner, partner, partners};
use crate::word::drivers::{bit_driver, driven, folded_driver, touches, ValueBit};
use crate::word::module::{KindView, ModuleView};
use crate::word::resources::kept;
use crate::word::semantics::{lemma_eval_operation, lemma_op_bits_agree, op_bits, word_of, Env};
use crate::word::types::{is_state, op_inputs, OpView, SignalId, ValueId};
use crate::word::uses::gathered;
use vstd::prelude::*;

verus! {

/// A module before and after its arithmetic was shared, and an environment of each.
pub struct Sharing {
    pub before: ModuleView,
    pub after: ModuleView,
    pub uses: UseIndex,
    pub candidates: Seq<ShareCandidate>,
    pub groups: Seq<SharedGroup>,
    pub replacements: Seq<Option<ValueId>>,
    pub renamed: Seq<ValueId>,
    pub env: Env,
    pub other: Env,
}

impl Sharing {
    /// The word of a value before.
    pub open spec fn old_word(&self, value: ValueId) -> Seq<bool> {
        word_of(self.before, self.env, value)
    }

    /// The word of a value that is there before and after, after.
    pub open spec fn kept_word(&self, value: ValueId) -> Seq<bool> {
        word_of(self.before, self.other, value)
    }

    /// The word of what a value became, after.
    pub open spec fn new_word(&self, value: ValueId) -> Seq<bool> {
        word_of(self.after, self.other, self.renamed[value.raw as int])
    }

    /// What is stored and what is unknown is the same before and after.
    pub open spec fn stores_same(&self) -> bool {
        &&& forall|v: int, i: int| #[trigger] (self.env.state)(v, i) == (self.other.state)(v, i)
        &&& forall|v: int, i: int| #[trigger] (self.env.unknown)(v, i) == (self.other.unknown)(v, i)
    }

    /// A value goes into what another one becomes: over operations, or as a condition under
    /// which one of them is needed.
    pub open spec fn drawn(&self, from: int, value: int) -> bool
        decreases value,
    {
        ||| shows(self.before, from, value)
        ||| exists|g: int, k: int, l: int| #[trigger] self.guards(g, k, l, from, value)
        ||| 0 <= value < self.before.values.len() && match self.before.values[value].kind {
            KindView::Operation(operation) => exists|k: int|
                0 <= k < op_inputs(self.before.operations[operation.raw as int].kind).len()
                    && op_inputs(self.before.operations[operation.raw as int].kind)[k].raw < value
                    && self.drawn(
                    from,
                    (#[trigger] op_inputs(
                        self.before.operations[operation.raw as int].kind,
                    )[k]).raw as int,
                ),
            _ => false,
        }
    }

    /// A value goes into a condition under which a member of a group is needed.
    pub open spec fn guards(&self, g: int, k: int, l: int, from: int, value: int) -> bool {
        &&& replaced_in(self.groups, g, k, value)
        &&& 0 <= l < self.groups[g].members@[k].activation.literals@.len()
        &&& shows(
            self.before,
            from,
            self.groups[g].members@[k].activation.literals@[l].condition.raw as int,
        )
    }

    /// A connection is why a bit of its signal is not the same: it carries another word than
    /// before, and that is made from bits that are not the same only if they come earlier.
    pub open spec fn causes(
        &self,
        rank: spec_fn(int, int) -> nat,
        signal: int,
        bit: int,
        connect: int,
    ) -> bool {
        let value = self.before.connects[connect].value;
        &&& 0 <= connect < self.before.connects.len()
        &&& self.before.connects[connect].target.signal.raw == signal
        &&& self.new_word(value) != self.old_word(value)
        &&& forall|read: int, source: int, place: int|
            self.drawn(read, value.raw as int) && #[trigger] reads_changed(
                self.before,
                self.env,
                self.other,
                read,
                source,
                place,
            ) ==> rank(source, place) < rank(signal, bit)
    }

    /// A bit of a signal is not the same only where a connection to it is why.
    pub open spec fn follows(&self, rank: spec_fn(int, int) -> nat) -> bool {
        forall|signal: int, bit: int|
            0 <= signal < self.before.signals.len() && 0 <= bit
                < self.before.signals[signal].ty.width && #[trigger] changed(
                self.env,
                self.other,
                signal,
                bit,
            ) ==> exists|connect: int| #[trigger] self.causes(rank, signal, bit, connect)
    }

    /// Signals carry their drivers, those without a driver of their own are the same, and no
    /// driver is made from itself: bits that go into it come earlier.
    pub open spec fn carries_drivers(&self, rank: spec_fn(int, int) -> nat) -> bool {
        &&& driven(self.before, self.env)
        &&& driven(self.after, self.other)
        &&& forall|signal: SignalId, bit: int|
            signal.raw < self.before.signals.len() && 0 <= bit
                < self.before.signals[signal.raw as int].ty.width ==> match #[trigger] bit_driver(
                self.before,
                signal,
                bit,
            ) {
                None => !changed(self.env, self.other, signal.raw as int, bit),
                Some(driver) => forall|read: int, source: int, place: int|
                    self.drawn(read, driver.value.raw as int) && #[trigger] reads_changed(
                        self.before,
                        self.env,
                        self.other,
                        read,
                        source,
                        place,
                    ) ==> rank(source, place) < rank(signal.raw as int, bit),
            }
    }

    /// The arithmetic of a module was shared.
    pub open spec fn was_shared(
        &self,
        observed: Seq<bool>,
        root_connects: Seq<bool>,
        roots: Seq<ValueId>,
    ) -> bool {
        &&& kept(self.before, self.after)
        &&& uses_redirected(self.before, self.after, self.replacements, self.renamed)
        &&& replaces_members(self.before, self.groups, self.replacements)
        &&& all_shared(self.before, self.after, self.groups)
        &&& shares_all(
            self.before,
            observed,
            root_connects,
            roots,
            self.uses,
            self.candidates,
            self.groups,
        )
        &&& observed.len() == self.before.values.len()
        &&& root_connects.len() == self.before.connects.len()
    }
}

/// A value on the way from another one, and the conditions up to it.
struct Reached {
    at: ValueId,
    literals: Seq<Literal>,
}

/// Where the only way from a value leads in so many steps.
spec fn up(rows: Seq<Vec<Use>>, value: ValueId, steps: nat) -> Option<Reached>
    decreases steps,
{
    if steps == 0 {
        Some(Reached { at: value, literals: seq![] })
    } else {
        match up(rows, value, (steps - 1) as nat) {
            Some(Reached { at, literals }) => if at.raw < rows.len() && rows[at.raw as int]@.len() == 1 {
                match rows[at.raw as int]@[0] {
                    Use::Root => None,
                    Use::Next(next) => Some(Reached { at: next, literals }),
                    Use::Guarded { next, literal } => Some(
                        Reached { at: next, literals: literals.push(literal) },
                    ),
                }
            } else {
                None
            },
            None => None,
        }
    }
}

proof fn lemma_up_way(rows: Seq<Vec<Use>>, value: ValueId, steps: nat, total: nat) -> (rest: Seq<
    Literal,
>)
    requires
        up(rows, value, steps) is Some,
        way_up(rows, value, total) is Some,
    ensures
        steps <= total,
        way_up(rows, up(rows, value, steps)->0.at, (total - steps) as nat) == Some(rest),
        way_up(rows, value, total)->0 == up(rows, value, steps)->0.literals + rest,
    decreases steps,
{
    if steps == 0 {
        let all = way_up(rows, value, total)->0;
        assert(Seq::<Literal>::empty() + all =~= all);
        all
    } else {
        let before = lemma_up_way(rows, value, (steps - 1) as nat, total);
        let Reached { at, literals } = up(rows, value, (steps - 1) as nat)->0;
        match rows[at.raw as int]@[0] {
            Use::Root => before,
            Use::Next(next) => before,
            Use::Guarded { next, literal } => {
                let rest = way_up(rows, next, (total - steps) as nat)->0;
                assert(before == seq![literal] + rest);
                assert(literals + (seq![literal] + rest) =~= literals.push(literal) + rest);
                rest
            },
        }
    }
}

/// There is one way at most, whatever the steps.
proof fn lemma_one_way(rows: Seq<Vec<Use>>, value: ValueId, a: nat, b: nat)
    requires
        way_up(rows, value, a) is Some,
        way_up(rows, value, b) is Some,
    ensures
        way_up(rows, value, a) == way_up(rows, value, b),
    decreases a,
{
    match rows[value.raw as int]@[0] {
        Use::Root => {},
        Use::Next(next) => {
            lemma_one_way(rows, next, (a - 1) as nat, (b - 1) as nat);
        },
        Use::Guarded { next, literal } => {
            lemma_one_way(rows, next, (a - 1) as nat, (b - 1) as nat);
        },
    }
}

/// A condition on a way comes from a guarded use on it.
proof fn lemma_on_way(rows: Seq<Vec<Use>>, value: ValueId, total: nat, literal: Literal) -> (found: (
    ValueId,
    ValueId,
    nat,
))
    requires
        way_up(rows, value, total) is Some,
        way_up(rows, value, total)->0.contains(literal),
    ensures
        found.0.raw < rows.len(),
        rows[found.0.raw as int]@ == seq![Use::Guarded { next: found.1, literal }],
        way_up(rows, found.1, found.2) is Some,
        forall|other: Literal| #[trigger]
            way_up(rows, found.1, found.2)->0.contains(other) ==> way_up(
                rows,
                value,
                total,
            )->0.contains(other),
    decreases total,
{
    let all = way_up(rows, value, total)->0;
    let row = rows[value.raw as int]@;
    match row[0] {
        Use::Root => (value, value, 0),
        Use::Next(next) => lemma_on_way(rows, next, (total - 1) as nat, literal),
        Use::Guarded { next, literal: own } => {
            let rest = way_up(rows, next, (total - 1) as nat)->0;
            assert(all == seq![own] + rest);
            assert forall|other: Literal| #[trigger] rest.contains(other) implies all.contains(
                other,
            ) by {
                let i = choose|i: int| 0 <= i < rest.len() && rest[i] == other;
                assert(all[i + 1] == other);
            }
            if own == literal {
                assert(row =~= seq![Use::Guarded { next, literal }]);
                (value, next, (total - 1) as nat)
            } else {
                let i = choose|i: int| 0 <= i < all.len() && all[i] == literal;
                assert(rest[i - 1] == literal);
                lemma_on_way(rows, next, (total - 1) as nat, literal)
            }
        },
    }
}

proof fn lemma_uses_of(entries: Seq<(ValueId, Use)>, value: int, i: int)
    requires
        0 <= i < entries.len(),
        entries[i].0.raw == value,
    ensures
        uses_of(entries, value).contains(entries[i].1),
    decreases entries.len(),
{
    let short = entries.drop_last();
    let below = uses_of(short, value);
    let now = uses_of(entries, value);
    if i < short.len() {
        lemma_uses_of(short, value, i);
        assert(short[i] == entries[i]);
        let j = choose|j: int| 0 <= j < below.len() && below[j] == entries[i].1;
        assert(now[j] == entries[i].1);
    } else {
        assert(now[below.len() as int] == entries[i].1);
    }
}

proof fn lemma_use_listed(entries: Seq<(ValueId, Use)>, value: int, usage: Use) -> (i: int)
    requires
        uses_of(entries, value).contains(usage),
    ensures
        0 <= i < entries.len(),
        entries[i].0.raw == value,
        entries[i].1 == usage,
    decreases entries.len(),
{
    let now = uses_of(entries, value);
    let j = choose|j: int| 0 <= j < now.len() && now[j] == usage;
    let short = entries.drop_last();
    let below = uses_of(short, value);
    if entries.last().0.raw == value && j == below.len() {
        entries.len() - 1
    } else {
        assert(below[j] == usage);
        let i = lemma_use_listed(short, value, usage);
        assert(short[i] == entries[i]);
        i
    }
}

proof fn lemma_reads_listed(module: ModuleView, signal: SignalId, count: nat, v: int) -> (i: int)
    requires
        0 <= v < count <= module.values.len(),
        module.values.len() <= u32::MAX,
        module.values[v].kind matches KindView::Signal(reference) && reference.signal == signal,
    ensures
        0 <= i < reads_of_signal(module, signal, count).len(),
        reads_of_signal(module, signal, count)[i].raw == v,
    decreases count,
{
    let below = reads_of_signal(module, signal, (count - 1) as nat);
    if v == count - 1 {
        below.len() as int
    } else {
        lemma_reads_listed(module, signal, (count - 1) as nat, v)
    }
}

/// What is on the ways of members that are not needed, as far as their conditions hold.
spec fn stale_by(sharing: Sharing, g: int, k: int, steps: nat, value: ValueId) -> bool {
    &&& 0 <= g < sharing.groups.len()
    &&& 0 <= k < sharing.groups[g].members@.len()
    &&& !needed(sharing.before, sharing.env, sharing.groups[g].members@[k])
    &&& up(sharing.uses.rows@, sharing.groups[g].members@[k].result, steps) matches Some(reached)
        && reached.at == value && literals_hold(sharing.before, sharing.env, reached.literals)
}

spec fn stale(sharing: Sharing, value: ValueId) -> bool {
    exists|g: int, k: int, steps: nat| #[trigger] stale_by(sharing, g, k, steps, value)
}

impl Sharing {
    /// A member is needed under the conditions on its way.
    proof fn lemma_member_way(
        &self,
        observed: Seq<bool>,
        root_connects: Seq<bool>,
        roots: Seq<ValueId>,
        g: int,
        k: int,
    )
        requires
            self.was_shared(observed, root_connects, roots),
            0 <= g < self.groups.len(),
            0 <= k < self.groups[g].members@.len(),
        ensures
            ({
                let member = self.groups[g].members@[k];
                let rows = self.uses.rows@;
                &&& candidate_ok(self.before, member)
                &&& way_up(rows, member.result, rows.len()) matches Some(literals) && forall|
                    literal: Literal,
                | #[trigger]
                    member.activation.literals@.contains(literal) <==> literals.contains(literal)
            }),
    {
        let member = self.groups[g].members@[k];
        assert(group_shared(self.before, self.after, self.groups[g]));
        assert(candidate_ok(self.before, self.groups[g].members@[k]));
        let places = grouping(
            self.before,
            self.candidates,
            self.candidates.len(),
        ).0;
        assert(at_places(self.candidates, self.groups[g].members@, places[g]));
        let place = places[g][k];
        assert(0 <= place < self.candidates.len());
        assert(same_candidate(member, self.candidates[place]));
        assert(activated(self.before, self.uses, self.candidates[place]));
        assert(self.before.operations[member.operation.raw as int].result == member.result);
    }

    /// What is stale has one use, and a condition above it does not hold.
    proof fn lemma_stale_rest(
        &self,
        observed: Seq<bool>,
        root_connects: Seq<bool>,
        roots: Seq<ValueId>,
        value: ValueId,
    ) -> (total: nat)
        requires
            self.was_shared(observed, root_connects, roots),
            stale(*self, value),
        ensures
            way_up(self.uses.rows@, value, total) is Some,
            !literals_hold(self.before, self.env, way_up(self.uses.rows@, value, total)->0),
    {
        let rows = self.uses.rows@;
        let (g, k, steps) = choose|g: int, k: int, steps: nat| #[trigger]
            stale_by(*self, g, k, steps, value);
        let member = self.groups[g].members@[k];
        self.lemma_member_way(observed, root_connects, roots, g, k);
        let rest = lemma_up_way(rows, member.result, steps, rows.len());
        let all = way_up(rows, member.result, rows.len())->0;
        let literals = member.activation.literals@;
        let passed = up(rows, member.result, steps)->0.literals;
        let i = choose|i: int|
            0 <= i < literals.len() && word_of(
                self.before,
                self.env,
                (#[trigger] literals[i]).condition,
            )[0] != literals[i].positive;
        assert(literals.contains(literals[i]));
        assert(all.contains(literals[i]));
        let j = choose|j: int| 0 <= j < all.len() && all[j] == literals[i];
        if j < passed.len() {
            assert(passed[j] == literals[i]);
        } else {
            assert(rest[j - passed.len()] == literals[i]);
        }
        (rows.len() - steps) as nat
    }

    /// The only use of what is stale decides what else is.
    proof fn lemma_stale_use(
        &self,
        observed: Seq<bool>,
        root_connects: Seq<bool>,
        roots: Seq<ValueId>,
        value: ValueId,
        i: int,
    )
        requires
            self.was_shared(observed, root_connects, roots),
            stale(*self, value),
            0 <= i < module_uses(self.before, observed, root_connects, roots).len(),
            module_uses(self.before, observed, root_connects, roots)[i].0 == value,
        ensures
            match module_uses(self.before, observed, root_connects, roots)[i].1 {
                Use::Root => false,
                Use::Next(next) => stale(*self, next),
                Use::Guarded { next, literal } => word_of(
                    self.before,
                    self.env,
                    literal.condition,
                )[0] == literal.positive ==> stale(*self, next),
            },
    {
        let rows = self.uses.rows@;
        let entries = module_uses(self.before, observed, root_connects, roots);
        let total = self.lemma_stale_rest(observed, root_connects, roots, value);
        assert(value.raw < rows.len() && rows[value.raw as int]@.len() == 1);
        lemma_uses_of(entries, value.raw as int, i);
        assert(rows[value.raw as int]@ == uses_of(entries, value.raw as int));
        let usage = entries[i].1;
        assert(rows[value.raw as int]@[0] == usage);
        let (g, k, steps) = choose|g: int, k: int, steps: nat| #[trigger]
            stale_by(*self, g, k, steps, value);
        let member = self.groups[g].members@[k];
        let passed = up(rows, member.result, steps)->0.literals;
        match usage {
            Use::Root => {
                assert(way_up(rows, value, total) == Some(Seq::<Literal>::empty()));
            },
            Use::Next(next) => {
                assert(up(rows, member.result, steps + 1) == Some(
                    Reached { at: next, literals: passed },
                ));
                assert(stale_by(*self, g, k, steps + 1, next));
            },
            Use::Guarded { next, literal } => {
                if word_of(self.before, self.env, literal.condition)[0] == literal.positive {
                    let more = passed.push(literal);
                    assert(up(rows, member.result, steps + 1) == Some(
                        Reached { at: next, literals: more },
                    ));
                    assert(literals_hold(self.before, self.env, more)) by {
                        assert forall|n: int| 0 <= n < more.len() implies word_of(
                            self.before,
                            self.env,
                            (#[trigger] more[n]).condition,
                        )[0] == more[n].positive by {
                            if n < passed.len() {
                                assert(more[n] == passed[n]);
                            }
                        }
                    }
                    assert(stale_by(*self, g, k, steps + 1, next));
                }
            },
        }
    }

    /// The place of a use by an operation.
    proof fn lemma_operation_use(
        &self,
        observed: Seq<bool>,
        root_connects: Seq<bool>,
        roots: Seq<ValueId>,
        o: int,
        n: int,
    ) -> (i: int)
        requires
            0 <= o < self.before.operations.len(),
            0 <= n < operation_uses(
                self.before.operations[o].kind,
                self.before.operations[o].result,
                observed[self.before.operations[o].result.raw as int],
            ).len(),
        ensures
            0 <= i < module_uses(self.before, observed, root_connects, roots).len(),
            module_uses(self.before, observed, root_connects, roots)[i] == operation_uses(
                self.before.operations[o].kind,
                self.before.operations[o].result,
                observed[self.before.operations[o].result.raw as int],
            )[n],
    {
        let row = |i: int|
            operation_uses(
                self.before.operations[i].kind,
                self.before.operations[i].result,
                observed[self.before.operations[i].result.raw as int],
            );
        lemma_gathered_at(row, self.before.operations.len(), o, n)
    }

    /// The place of a use by a connection.
    proof fn lemma_connect_use(
        &self,
        observed: Seq<bool>,
        root_connects: Seq<bool>,
        roots: Seq<ValueId>,
        c: int,
        n: int,
    ) -> (i: int)
        requires
            0 <= c < self.before.connects.len(),
            0 <= n < connect_uses(self.before, self.before.connects[c], root_connects[c]).len(),
        ensures
            0 <= i < module_uses(self.before, observed, root_connects, roots).len(),
            module_uses(self.before, observed, root_connects, roots)[i] == connect_uses(
                self.before,
                self.before.connects[c],
                root_connects[c],
            )[n],
    {
        let first = gathered(
            |i: int|
                operation_uses(
                    self.before.operations[i].kind,
                    self.before.operations[i].result,
                    observed[self.before.operations[i].result.raw as int],
                ),
            self.before.operations.len(),
        );
        let row = |i: int| connect_uses(self.before, self.before.connects[i], root_connects[i]);
        let k = lemma_gathered_at(row, self.before.connects.len(), c, n);
        first.len() + k
    }

    /// An operation gives another word only if an operand that counts is stale, and its
    /// result is stale with it.
    proof fn lemma_operation_stale(
        &self,
        observed: Seq<bool>,
        root_connects: Seq<bool>,
        roots: Seq<ValueId>,
        v: int,
        g: spec_fn(ValueId) -> Seq<bool>,
    )
        requires
            self.was_shared(observed, root_connects, roots),
            0 <= v < self.before.values.len(),
            self.before.values[v].kind is Operation,
            ({
                let kind = self.before.operations[self.before.values[v].kind->Operation_0.raw as int].kind;
                &&& !is_state(kind)
                &&& op_bits(
                    self.before,
                    self.other,
                    v,
                    kind,
                    self.before.values[v].ty,
                    g,
                ) != self.old_word(ValueId { raw: v as u32 })
                &&& forall|i: int|
                    0 <= i < op_inputs(kind).len() && g(#[trigger] op_inputs(kind)[i])
                        != self.old_word(op_inputs(kind)[i]) ==> stale(*self, op_inputs(kind)[i])
            }),
        ensures
            stale(*self, ValueId { raw: v as u32 }),
    {
        let before = self.before;
        assert(before.value_ok(v));
        let o = before.values[v].kind->Operation_0.raw as int;
        assert(before.operation_ok(o));
        let kind = before.operations[o].kind;
        let ty = before.values[v].ty;
        let inputs = op_inputs(kind);
        let value = ValueId { raw: v as u32 };
        let f = |operand: ValueId| word_of(before, self.env, operand);
        assert(before.operations[o].result == value);
        lemma_eval_operation(before, self.env, v);
        assert(self.old_word(value) == op_bits(before, self.env, v, kind, ty, f));
        assert(op_bits(before, self.env, v, kind, ty, f) == op_bits(
            before,
            self.other,
            v,
            kind,
            ty,
            f,
        ));
        if let OpView::Mux { cond, then_value, else_value } = kind {
            assert(inputs[0] == cond && inputs[1] == then_value && inputs[2] == else_value);
            if g(cond) != f(cond) {
                assert(g(inputs[0]) != self.old_word(inputs[0]));
                let i = self.lemma_operation_use(observed, root_connects, roots, o, 0);
                self.lemma_stale_use(observed, root_connects, roots, cond, i);
            } else if f(cond)[0] {
                assert(g(inputs[1]) != self.old_word(inputs[1]));
                let i = self.lemma_operation_use(observed, root_connects, roots, o, 1);
                self.lemma_stale_use(observed, root_connects, roots, then_value, i);
            } else {
                assert(g(inputs[2]) != self.old_word(inputs[2]));
                let i = self.lemma_operation_use(observed, root_connects, roots, o, 2);
                self.lemma_stale_use(observed, root_connects, roots, else_value, i);
            }
        } else {
            if forall|i: int| 0 <= i < inputs.len() ==> f(#[trigger] inputs[i]) == g(inputs[i]) {
                lemma_op_bits_agree(before, before, self.other, v, kind, ty, f, g);
            }
            let n = choose|i: int| 0 <= i < inputs.len() && f(#[trigger] inputs[i]) != g(inputs[i]);
            assert(g(inputs[n]) != self.old_word(inputs[n]));
            assert(stale(*self, inputs[n]));
            let i = self.lemma_operation_use(observed, root_connects, roots, o, n);
            self.lemma_stale_use(observed, root_connects, roots, inputs[n], i);
        }
    }

    /// A read of a bit that is not the same is stale.
    proof fn lemma_read_stale(
        &self,
        observed: Seq<bool>,
        root_connects: Seq<bool>,
        roots: Seq<ValueId>,
        v: int,
        connect: int,
    )
        requires
            self.was_shared(observed, root_connects, roots),
            0 <= v < self.before.values.len(),
            0 <= connect < self.before.connects.len(),
            self.before.values[v].kind matches KindView::Signal(reference) && reference.signal
                == self.before.connects[connect].target.signal,
            stale(*self, self.before.connects[connect].value),
        ensures
            stale(*self, ValueId { raw: v as u32 }),
    {
        let before = self.before;
        let value = before.connects[connect].value;
        if root_connects[connect] {
            let i = self.lemma_connect_use(observed, root_connects, roots, connect, 0);
            self.lemma_stale_use(observed, root_connects, roots, value, i);
        } else {
            let n = lemma_reads_listed(
                before,
                before.connects[connect].target.signal,
                before.values.len(),
                v,
            );
            let i = self.lemma_connect_use(observed, root_connects, roots, connect, n);
            self.lemma_stale_use(observed, root_connects, roots, value, i);
        }
    }

    /// The conditions of a member that is needed are not stale.
    proof fn lemma_condition_fresh(
        &self,
        observed: Seq<bool>,
        root_connects: Seq<bool>,
        roots: Seq<ValueId>,
        g: int,
        k: int,
        l: int,
    )
        requires
            self.was_shared(observed, root_connects, roots),
            0 <= g < self.groups.len(),
            0 <= k < self.groups[g].members@.len(),
            0 <= l < self.groups[g].members@[k].activation.literals@.len(),
            needed(self.before, self.env, self.groups[g].members@[k]),
        ensures
            !stale(*self, self.groups[g].members@[k].activation.literals@[l].condition),
    {
        let rows = self.uses.rows@;
        let entries = module_uses(self.before, observed, root_connects, roots);
        let member = self.groups[g].members@[k];
        let literals = member.activation.literals@;
        let literal = literals[l];
        self.lemma_member_way(observed, root_connects, roots, g, k);
        let all = way_up(rows, member.result, rows.len())->0;
        assert(literals.contains(literal));
        let (at, next, total) = lemma_on_way(rows, member.result, rows.len(), literal);
        let usage = Use::Guarded { next, literal };
        assert(rows[at.raw as int]@[0] == usage);
        assert(uses_of(entries, at.raw as int).contains(usage));
        let i = lemma_use_listed(entries, at.raw as int, usage);
        let row = |i: int|
            operation_uses(
                self.before.operations[i].kind,
                self.before.operations[i].result,
                observed[self.before.operations[i].result.raw as int],
            );
        let first = gathered(row, self.before.operations.len());
        let connects = |i: int|
            connect_uses(self.before, self.before.connects[i], root_connects[i]);
        let second = gathered(connects, self.before.connects.len());
        let third = Seq::new(roots.len(), |i: int| (roots[i], Use::Root));
        assert(entries == first + second + third);
        if i >= first.len() + second.len() {
            assert(entries[i] == third[i - first.len() - second.len()]);
            assert(false);
        } else if i >= first.len() {
            let (c, n) = lemma_gathered_from(
                connects,
                self.before.connects.len(),
                i - first.len(),
            );
            assert(connects(c)[n] == entries[i]);
            assert(false);
        } else {
            let (o, n) = lemma_gathered_from(row, self.before.operations.len(), i);
            assert(row(o)[n].1 == usage);
            let kind = self.before.operations[o].kind;
            assert(kind is Mux && kind->cond == literal.condition
                && self.before.operations[o].result == next);
            if stale(*self, literal.condition) {
                let place = self.lemma_operation_use(observed, root_connects, roots, o, 0);
                self.lemma_stale_use(observed, root_connects, roots, literal.condition, place);
                assert(stale(*self, next));
                let steps = self.lemma_stale_rest(observed, root_connects, roots, next);
                lemma_one_way(rows, next, steps, total);
                let rest = way_up(rows, next, total)->0;
                let j = choose|j: int|
                    0 <= j < rest.len() && word_of(
                        self.before,
                        self.env,
                        (#[trigger] rest[j]).condition,
                    )[0] != rest[j].positive;
                assert(rest.contains(rest[j]));
                assert(all.contains(rest[j]));
                assert(literals.contains(rest[j]));
                let m = choose|m: int| 0 <= m < literals.len() && literals[m] == rest[j];
                assert(word_of(self.before, self.env, literals[m].condition)[0]
                    == literals[m].positive);
            }
        }
    }

    /// A value whose word is not the same after, though it is made as before, is stale.
    proof fn lemma_kept_stale(
        &self,
        observed: Seq<bool>,
        root_connects: Seq<bool>,
        roots: Seq<ValueId>,
        rank: spec_fn(int, int) -> nat,
        bound: nat,
        v: int,
    )
        requires
            self.was_shared(observed, root_connects, roots),
            self.stores_same(),
            self.follows(rank),
            0 <= v < self.before.values.len(),
            forall|read: int, source: int, place: int|
                shows(self.before, read, v) && #[trigger] reads_changed(
                    self.before,
                    self.env,
                    self.other,
                    read,
                    source,
                    place,
                ) ==> rank(source, place) < bound,
            self.kept_word(ValueId { raw: v as u32 }) != self.old_word(ValueId { raw: v as u32 }),
        ensures
            stale(*self, ValueId { raw: v as u32 }),
        decreases bound, 1int, v,
    {
        let before = self.before;
        let value = ValueId { raw: v as u32 };
        assert(before.value_ok(v));
        match before.values[v].kind {
            KindView::Signal(reference) => {
                self.lemma_changed_stale(observed, root_connects, roots, rank, bound, v);
            },
            KindView::Constant(bits) => {
                assert(self.kept_word(value) =~= self.old_word(value)) by {
                    assert forall|i: int| 0 <= i < bits.len() implies self.kept_word(value)[i]
                        == self.old_word(value)[i] by {
                        assert((self.env.unknown)(v, i) == (self.other.unknown)(v, i));
                    }
                }
            },
            KindView::Operation(operation) => {
                let o = operation.raw as int;
                assert(before.operation_ok(o));
                let kind = before.operations[o].kind;
                if is_state(kind) {
                    let a = self.kept_word(value);
                    let b = self.old_word(value);
                    assert(a =~= b) by {
                        assert forall|i: int| 0 <= i < a.len() implies a[i] == b[i] by {
                            assert((self.env.state)(v, i) == (self.other.state)(v, i));
                        }
                    }
                } else {
                    let inputs = op_inputs(kind);
                    let g = |operand: ValueId| word_of(before, self.other, operand);
                    lemma_eval_operation(before, self.other, v);
                    assert forall|i: int|
                        0 <= i < inputs.len() && g(#[trigger] inputs[i]) != self.old_word(
                            inputs[i],
                        ) implies stale(*self, inputs[i]) by {
                        let u = inputs[i].raw as int;
                        assert(inputs[i].raw < v);
                        assert forall|read: int, source: int, place: int|
                            shows(before, read, u) && #[trigger] reads_changed(
                                before,
                                self.env,
                                self.other,
                                read,
                                source,
                                place,
                            ) implies rank(source, place) < bound by {
                            assert(shows(before, read, v));
                        }
                        assert(ValueId { raw: u as u32 } == inputs[i]);
                        self.lemma_kept_stale(observed, root_connects, roots, rank, bound, u);
                    }
                    self.lemma_operation_stale(observed, root_connects, roots, v, g);
                }
            },
        }
    }

    /// A read whose word is not the same after is stale.
    proof fn lemma_changed_stale(
        &self,
        observed: Seq<bool>,
        root_connects: Seq<bool>,
        roots: Seq<ValueId>,
        rank: spec_fn(int, int) -> nat,
        bound: nat,
        v: int,
    )
        requires
            self.was_shared(observed, root_connects, roots),
            self.stores_same(),
            self.follows(rank),
            0 <= v < self.before.values.len(),
            self.before.values[v].kind is Signal,
            forall|source: int, place: int| #[trigger]
                reads_changed(self.before, self.env, self.other, v, source, place) ==> rank(
                    source,
                    place,
                ) < bound,
            self.kept_word(ValueId { raw: v as u32 }) != self.old_word(ValueId { raw: v as u32 }),
        ensures
            stale(*self, ValueId { raw: v as u32 }),
        decreases bound, 0int, 0int,
    {
        let before = self.before;
        let value = ValueId { raw: v as u32 };
        assert(before.value_ok(v));
        let reference = before.values[v].kind->Signal_0;
        let a = self.old_word(value);
        let b = self.kept_word(value);
        assert(a.len() == b.len());
        if forall|i: int| 0 <= i < a.len() ==> a[i] == b[i] {
            assert(a =~= b);
        }
        let i = choose|i: int| 0 <= i < a.len() && a[i] != b[i];
        let signal = reference.signal.raw as int;
        let bit = reference.lsb + i;
        assert(changed(self.env, self.other, signal, bit));
        assert(reads_changed(before, self.env, self.other, v, signal, bit));
        let connect = choose|connect: int| #[trigger] self.causes(rank, signal, bit, connect);
        let from = before.connects[connect].value;
        assert(before.connect_ok(before.connects[connect]));
        assert(ValueId { raw: from.raw as int as u32 } == from);
        self.lemma_new_stale(
            observed,
            root_connects,
            roots,
            rank,
            rank(signal, bit),
            from.raw as int,
        );
        self.lemma_read_stale(observed, root_connects, roots, v, connect);
    }

    /// A value that becomes one of another word is stale.
    proof fn lemma_new_stale(
        &self,
        observed: Seq<bool>,
        root_connects: Seq<bool>,
        roots: Seq<ValueId>,
        rank: spec_fn(int, int) -> nat,
        bound: nat,
        v: int,
    )
        requires
            self.was_shared(observed, root_connects, roots),
            self.stores_same(),
            self.follows(rank),
            0 <= v < self.before.values.len(),
            forall|read: int, source: int, place: int|
                self.drawn(read, v) && #[trigger] reads_changed(
                    self.before,
                    self.env,
                    self.other,
                    read,
                    source,
                    place,
                ) ==> rank(source, place) < bound,
            self.new_word(ValueId { raw: v as u32 }) != self.old_word(ValueId { raw: v as u32 }),
        ensures
            stale(*self, ValueId { raw: v as u32 }),
        decreases bound, 3int, v,
    {
        let before = self.before;
        let after = self.after;
        let value = ValueId { raw: v as u32 };
        let to = self.renamed[v];
        assert(before.value_ok(v));
        assert(redirects(before, after, self.replacements, self.renamed, v));
        assert forall|read: int, source: int, place: int|
            shows(before, read, v) && #[trigger] reads_changed(
                before,
                self.env,
                self.other,
                read,
                source,
                place,
            ) implies rank(source, place) < bound by {
            assert(self.drawn(read, v));
        }
        let replaced = self.replacements[v] is Some && after.has(self.replacements[v]->0)
            && after.ty(self.replacements[v]->0) == before.values[v].ty;
        if replaced {
            let (g, k) = choose|g: int, k: int|
                #[trigger] replaced_in(self.groups, g, k, v) && self.groups[g].rewrite.replacement
                    == self.replacements[v]->0;
            let member = self.groups[g].members@[k];
            assert(member.result == value);
            if needed(before, self.env, member) {
                self.lemma_needed_stale(observed, root_connects, roots, rank, bound, v, g, k);
            } else {
                assert(up(self.uses.rows@, member.result, 0) == Some(
                    Reached { at: value, literals: Seq::empty() },
                ));
                assert(stale_by(*self, g, k, 0, value));
            }
        } else if to.raw == v {
            assert(to == value);
            assert(self.new_word(value) == self.kept_word(value));
            self.lemma_kept_stale(observed, root_connects, roots, rank, bound, v);
        } else {
            let o = before.values[v].kind->Operation_0.raw as int;
            assert(before.operation_ok(o));
            let kind = before.operations[o].kind;
            let inputs = op_inputs(kind);
            let ty = before.values[v].ty;
            let g = |operand: ValueId| word_of(after, self.other, self.renamed[operand.raw as int]);
            let local = |operand: ValueId| word_of(after, self.other, operand);
            let f = partners(inputs, inputs.map_values(renaming(self.renamed)));
            assert forall|i: int| 0 <= i < inputs.len() implies f(#[trigger] inputs[i])
                == self.renamed[inputs[i].raw as int] by {
                let mapped = inputs.map_values(renaming(self.renamed));
                lemma_partner(inputs, mapped, inputs[i], 0);
                let n = choose|n: int|
                    0 <= n < inputs.len() && #[trigger] inputs[n] == inputs[i] && mapped[n]
                        == partner(
                        inputs,
                        mapped,
                        inputs[i],
                        0,
                    );
                assert(mapped[n] == self.renamed[inputs[n].raw as int]);
            }
            assert forall|i: int| 0 <= i < inputs.len() implies after.ty(f(#[trigger] inputs[i]))
                == before.ty(inputs[i]) by {
                self.lemma_renamed_type(observed, root_connects, roots, inputs[i]);
            }
            assert forall|i: int| 0 <= i < inputs.len() implies local(f(#[trigger] inputs[i])) == g(
                inputs[i],
            ) by {}
            assert(after.value_ok(to.raw as int));
            lemma_eval_operation(after, self.other, to.raw as int);
            lemma_bits_transfer(
                before,
                after,
                self.other,
                self.other,
                v,
                to.raw as int,
                kind,
                f,
                ty,
                g,
                local,
            );
            assert(self.new_word(value) == op_bits(before, self.other, v, kind, ty, g));
            assert forall|i: int|
                0 <= i < inputs.len() && g(#[trigger] inputs[i]) != self.old_word(
                    inputs[i],
                ) implies stale(*self, inputs[i]) by {
                let u = inputs[i].raw as int;
                assert(inputs[i].raw < v);
                assert(ValueId { raw: u as u32 } == inputs[i]);
                assert forall|read: int, source: int, place: int|
                    self.drawn(read, u) && #[trigger] reads_changed(
                        before,
                        self.env,
                        self.other,
                        read,
                        source,
                        place,
                    ) implies rank(source, place) < bound by {
                    assert(self.drawn(read, v));
                }
                self.lemma_new_stale(observed, root_connects, roots, rank, bound, u);
            }
            self.lemma_operation_stale(observed, root_connects, roots, v, g);
        }
    }

    /// A member that is needed and becomes a value of another word is stale.
    proof fn lemma_needed_stale(
        &self,
        observed: Seq<bool>,
        root_connects: Seq<bool>,
        roots: Seq<ValueId>,
        rank: spec_fn(int, int) -> nat,
        bound: nat,
        v: int,
        g: int,
        k: int,
    )
        requires
            self.was_shared(observed, root_connects, roots),
            self.stores_same(),
            self.follows(rank),
            0 <= v < self.before.values.len(),
            forall|read: int, source: int, place: int|
                self.drawn(read, v) && #[trigger] reads_changed(
                    self.before,
                    self.env,
                    self.other,
                    read,
                    source,
                    place,
                ) ==> rank(source, place) < bound,
            replaced_in(self.groups, g, k, v),
            needed(self.before, self.env, self.groups[g].members@[k]),
            word_of(self.after, self.other, self.groups[g].rewrite.replacement) != self.old_word(
                ValueId { raw: v as u32 },
            ),
        ensures
            stale(*self, ValueId { raw: v as u32 }),
        decreases bound, 2int, 0int,
    {
        let before = self.before;
        let value = ValueId { raw: v as u32 };
        let group = self.groups[g].members@;
        let member = group[k];
        let literals = member.activation.literals@;
        assert(group_shared(before, self.after, self.groups[g]));
        assert(candidate_ok(before, group[k]));
        assert forall|l: int| 0 <= l < literals.len() implies word_of(
            before,
            self.other,
            (#[trigger] literals[l]).condition,
        )[0] == literals[l].positive by {
            let condition = literals[l].condition;
            let c = condition.raw as int;
            assert(ValueId { raw: c as u32 } == condition);
            assert(before.has(condition));
            if self.kept_word(condition) != self.old_word(condition) {
                assert forall|read: int, source: int, place: int|
                    shows(before, read, c) && #[trigger] reads_changed(
                        before,
                        self.env,
                        self.other,
                        read,
                        source,
                        place,
                    ) implies rank(source, place) < bound by {
                    assert(self.guards(g, k, l, read, v));
                    assert(self.drawn(read, v));
                }
                self.lemma_kept_stale(observed, root_connects, roots, rank, bound, c);
                self.lemma_condition_fresh(observed, root_connects, roots, g, k, l);
            }
        }
        assert(needed(before, self.other, member));
        one_member_is_needed(before, self.other, group, k);
        assert(only_needed(before, self.other, group, k));
        assert(word_of(self.after, self.other, self.groups[g].rewrite.replacement) == word_of(
            before,
            self.other,
            group[k].result,
        ));
        assert(group[k].result == value);
        assert forall|read: int, source: int, place: int|
            shows(before, read, v) && #[trigger] reads_changed(
                before,
                self.env,
                self.other,
                read,
                source,
                place,
            ) implies rank(source, place) < bound by {
            assert(self.drawn(read, v));
        }
        self.lemma_kept_stale(observed, root_connects, roots, rank, bound, v);
    }

    /// A value becomes one of its type.
    proof fn lemma_renamed_type(
        &self,
        observed: Seq<bool>,
        root_connects: Seq<bool>,
        roots: Seq<ValueId>,
        value: ValueId,
    )
        requires
            self.was_shared(observed, root_connects, roots),
            self.before.has(value),
        ensures
            self.after.ty(self.renamed[value.raw as int]) == self.before.ty(value),
    {
        let v = value.raw as int;
        assert(redirects(self.before, self.after, self.replacements, self.renamed, v));
        if self.renamed[v].raw == v {
            assert(self.after.values[v] == self.before.values[v]);
        }
    }

    /// What drives a bit is what its driver became.
    proof fn lemma_driver_renamed(
        &self,
        observed: Seq<bool>,
        root_connects: Seq<bool>,
        roots: Seq<ValueId>,
        signal: SignalId,
        bit: int,
        count: nat,
    )
        requires
            self.was_shared(observed, root_connects, roots),
            signal.raw < self.before.signals.len(),
            count <= self.before.connects.len(),
        ensures
            ({
                let was = folded_driver(self.before, signal, bit, count);
                let is = folded_driver(self.after, signal, bit, count);
                &&& was.0 == is.0
                &&& match was.1 {
                    None => is.1 is None,
                    Some(driver) => {
                        &&& is.1 == Some(
                            ValueBit {
                                value: self.renamed[driver.value.raw as int],
                                bit: driver.bit,
                            },
                        )
                        &&& exists|c: int|
                            0 <= c < count && (
                            #[trigger] self.before.connects[c]).target.signal == signal
                                && self.before.connects[c].value == driver.value
                    },
                }
            }),
        decreases count,
    {
        if count > 0 {
            let c = count - 1;
            self.lemma_driver_renamed(observed, root_connects, roots, signal, bit, c as nat);
            let connect = self.before.connects[c];
            assert(self.before.connect_ok(connect));
            assert(self.after.connects[c].target == connect.target);
            self.lemma_renamed_type(observed, root_connects, roots, connect.value);
            assert(touches(connect, signal, bit) == touches(self.after.connects[c], signal, bit));
            if touches(connect, signal, bit) {
                assert(self.before.connects[c].target.signal == signal);
            } else {
                let below = folded_driver(self.before, signal, bit, c as nat).1;
                if below is Some {
                    let at = choose|k: int|
                        0 <= k < c && (#[trigger] self.before.connects[k]).target.signal == signal
                            && self.before.connects[k].value == below->0.value;
                    assert(self.before.connects[at].value == below->0.value);
                }
            }
        }
    }

    /// Where signals carry their drivers, connections are why bits are not the same.
    proof fn lemma_drivers_follow(
        &self,
        observed: Seq<bool>,
        root_connects: Seq<bool>,
        roots: Seq<ValueId>,
        rank: spec_fn(int, int) -> nat,
    )
        requires
            self.was_shared(observed, root_connects, roots),
            self.carries_drivers(rank),
        ensures
            self.follows(rank),
    {
        assert forall|signal: int, bit: int|
            0 <= signal < self.before.signals.len() && 0 <= bit
                < self.before.signals[signal].ty.width && #[trigger] changed(
                self.env,
                self.other,
                signal,
                bit,
            ) implies exists|connect: int| #[trigger]
            self.causes(rank, signal, bit, connect) by {
            let id = SignalId { raw: signal as u32 };
            let count = self.before.connects.len();
            let driver = bit_driver(self.before, id, bit)->0;
            assert(bit_driver(self.before, id, bit) is Some);
            self.lemma_driver_renamed(observed, root_connects, roots, id, bit, count);
            assert(bit_driver(self.after, id, bit) is Some);
            let connect = choose|c: int|
                0 <= c < count && (#[trigger] self.before.connects[c]).target.signal == id
                    && self.before.connects[c].value == driver.value;
            assert(self.new_word(driver.value)[driver.bit as int] == (self.other.signal)(
                signal,
                bit,
            ));
            assert(self.old_word(driver.value)[driver.bit as int] == (self.env.signal)(signal, bit));
            assert(self.causes(rank, signal, bit, connect));
        }
    }

    /// No bit is read that ranks above all others.
    proof fn lemma_rank_bound(&self, rank: spec_fn(int, int) -> nat) -> (bound: nat)
        requires
            self.before.wf(),
        ensures
            forall|signal: int, bit: int|
                0 <= signal < self.before.signals.len() && 0 <= bit
                    < self.before.signals[signal].ty.width ==> #[trigger] rank(signal, bit) < bound,
    {
        self.lemma_rank_below(rank, self.before.signals.len())
    }

    proof fn lemma_rank_below(&self, rank: spec_fn(int, int) -> nat, count: nat) -> (bound: nat)
        requires
            count <= self.before.signals.len(),
        ensures
            forall|signal: int, bit: int|
                0 <= signal < count && 0 <= bit < self.before.signals[signal].ty.width
                    ==> #[trigger] rank(signal, bit) < bound,
        decreases count,
    {
        if count == 0 {
            0
        } else {
            let below = self.lemma_rank_below(rank, (count - 1) as nat);
            let own = self.lemma_rank_bits(
                rank,
                count - 1,
                self.before.signals[count - 1].ty.width as nat,
            );
            if below <= own {
                own
            } else {
                below
            }
        }
    }

    proof fn lemma_rank_bits(&self, rank: spec_fn(int, int) -> nat, signal: int, count: nat)
        -> (bound: nat)
        ensures
            forall|bit: int| 0 <= bit < count ==> #[trigger] rank(signal, bit) < bound,
        decreases count,
    {
        if count == 0 {
            0
        } else {
            let below = self.lemma_rank_bits(rank, signal, (count - 1) as nat);
            let own = rank(signal, count - 1) + 1;
            if below <= own {
                own
            } else {
                below
            }
        }
    }
}

/// Sharing keeps what is observed: where what is stored is the same and signals differ only for
/// what connections carry, or carry their drivers, the connections that are observed carry the
/// same words and go to the same places, the other observed values have the same words, and so
/// has whatever observed operations with state take in.
pub proof fn sharing_keeps_what_is_observed(
    sharing: Sharing,
    observed: Seq<bool>,
    root_connects: Seq<bool>,
    roots: Seq<ValueId>,
    rank: spec_fn(int, int) -> nat,
)
    requires
        sharing.was_shared(observed, root_connects, roots),
        forall|i: int| 0 <= i < roots.len() ==> sharing.before.has(#[trigger] roots[i]),
        sharing.stores_same(),
        sharing.follows(rank) || sharing.carries_drivers(rank),
    ensures
        forall|c: int|
            0 <= c < sharing.before.connects.len() && root_connects[c] ==> word_of(
                sharing.after,
                sharing.other,
                (#[trigger] sharing.after.connects[c]).value,
            ) == word_of(sharing.before, sharing.env, sharing.before.connects[c].value),
        forall|c: int|
            0 <= c < sharing.before.connects.len() && root_connects[c] && (
            #[trigger] sharing.after.connects[c]).target.dynamic is Some ==> word_of(
                sharing.after,
                sharing.other,
                sharing.after.connects[c].target.dynamic->0.offset,
            ) == word_of(
                sharing.before,
                sharing.env,
                sharing.before.connects[c].target.dynamic->0.offset,
            ),
        forall|i: int|
            0 <= i < roots.len() ==> word_of(sharing.after, sharing.other, #[trigger] roots[i])
                == word_of(sharing.before, sharing.env, roots[i]),
        forall|o: int, n: int|
            0 <= o < sharing.before.operations.len() && is_state(sharing.before.operations[o].kind)
                && observed[sharing.before.operations[o].result.raw as int] && 0 <= n < op_inputs(
                sharing.before.operations[o].kind,
            ).len() ==> word_of(
                sharing.after,
                sharing.other,
                #[trigger] op_inputs(sharing.before.operations[o].kind)[n],
            ) == word_of(
                sharing.before,
                sharing.env,
                op_inputs(sharing.before.operations[o].kind)[n],
            ),
{
    let before = sharing.before;
    let after = sharing.after;
    let entries = module_uses(before, observed, root_connects, roots);
    if !sharing.follows(rank) {
        sharing.lemma_drivers_follow(observed, root_connects, roots, rank);
    }
    let bound = sharing.lemma_rank_bound(rank);
    assert forall|read: int, source: int, place: int| #[trigger]
        reads_changed(before, sharing.env, sharing.other, read, source, place) implies rank(
        source,
        place,
    ) < bound by {
        assert(before.value_ok(read));
    }
    assert forall|c: int| 0 <= c < before.connects.len() && root_connects[c] implies word_of(
        after,
        sharing.other,
        (#[trigger] after.connects[c]).value,
    ) == word_of(before, sharing.env, before.connects[c].value) by {
        let value = before.connects[c].value;
        assert(before.connect_ok(before.connects[c]));
        assert(ValueId { raw: value.raw as int as u32 } == value);
        if sharing.new_word(value) != sharing.old_word(value) {
            sharing.lemma_new_stale(
                observed,
                root_connects,
                roots,
                rank,
                bound,
                value.raw as int,
            );
            let i = sharing.lemma_connect_use(observed, root_connects, roots, c, 0);
            sharing.lemma_stale_use(observed, root_connects, roots, value, i);
        }
    }
    assert forall|c: int|
        0 <= c < before.connects.len() && root_connects[c] && (
        #[trigger] after.connects[c]).target.dynamic is Some implies word_of(
        after,
        sharing.other,
        after.connects[c].target.dynamic->0.offset,
    ) == word_of(before, sharing.env, before.connects[c].target.dynamic->0.offset) by {
        let value = before.connects[c].target.dynamic->0.offset;
        assert(before.connect_ok(before.connects[c]));
        let i = sharing.lemma_connect_use(observed, root_connects, roots, c, 1);
        lemma_observed_kept(sharing, observed, root_connects, roots, rank, bound, value, i);
    }
    assert forall|n: int| 0 <= n < roots.len() implies word_of(
        after,
        sharing.other,
        #[trigger] roots[n],
    ) == word_of(before, sharing.env, roots[n]) by {
        let third = Seq::new(roots.len(), |i: int| (roots[i], Use::Root));
        let i = entries.len() - roots.len() + n;
        assert(entries[i] == third[n]);
        lemma_observed_kept(sharing, observed, root_connects, roots, rank, bound, roots[n], i);
    }
    assert forall|o: int, n: int|
        0 <= o < before.operations.len() && is_state(before.operations[o].kind)
            && observed[before.operations[o].result.raw as int] && 0 <= n < op_inputs(
            before.operations[o].kind,
        ).len() implies word_of(
        after,
        sharing.other,
        #[trigger] op_inputs(before.operations[o].kind)[n],
    ) == word_of(before, sharing.env, op_inputs(before.operations[o].kind)[n]) by {
        assert(before.operation_ok(o));
        let value = op_inputs(before.operations[o].kind)[n];
        assert(value.raw < before.values.len());
        let i = sharing.lemma_operation_use(observed, root_connects, roots, o, n);
        lemma_observed_kept(sharing, observed, root_connects, roots, rank, bound, value, i);
    }
}

/// A value that is observed keeps its word.
proof fn lemma_observed_kept(
    sharing: Sharing,
    observed: Seq<bool>,
    root_connects: Seq<bool>,
    roots: Seq<ValueId>,
    rank: spec_fn(int, int) -> nat,
    bound: nat,
    value: ValueId,
    i: int,
)
    requires
        sharing.was_shared(observed, root_connects, roots),
        sharing.before.has(value),
        sharing.stores_same(),
        sharing.follows(rank),
        forall|read: int, source: int, place: int| #[trigger]
            reads_changed(sharing.before, sharing.env, sharing.other, read, source, place)
                ==> rank(source, place) < bound,
        0 <= i < module_uses(sharing.before, observed, root_connects, roots).len(),
        module_uses(sharing.before, observed, root_connects, roots)[i] == (value, Use::Root),
    ensures
        word_of(sharing.after, sharing.other, value) == word_of(sharing.before, sharing.env, value),
{
    assert(ValueId { raw: value.raw as int as u32 } == value);
    assert(word_of(sharing.after, sharing.other, value) == word_of(
        sharing.before,
        sharing.other,
        value,
    ));
    if sharing.kept_word(value) != sharing.old_word(value) {
        sharing.lemma_kept_stale(observed, root_connects, roots, rank, bound, value.raw as int);
        sharing.lemma_stale_use(observed, root_connects, roots, value, i);
    }
}

} // verus!
