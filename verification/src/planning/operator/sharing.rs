//! Sharing arithmetic that is never needed at once.

use crate::error::{Invariant, SynthError};
use crate::word::module::{Connect, KindView, ModuleView, ValueKind, WordModule};
use crate::word::semantics::{word_of, Env};
use crate::word::types::{op_inputs, operation_inputs, OpKind, OpView, SignalId, ValueId};
use crate::word::uses::gathered;
use vstd::prelude::*;

verus! {

/// A condition that is or is not met.
#[derive(Clone, Copy, PartialEq, Eq, Structural, Debug)]
pub struct Literal {
    pub condition: ValueId,
    pub positive: bool,
}

/// Conditions under which a value is needed, ascending.
#[derive(Debug)]
pub struct Activation {
    pub literals: Vec<Literal>,
}

pub open spec fn literals_ascend(literals: Seq<Literal>) -> bool {
    forall|i: int, j: int|
        0 <= i < j < literals.len() ==> (#[trigger] literals[i]).condition.raw < (
        #[trigger] literals[j]).condition.raw
}

/// Two of the conditions are opposites.
pub open spec fn contradictory(left: Seq<Literal>, right: Seq<Literal>) -> bool {
    exists|i: int, j: int|
        0 <= i < left.len() && 0 <= j < right.len() && #[trigger] opposite(left[i], right[j])
}

pub open spec fn opposite(left: Literal, right: Literal) -> bool {
    left.condition == right.condition && left.positive != right.positive
}

/// All conditions are as wanted.
pub open spec fn literals_hold(module: ModuleView, env: Env, literals: Seq<Literal>) -> bool {
    forall|i: int|
        0 <= i < literals.len() ==> word_of(
            module,
            env,
            (#[trigger] literals[i]).condition,
        )[0] == literals[i].positive
}

/// Activations with opposite conditions never hold at once.
pub proof fn exclusive_activations_never_meet(
    module: ModuleView,
    env: Env,
    left: Seq<Literal>,
    right: Seq<Literal>,
)
    requires
        contradictory(left, right),
    ensures
        !(literals_hold(module, env, left) && literals_hold(module, env, right)),
{
    let (i, j) = choose|i: int, j: int|
        0 <= i < left.len() && 0 <= j < right.len() && #[trigger] opposite(left[i], right[j]);
    assert(left[i].condition == right[j].condition);
}

impl Activation {
    /// Puts conditions in order. There is no activation without conditions, or
    /// with conditions that contradict each other.
    pub fn guarded(literals: &Vec<Literal>) -> (result: Option<Self>)
        ensures
            match result {
                Some(activation) => {
                    &&& activation.literals@.len() > 0
                    &&& literals_ascend(activation.literals@)
                    &&& forall|literal: Literal| #[trigger]
                        activation.literals@.contains(literal) <==> literals@.contains(literal)
                    &&& !contradictory(literals@, literals@)
                },
                None => literals@.len() == 0 || contradictory(literals@, literals@),
            },
    {
        let mut row: Vec<Literal> = Vec::new();
        let mut i: usize = 0;
        while i < literals.len()
            invariant
                i <= literals@.len(),
                literals_ascend(row@),
                forall|literal: Literal| #[trigger]
                    row@.contains(literal) <==> literals@.take(i as int).contains(literal),
                i > 0 ==> row@.len() > 0,
            decreases literals.len() - i,
        {
            let literal = literals[i];
            let ghost before = row@;
            let ghost past = literals@.take(i as int);
            let ghost more = literals@.take(i + 1);
            proof {
                assert(more =~= past.push(literal));
                assert forall|other: Literal| #[trigger] more.contains(other) <==> past.contains(
                    other,
                ) || other == literal by {
                    if past.contains(other) {
                        let k = choose|k: int| 0 <= k < past.len() && past[k] == other;
                        assert(more[k] == other);
                    }
                    assert(more[i as int] == literal);
                }
            }
            let mut place: usize = 0;
            while place < row.len() && row[place].condition.raw < literal.condition.raw
                invariant
                    place <= row@.len(),
                    forall|k: int|
                        0 <= k < place ==> (#[trigger] row@[k]).condition.raw
                            < literal.condition.raw,
                decreases row.len() - place,
            {
                place += 1;
            }
            if place < row.len() && row[place].condition.raw == literal.condition.raw {
                if row[place].positive != literal.positive {
                    proof {
                        let held = row@[place as int];
                        assert(row@.contains(held));
                        assert(past.contains(held));
                        let k = choose|k: int| 0 <= k < past.len() && past[k] == held;
                        assert(opposite(literals@[k], literals@[i as int]));
                    }
                    return None;
                }
                assert(row@[place as int] == literal);
                assert(row@.contains(literal));
            } else {
                row.insert(place, literal);
                proof {
                    assert forall|a: int, b: int| 0 <= a < b < row@.len() implies (
                    #[trigger] row@[a]).condition.raw < (#[trigger] row@[b]).condition.raw by {
                        let p = if a < place {
                            a
                        } else {
                            a - 1
                        };
                        let q = if b < place {
                            b
                        } else {
                            b - 1
                        };
                        if a != place && b != place {
                            assert(before[p].condition.raw < before[q].condition.raw);
                        } else if a == place {
                            assert(before[place as int].condition.raw > literal.condition.raw);
                            if q > place {
                                assert(before[place as int].condition.raw
                                    < before[q].condition.raw);
                            }
                        }
                    }
                    assert forall|other: Literal| #[trigger] row@.contains(other)
                        <==> before.contains(other) || other == literal by {
                        if before.contains(other) {
                            let k = choose|k: int| 0 <= k < before.len() && before[k] == other;
                            if k < place {
                                assert(row@[k] == other);
                            } else {
                                assert(row@[k + 1] == other);
                            }
                        }
                        assert(row@[place as int] == literal);
                        if row@.contains(other) && other != literal {
                            let k = choose|k: int| 0 <= k < row@.len() && row@[k] == other;
                            if k < place {
                                assert(before[k] == other);
                            } else {
                                assert(before[k - 1] == other);
                            }
                        }
                    }
                }
            }
            i += 1;
        }
        if row.len() == 0 {
            return None;
        }
        assert(literals@.take(i as int) =~= literals@);
        proof {
            assert(literals@.take(literals@.len() as int) =~= literals@);
            if contradictory(literals@, literals@) {
                let (i, j) = choose|i: int, j: int|
                    0 <= i < literals@.len() && 0 <= j < literals@.len() && #[trigger] opposite(
                        literals@[i],
                        literals@[j],
                    );
                assert(row@.contains(literals@[i]) && row@.contains(literals@[j]));
                let a = choose|a: int| 0 <= a < row@.len() && row@[a] == literals@[i];
                let b = choose|b: int| 0 <= b < row@.len() && row@[b] == literals@[j];
                assert(row@[a].condition == row@[b].condition && a != b);
                assert(false);
            }
        }
        Some(Activation { literals: row })
    }

    /// Whether two activations have opposite conditions.
    pub fn is_exclusive(&self, other: &Self) -> (exclusive: bool)
        ensures
            exclusive == contradictory(self.literals@, other.literals@),
    {
        let mut i: usize = 0;
        while i < self.literals.len()
            invariant
                i <= self.literals@.len(),
                forall|a: int, b: int|
                    0 <= a < i && 0 <= b < other.literals@.len() ==> !#[trigger] opposite(
                        self.literals@[a],
                        other.literals@[b],
                    ),
            decreases self.literals.len() - i,
        {
            let mut j: usize = 0;
            while j < other.literals.len()
                invariant
                    i < self.literals@.len(),
                    j <= other.literals@.len(),
                    forall|b: int|
                        0 <= b < j ==> !#[trigger] opposite(
                            self.literals@[i as int],
                            other.literals@[b],
                        ),
                decreases other.literals.len() - j,
            {
                if self.literals[i].condition.raw == other.literals[j].condition.raw
                    && self.literals[i].positive != other.literals[j].positive {
                    assert(opposite(self.literals@[i as int], other.literals@[j as int]));
                    return true;
                }
                j += 1;
            }
            i += 1;
        }
        false
    }

    pub fn copy(&self) -> (copied: Self)
        ensures
            copied.literals@ == self.literals@,
    {
        let mut literals: Vec<Literal> = Vec::new();
        let mut i: usize = 0;
        while i < self.literals.len()
            invariant
                i <= self.literals@.len(),
                literals@ =~= self.literals@.take(i as int),
            decreases self.literals.len() - i,
        {
            literals.push(self.literals[i]);
            i += 1;
        }
        Activation { literals }
    }
}

/// How a value is used.
#[derive(Clone, Copy, PartialEq, Eq, Structural, Debug)]
pub enum Use {
    Root,
    Next(ValueId),
    Guarded { next: ValueId, literal: Literal },
}

/// The uses of every value.
#[derive(Debug)]
pub struct UseIndex {
    pub rows: Vec<Vec<Use>>,
}

/// The conditions on the only way from a value to a root, if there is only one.
pub open spec fn way_up(rows: Seq<Vec<Use>>, value: ValueId, steps: nat) -> Option<Seq<Literal>>
    decreases steps,
{
    if steps == 0 || value.raw >= rows.len() || rows[value.raw as int]@.len() != 1 {
        None
    } else {
        match rows[value.raw as int]@[0] {
            Use::Root => Some(seq![]),
            Use::Next(next) => way_up(rows, next, (steps - 1) as nat),
            Use::Guarded { next, literal } => match way_up(rows, next, (steps - 1) as nat) {
                Some(rest) => Some(seq![literal] + rest),
                None => None,
            },
        }
    }
}

impl UseIndex {
    /// The conditions under which a value is needed: those on its only way to a
    /// root. A way that runs in a circle never comes to one.
    pub fn activation(&self, start: ValueId) -> (result: Option<Activation>)
        ensures
            match way_up(self.rows@, start, self.rows@.len()) {
                None => result is None,
                Some(literals) => match result {
                    Some(activation) => {
                        &&& activation.literals@.len() > 0
                        &&& literals_ascend(activation.literals@)
                        &&& forall|literal: Literal| #[trigger]
                            activation.literals@.contains(literal) <==> literals.contains(literal)
                        &&& !contradictory(literals, literals)
                    },
                    None => literals.len() == 0 || contradictory(literals, literals),
                },
            },
    {
        let mut literals: Vec<Literal> = Vec::new();
        let mut current = start;
        let mut steps: usize = self.rows.len();
        while steps > 0
            invariant
                steps <= self.rows@.len(),
                way_up(self.rows@, start, self.rows@.len()) == (match way_up(
                    self.rows@,
                    current,
                    steps as nat,
                ) {
                    Some(rest) => Some(literals@ + rest),
                    None => None,
                }),
            decreases steps,
        {
            if current.raw as usize >= self.rows.len() {
                return None;
            }
            let row = &self.rows[current.raw as usize];
            if row.len() != 1 {
                return None;
            }
            match row[0] {
                Use::Root => {
                    assert(literals@ + Seq::<Literal>::empty() =~= literals@);
                    return Activation::guarded(&literals);
                },
                Use::Next(next) => {
                    current = next;
                },
                Use::Guarded { next, literal } => {
                    proof {
                        if way_up(self.rows@, next, (steps - 1) as nat) is Some {
                            let rest = way_up(self.rows@, next, (steps - 1) as nat)->0;
                            assert(literals@ + (seq![literal] + rest) =~= literals@.push(literal)
                                + rest);
                        }
                    }
                    literals.push(literal);
                    current = next;
                },
            }
            steps -= 1;
        }
        None
    }
}

/// How an operation uses its operands.
pub open spec fn operation_uses(kind: OpView, result: ValueId, observed: bool) -> Seq<
    (ValueId, Use),
> {
    match kind {
        OpView::Mux { cond, then_value, else_value } => seq![
            (cond, Use::Next(result)),
            (
                then_value,
                Use::Guarded {
                    next: result,
                    literal: Literal { condition: cond, positive: true },
                },
            ),
            (
                else_value,
                Use::Guarded {
                    next: result,
                    literal: Literal { condition: cond, positive: false },
                },
            ),
        ],
        OpView::Register(_) | OpView::Latch(_) => if observed {
            Seq::new(op_inputs(kind).len(), |i: int| (op_inputs(kind)[i], Use::Root))
        } else {
            seq![]
        },
        _ => Seq::new(op_inputs(kind).len(), |i: int| (op_inputs(kind)[i], Use::Next(result))),
    }
}

/// The reads of a signal among the first values.
pub open spec fn reads_of_signal(module: ModuleView, signal: SignalId, count: nat) -> Seq<ValueId>
    decreases count,
{
    if count == 0 {
        seq![]
    } else {
        let before = reads_of_signal(module, signal, (count - 1) as nat);
        match module.values[count - 1].kind {
            KindView::Signal(reference) => if reference.signal == signal {
                before.push(ValueId { raw: (count - 1) as u32 })
            } else {
                before
            },
            _ => before,
        }
    }
}

/// How a connection uses its values.
pub open spec fn connect_uses(module: ModuleView, connect: Connect, root: bool) -> Seq<
    (ValueId, Use),
> {
    if root {
        seq![(connect.value, Use::Root)] + match connect.target.dynamic {
            Some(dynamic) => seq![(dynamic.offset, Use::Root)],
            None => Seq::<(ValueId, Use)>::empty(),
        }
    } else {
        let reads = reads_of_signal(module, connect.target.signal, module.values.len());
        Seq::new(reads.len(), |i: int| (connect.value, Use::Next(reads[i])))
    }
}

/// All uses in a module.
pub open spec fn module_uses(
    module: ModuleView,
    observed: Seq<bool>,
    root_connects: Seq<bool>,
    roots: Seq<ValueId>,
) -> Seq<(ValueId, Use)> {
    gathered(
        |i: int|
            operation_uses(
                module.operations[i].kind,
                module.operations[i].result,
                observed[module.operations[i].result.raw as int],
            ),
        module.operations.len(),
    ) + gathered(
        |i: int| connect_uses(module, module.connects[i], root_connects[i]),
        module.connects.len(),
    ) + Seq::new(roots.len(), |i: int| (roots[i], Use::Root))
}

/// The uses of one value among others.
pub open spec fn uses_of(entries: Seq<(ValueId, Use)>, value: int) -> Seq<Use>
    decreases entries.len(),
{
    if entries.len() == 0 {
        seq![]
    } else {
        let before = uses_of(entries.drop_last(), value);
        if entries.last().0.raw == value {
            before.push(entries.last().1)
        } else {
            before
        }
    }
}

/// Rows hold the uses of every value.
pub open spec fn indexed(rows: Seq<Vec<Use>>, entries: Seq<(ValueId, Use)>) -> bool {
    forall|v: int| 0 <= v < rows.len() ==> (#[trigger] rows[v])@ == uses_of(entries, v)
}

fn push_use(
    rows: &mut Vec<Vec<Use>>,
    value: ValueId,
    usage: Use,
    Ghost(entries): Ghost<Seq<(ValueId, Use)>>,
)
    requires
        indexed(old(rows)@, entries),
        value.raw < old(rows)@.len(),
    ensures
        final(rows)@.len() == old(rows)@.len(),
        indexed(final(rows)@, entries.push((value, usage))),
{
    let ghost before = rows@;
    let ghost more = entries.push((value, usage));
    let place: usize = value.raw as usize;
    let mut row = rows.remove(place);
    let ghost held = row@;
    row.push(usage);
    rows.insert(place, row);
    proof {
        assert(more.drop_last() =~= entries);
        assert(held == before[place as int]@);
        assert forall|v: int| 0 <= v < rows@.len() implies (#[trigger] rows@[v])@ == uses_of(
            more,
            v,
        ) by {
            if v != place {
                assert(rows@[v] == before[v]);
                assert(before[v]@ == uses_of(entries, v));
            } else {
                assert(held == uses_of(entries, v));
                assert(rows@[v]@ =~= held.push(usage));
            }
        }
    }
}

/// Adds a list of uses.
fn push_uses(
    rows: &mut Vec<Vec<Use>>,
    list: &Vec<(ValueId, Use)>,
    Ghost(entries): Ghost<Seq<(ValueId, Use)>>,
)
    requires
        indexed(old(rows)@, entries),
        forall|i: int|
            0 <= i < list@.len() ==> (#[trigger] list@[i]).0.raw < old(rows)@.len(),
    ensures
        final(rows)@.len() == old(rows)@.len(),
        indexed(final(rows)@, entries + list@),
{
    let ghost count = rows@.len();
    let mut i: usize = 0;
    assert(entries + list@.take(0) =~= entries);
    while i < list.len()
        invariant
            rows@.len() == count,
            i <= list@.len(),
            forall|i: int| 0 <= i < list@.len() ==> (#[trigger] list@[i]).0.raw < count,
            indexed(rows@, entries + list@.take(i as int)),
        decreases list.len() - i,
    {
        let (value, usage) = list[i];
        assert(list@[i as int].0.raw < count);
        push_use(rows, value, usage, Ghost(entries + list@.take(i as int)));
        assert((entries + list@.take(i as int)).push((value, usage)) =~= entries + list@.take(
            i + 1,
        ));
        i += 1;
    }
    assert(list@.take(i as int) =~= list@);
}

fn list_operation_uses(kind: &OpKind, result: ValueId, observed: bool) -> (list: Vec<
    (ValueId, Use),
>)
    ensures
        list@ == operation_uses(kind@, result, observed),
{
    let mut list: Vec<(ValueId, Use)> = Vec::new();
    match kind {
        OpKind::Mux { cond, then_value, else_value } => {
            list.push((*cond, Use::Next(result)));
            list.push(
                (
                    *then_value,
                    Use::Guarded {
                        next: result,
                        literal: Literal { condition: *cond, positive: true },
                    },
                ),
            );
            list.push(
                (
                    *else_value,
                    Use::Guarded {
                        next: result,
                        literal: Literal { condition: *cond, positive: false },
                    },
                ),
            );
            assert(list@ =~= operation_uses(kind@, result, observed));
        },
        _ => {
            let state: bool = match kind {
                OpKind::Register(_) => true,
                OpKind::Latch(_) => true,
                _ => false,
            };
            if state && !observed {
                assert(list@ =~= operation_uses(kind@, result, observed));
                return list;
            }
            let usage = if state {
                Use::Root
            } else {
                Use::Next(result)
            };
            let inputs = operation_inputs(kind);
            let mut i: usize = 0;
            while i < inputs.len()
                invariant
                    i <= inputs@.len(),
                    list@ =~= Seq::new(i as nat, |k: int| (inputs@[k], usage)),
                decreases inputs.len() - i,
            {
                list.push((inputs[i], usage));
                i += 1;
            }
            assert(list@ =~= operation_uses(kind@, result, observed));
        },
    }
    list
}

fn list_connect_uses(module: &WordModule, connect: &Connect, root: bool) -> (list: Vec<
    (ValueId, Use),
>)
    requires
        module@.wf(),
    ensures
        list@ == connect_uses(module@, *connect, root),
{
    let mut list: Vec<(ValueId, Use)> = Vec::new();
    if root {
        list.push((connect.value, Use::Root));
        if let Some(dynamic) = connect.target.dynamic {
            list.push((dynamic.offset, Use::Root));
        }
        assert(list@ =~= connect_uses(module@, *connect, root));
        return list;
    }
    let mut i: usize = 0;
    while i < module.values.len()
        invariant
            module@.wf(),
            i <= module@.values.len(),
            ({
                let reads = reads_of_signal(module@, connect.target.signal, i as nat);
                list@ =~= Seq::new(reads.len(), |k: int| (connect.value, Use::Next(reads[k])))
            }),
        decreases module.values.len() - i,
    {
        assert(module@.values[i as int].kind == module.values@[i as int].kind@);
        if let ValueKind::Signal(reference) = &module.values[i].kind {
            if reference.signal.raw == connect.target.signal.raw {
                list.push((connect.value, Use::Next(ValueId { raw: i as u32 })));
            }
        }
        i += 1;
    }
    list
}

impl UseIndex {
    /// Finds the uses of every value. What is observed comes with the module:
    /// the observed values, the connections that are roots and the other roots.
    #[verifier::rlimit(30)]
    pub fn build(
        module: &WordModule,
        observed: &Vec<bool>,
        root_connects: &Vec<bool>,
        roots: &Vec<ValueId>,
    ) -> (result: Result<Self, SynthError>)
        requires
            module@.wf(),
        ensures
            match result {
                Ok(index) => {
                    &&& index.rows@.len() == module@.values.len()
                    &&& indexed(
                        index.rows@,
                        module_uses(module@, observed@, root_connects@, roots@),
                    )
                },
                Err(error) => error == SynthError::Invariant(Invariant::UnknownValue) && (
                observed@.len() != module@.values.len() || root_connects@.len()
                    != module@.connects.len() || exists|i: int|
                    0 <= i < roots@.len() && !module@.has(#[trigger] roots@[i])),
            },
    {
        if observed.len() != module.values.len() || root_connects.len() != module.connects.len() {
            return Err(SynthError::Invariant(Invariant::UnknownValue));
        }
        let mut rows: Vec<Vec<Use>> = Vec::new();
        let mut v: usize = 0;
        while v < module.values.len()
            invariant
                v <= module@.values.len(),
                rows@.len() == v,
                indexed(rows@, seq![]),
            decreases module.values.len() - v,
        {
            let row: Vec<Use> = Vec::new();
            assert(row@ =~= uses_of(seq![], v as int));
            rows.push(row);
            v += 1;
        }
        let ghost by_operation = |i: int|
            operation_uses(
                module@.operations[i].kind,
                module@.operations[i].result,
                observed@[module@.operations[i].result.raw as int],
            );
        let mut i: usize = 0;
        while i < module.operations.len()
            invariant
                module@.wf(),
                observed@.len() == module@.values.len(),
                i <= module@.operations.len(),
                rows@.len() == module@.values.len(),
                by_operation == (|i: int|
                    operation_uses(
                        module@.operations[i].kind,
                        module@.operations[i].result,
                        observed@[module@.operations[i].result.raw as int],
                    )),
                indexed(rows@, gathered(by_operation, i as nat)),
            decreases module.operations.len() - i,
        {
            proof {
                assert(module@.operation_ok(i as int));
            }
            let operation = &module.operations[i];
            assert(module@.operations[i as int].kind == operation.kind@);
            let list = list_operation_uses(
                &operation.kind,
                operation.result,
                observed[operation.result.raw as usize],
            );
            proof {
                let kind = operation.kind@;
                let inputs = op_inputs(kind);
                assert forall|k: int| 0 <= k < list@.len() implies (#[trigger] list@[k]).0.raw
                    < module@.values.len() by {
                    if kind is Mux {
                        assert(inputs[0] == kind->cond && inputs[1] == kind->then_value
                            && inputs[2] == kind->else_value);
                    } else {
                        assert(list@[k].0 == inputs[k]);
                    }
                }
            }
            push_uses(&mut rows, &list, Ghost(gathered(by_operation, i as nat)));
            assert(gathered(by_operation, (i + 1) as nat) =~= gathered(by_operation, i as nat)
                + list@);
            i += 1;
        }
        let ghost first = gathered(by_operation, module@.operations.len());
        let ghost by_connect = |i: int|
            connect_uses(module@, module@.connects[i], root_connects@[i]);
        let mut c: usize = 0;
        assert(first + gathered(by_connect, 0) =~= first);
        while c < module.connects.len()
            invariant
                module@.wf(),
                root_connects@.len() == module@.connects.len(),
                c <= module@.connects.len(),
                rows@.len() == module@.values.len(),
                by_connect == (|i: int|
                    connect_uses(module@, module@.connects[i], root_connects@[i])),
                indexed(rows@, first + gathered(by_connect, c as nat)),
            decreases module.connects.len() - c,
        {
            assert(module@.connect_ok(module@.connects[c as int]));
            let list = list_connect_uses(module, &module.connects[c], root_connects[c]);
            push_uses(&mut rows, &list, Ghost(first + gathered(by_connect, c as nat)));
            assert(first + gathered(by_connect, (c + 1) as nat) =~= first + gathered(
                by_connect,
                c as nat,
            ) + list@);
            c += 1;
        }
        let ghost second = first + gathered(by_connect, module@.connects.len());
        let mut list: Vec<(ValueId, Use)> = Vec::new();
        let mut r: usize = 0;
        while r < roots.len()
            invariant
                r <= roots@.len(),
                list@ =~= Seq::new(r as nat, |i: int| (roots@[i], Use::Root)),
                forall|k: int|
                    0 <= k < list@.len() ==> (#[trigger] list@[k]).0.raw < module@.values.len(),
            decreases roots.len() - r,
        {
            if roots[r].raw as usize >= module.values.len() {
                assert(!module@.has(roots@[r as int]));
                return Err(SynthError::Invariant(Invariant::UnknownValue));
            }
            list.push((roots[r], Use::Root));
            r += 1;
        }
        push_uses(&mut rows, &list, Ghost(second));
        proof {
            assert(second + list@ =~= module_uses(module@, observed@, root_connects@, roots@));
        }
        Ok(UseIndex { rows })
    }
}

} // verus!
