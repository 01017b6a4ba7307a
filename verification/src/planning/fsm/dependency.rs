//! How the state of a machine spreads through a module.

use super::observation::FsmObservationCandidate;
use crate::error::{Invariant, SynthError};
use crate::word::drivers::{connected_values, SignalDriverIndex};
use crate::word::module::{KindView, ModuleView, ValueKind, WordModule};
use crate::word::types::{is_state, op_inputs, operation_inputs, OpKind, SignalId, ValueId};
use vstd::prelude::*;

verus! {

/// A value that depends on another, and whether it does so through a signal
/// whose driver is not plain.
#[derive(Clone, Copy, PartialEq, Eq, Structural, Debug)]
pub struct FsmDependencyUser {
    pub value: ValueId,
    pub crosses_unresolved_signal_driver: bool,
}

/// Who depends on a value, and which values read a signal.
pub struct FsmDependencyIndex {
    pub users: Vec<Vec<FsmDependencyUser>>,
    pub signal_references: Vec<Vec<ValueId>>,
}

/// The first value depends on the second, crossing an unresolved driver or
/// not.
pub open spec fn depends(
    module: ModuleView,
    drivers: &SignalDriverIndex,
    user: int,
    value: ValueId,
    crossing: bool,
) -> bool {
    match module.values[user].kind {
        KindView::Constant(_) => false,
        KindView::Operation(operation) => {
            let kind = module.operations[operation.raw as int].kind;
            !crossing && !is_state(kind) && op_inputs(kind).contains(value)
        },
        KindView::Signal(reference) => if drivers.resolves(reference) {
            !crossing && drivers.drives(reference, value)
        } else {
            crossing && connected_values(
                module,
                reference.signal,
                module.connects.len(),
            ).contains(value)
        },
    }
}

pub open spec fn reads(module: ModuleView, value: int, signal: int) -> bool {
    module.values[value].kind matches KindView::Signal(reference) && reference.signal.raw == signal
}

pub open spec fn user_rows(rows: Seq<Vec<FsmDependencyUser>>) -> Seq<Seq<FsmDependencyUser>> {
    rows.map_values(|row: Vec<FsmDependencyUser>| row@)
}

pub open spec fn value_rows(rows: Seq<Vec<ValueId>>) -> Seq<Seq<ValueId>> {
    rows.map_values(|row: Vec<ValueId>| row@)
}

/// What the index says about the first `count` values.
pub open spec fn indexes(
    module: ModuleView,
    drivers: &SignalDriverIndex,
    users: Seq<Seq<FsmDependencyUser>>,
    references: Seq<Seq<ValueId>>,
    count: int,
) -> bool {
    &&& users.len() == module.values.len()
    &&& references.len() == module.signals.len()
    &&& forall|v: int, user: FsmDependencyUser|
        0 <= v < users.len() ==> ((#[trigger] users[v].contains(user)) <==> user.value.raw < count
            && depends(
            module,
            drivers,
            user.value.raw as int,
            ValueId { raw: v as u32 },
            user.crosses_unresolved_signal_driver,
        ))
    &&& forall|s: int, value: ValueId|
        0 <= s < references.len() ==> ((#[trigger] references[s].contains(value))
            <==> value.raw < count && reads(module, value.raw as int, s))
}

/// Adds one user to the rows of several values.
fn push_users(
    rows: &mut Vec<Vec<FsmDependencyUser>>,
    values: &Vec<ValueId>,
    user: FsmDependencyUser,
)
    requires
        old(rows)@.len() <= u32::MAX,
        forall|i: int| 0 <= i < values@.len() ==> (#[trigger] values@[i]).raw < old(rows)@.len(),
    ensures
        final(rows)@.len() == old(rows)@.len(),
        forall|v: int, other: FsmDependencyUser|
            0 <= v < old(rows)@.len() ==> ((#[trigger] user_rows(final(rows)@)[v].contains(other))
                <==> user_rows(old(rows)@)[v].contains(other) || (other == user && values@.contains(
                ValueId { raw: v as u32 },
            ))),
{
    let ghost start = user_rows(rows@);
    let ghost total = rows@.len();
    let mut i: usize = 0;
    assert(values@.take(0) =~= Seq::empty());
    while i < values.len()
        invariant
            i <= values@.len(),
            rows@.len() == total,
            total == start.len(),
            total <= u32::MAX,
            forall|i: int| 0 <= i < values@.len() ==> (#[trigger] values@[i]).raw < total,
            forall|v: int, other: FsmDependencyUser|
                0 <= v < total ==> ((#[trigger] user_rows(rows@)[v].contains(other))
                    <==> start[v].contains(other) || (other == user && values@.take(
                    i as int,
                ).contains(ValueId { raw: v as u32 }))),
        decreases values.len() - i,
    {
        let ghost before = user_rows(rows@);
        let value = values[i];
        let place: usize = value.raw as usize;
        rows[place].push(user);
        proof {
            let after = user_rows(rows@);
            assert(after =~= before.update(place as int, before[place as int].push(user)));
            let now = values@.take(i + 1);
            assert(now =~= values@.take(i as int).push(value));
            assert forall|v: int, other: FsmDependencyUser| 0 <= v < total implies ((
            #[trigger] after[v].contains(other)) <==> start[v].contains(other) || (other == user
                && now.contains(ValueId { raw: v as u32 }))) by {
                lemma_push_contains(before[v], user, other);
                lemma_push_contains(values@.take(i as int), value, ValueId { raw: v as u32 });
                assert(before[v].contains(other) <==> start[v].contains(other) || (other == user
                    && values@.take(i as int).contains(ValueId { raw: v as u32 })));
            }
        }
        i += 1;
    }
    assert(values@.take(i as int) =~= values@);
}

pub proof fn lemma_push_contains<T>(list: Seq<T>, item: T, other: T)
    ensures
        list.push(item).contains(other) <==> list.contains(other) || other == item,
{
    if list.contains(other) {
        let k = choose|k: int| 0 <= k < list.len() && list[k] == other;
        assert(list.push(item)[k] == other);
    }
    assert(list.push(item)[list.len() as int] == item);
}

proof fn lemma_connected_has(module: ModuleView, signal: SignalId, count: nat)
    requires
        module.wf(),
        count <= module.connects.len(),
    ensures
        forall|i: int|
            0 <= i < connected_values(module, signal, count).len() ==> module.has(
                #[trigger] connected_values(module, signal, count)[i],
            ),
    decreases count,
{
    if count > 0 {
        lemma_connected_has(module, signal, (count - 1) as nat);
        assert(module.connect_ok(module.connects[count - 1]));
        let below = connected_values(module, signal, (count - 1) as nat);
        let now = connected_values(module, signal, count);
        assert forall|i: int| 0 <= i < now.len() implies module.has(#[trigger] now[i]) by {
            if i < below.len() {
                assert(now[i] == below[i]);
            }
        }
    }
}

impl FsmDependencyIndex {
    pub open spec fn describes(&self, module: ModuleView, drivers: &SignalDriverIndex) -> bool {
        indexes(
            module,
            drivers,
            user_rows(self.users@),
            value_rows(self.signal_references@),
            module.values.len() as int,
        )
    }

    /// The index of a module.
    #[verifier::rlimit(40)]
    pub fn build(module: &WordModule, drivers: &SignalDriverIndex) -> (index: Self)
        requires
            module@.wf(),
            drivers.describes(module@),
        ensures
            index.describes(module@, drivers),
    {
        let ghost view = module@;
        let mut users: Vec<Vec<FsmDependencyUser>> = Vec::new();
        while users.len() < module.values.len()
            invariant
                view == module@,
                users@.len() <= view.values.len(),
                forall|v: int| 0 <= v < users@.len() ==> (#[trigger] users@[v])@.len() == 0,
            decreases module.values.len() - users.len(),
        {
            users.push(Vec::new());
        }
        let mut references: Vec<Vec<ValueId>> = Vec::new();
        while references.len() < module.signals.len()
            invariant
                view == module@,
                references@.len() <= view.signals.len(),
                forall|v: int|
                    0 <= v < references@.len() ==> (#[trigger] references@[v])@.len() == 0,
            decreases module.signals.len() - references.len(),
        {
            references.push(Vec::new());
        }
        let mut i: usize = 0;
        while i < module.values.len()
            invariant
                view == module@,
                view.wf(),
                drivers.describes(view),
                i <= view.values.len(),
                indexes(view, drivers, user_rows(users@), value_rows(references@), i as int),
            decreases module.values.len() - i,
        {
            let value = ValueId { raw: i as u32 };
            let stored = &module.values[i];
            assert(stored@ == view.values[i as int]);
            assert(view.value_ok(i as int));
            let ghost users_before = user_rows(users@);
            let ghost references_before = value_rows(references@);
            let ghost mut crossing = false;
            let ghost mut sources: Seq<ValueId> = seq![];
            match &stored.kind {
                ValueKind::Constant(_) => {},
                ValueKind::Operation(operation) => {
                    let kind = &module.operations[operation.raw as usize].kind;
                    assert(kind@ == view.operations[operation.raw as int].kind);
                    assert(view.operation_ok(operation.raw as int));
                    match kind {
                        OpKind::Register(_) | OpKind::Latch(_) => {},
                        _ => {
                            let inputs = operation_inputs(kind);
                            proof {
                                sources = inputs@;
                                assert forall|k: int| 0 <= k < inputs@.len() implies (
                                #[trigger] inputs@[k]).raw < users@.len() by {
                                    assert(op_inputs(kind@)[k].raw < i);
                                }
                            }
                            push_users(
                                &mut users,
                                &inputs,
                                FsmDependencyUser {
                                    value,
                                    crosses_unresolved_signal_driver: false,
                                },
                            );
                        },
                    }
                },
                ValueKind::Signal(reference) => {
                    let place: usize = reference.signal.raw as usize;
                    references[place].push(value);
                    assert(value_rows(references@) =~= references_before.update(
                        place as int,
                        references_before[place as int].push(value),
                    ));
                    assert(drivers.bits@[place as int]@.len() == view.signals[place as int].ty.width);
                    match drivers.reference_drivers(*reference) {
                        Some(found) => {
                            proof {
                                sources = found@;
                                assert forall|k: int| 0 <= k < found@.len() implies (
                                #[trigger] found@[k]).raw < users@.len() by {
                                    assert(found@.contains(found@[k]));
                                    assert(drivers.drives(*reference, found@[k]));
                                    lemma_drives_has(view, drivers, *reference, found@[k]);
                                }
                            }
                            push_users(
                                &mut users,
                                &found,
                                FsmDependencyUser {
                                    value,
                                    crosses_unresolved_signal_driver: false,
                                },
                            );
                        },
                        None => {
                            proof {
                                crossing = true;
                                sources = drivers.values@[place as int]@;
                                assert(SignalId { raw: place as int as u32 } == reference.signal);
                                lemma_connected_has(
                                    view,
                                    reference.signal,
                                    view.connects.len(),
                                );
                            }
                            push_users(
                                &mut users,
                                &drivers.values[place],
                                FsmDependencyUser {
                                    value,
                                    crosses_unresolved_signal_driver: true,
                                },
                            );
                        },
                    }
                },
            }
            proof {
                let after = user_rows(users@);
                assert forall|v: int, user: FsmDependencyUser| 0 <= v < after.len() implies ((
                #[trigger] after[v].contains(user)) <==> user.value.raw < i + 1 && depends(
                    view,
                    drivers,
                    user.value.raw as int,
                    ValueId { raw: v as u32 },
                    user.crosses_unresolved_signal_driver,
                )) by {
                    assert(users_before[v].contains(user) <==> user.value.raw < i && depends(
                        view,
                        drivers,
                        user.value.raw as int,
                        ValueId { raw: v as u32 },
                        user.crosses_unresolved_signal_driver,
                    ));
                    assert(after[v].contains(user) <==> users_before[v].contains(user) || (user
                        == (FsmDependencyUser { value, crosses_unresolved_signal_driver: crossing })
                        && sources.contains(ValueId { raw: v as u32 })));
                    assert(user.value.raw == i ==> user.value == value);
                }
                let now = value_rows(references@);
                assert forall|s: int, other: ValueId| 0 <= s < now.len() implies ((
                #[trigger] now[s].contains(other)) <==> other.raw < i + 1 && reads(
                    view,
                    other.raw as int,
                    s,
                )) by {
                    assert(references_before[s].contains(other) <==> other.raw < i && reads(
                        view,
                        other.raw as int,
                        s,
                    ));
                    lemma_push_contains(references_before[s], value, other);
                    assert(other.raw == i ==> other == value);
                }
            }
            i += 1;
        }
        FsmDependencyIndex { users, signal_references: references }
    }
}

proof fn lemma_drives_has(
    module: ModuleView,
    drivers: &SignalDriverIndex,
    reference: crate::word::module::SignalRef,
    value: ValueId,
)
    requires
        module.wf(),
        drivers.describes(module),
        module.signal_ref_ok(reference),
        drivers.drives(reference, value),
    ensures
        module.has(value),
{
    let i = choose|i: int|
        0 <= i < reference.width && (#[trigger] drivers.driver_at(reference, i)) is Some
            && drivers.driver_at(reference, i)->0.value == value;
    let s = reference.signal.raw as int;
    assert(drivers.bits@[s]@[reference.lsb + i] == crate::word::drivers::bit_driver(
        module,
        SignalId { raw: s as u32 },
        reference.lsb + i,
    ));
    crate::word::drivers::lemma_folded_driver(
        module,
        reference.signal,
        reference.lsb + i,
        module.connects.len(),
    );
}

/// The state reaches a value over a number of dependencies; where `crossed` is
/// set, over one that crosses an unresolved driver.
pub open spec fn spreads(
    users: Seq<Seq<FsmDependencyUser>>,
    sources: Seq<ValueId>,
    steps: nat,
    value: int,
    crossed: bool,
) -> bool
    decreases steps,
{
    if steps == 0 {
        !crossed && exists|i: int| 0 <= i < sources.len() && (#[trigger] sources[i]).raw == value
    } else {
        exists|from: int, k: int|
            0 <= from < users.len() && 0 <= k < users[from].len() && (
            #[trigger] users[from][k]).value.raw == value && if crossed {
                (users[from][k].crosses_unresolved_signal_driver && spreads(
                    users,
                    sources,
                    (steps - 1) as nat,
                    from,
                    false,
                )) || spreads(users, sources, (steps - 1) as nat, from, true)
            } else {
                spreads(users, sources, (steps - 1) as nat, from, false)
            }
    }
}

/// The state reaches a value, across an unresolved driver or not.
pub open spec fn influences(
    users: Seq<Seq<FsmDependencyUser>>,
    sources: Seq<ValueId>,
    value: int,
    crossed: bool,
) -> bool {
    exists|steps: nat| #[trigger] spreads(users, sources, steps, value, crossed)
}

/// The values of the candidates that count.
pub open spec fn counted(
    candidates: Seq<FsmObservationCandidate>,
    own: ValueId,
    influenced: spec_fn(int) -> bool,
) -> Seq<ValueId>
    decreases candidates.len(),
{
    if candidates.len() == 0 {
        seq![]
    } else {
        let below = counted(candidates.drop_last(), own, influenced);
        let last = candidates.last();
        if last.excluded_for != Some(own) && influenced(last.value.raw as int) {
            below.push(last.value)
        } else {
            below
        }
    }
}

/// The values at which a machine's state is seen from outside.
pub struct FsmObservationRoots {
    pub values: Vec<ValueId>,
    pub supports_state_merging: bool,
}

impl FsmDependencyIndex {
    /// Every entry names a value.
    pub open spec fn shaped(&self, module: ModuleView) -> bool {
        &&& self.users@.len() == module.values.len()
        &&& self.signal_references@.len() == module.signals.len()
        &&& forall|v: int, k: int|
            0 <= v < self.users@.len() && 0 <= k < self.users@[v]@.len() ==> (
            #[trigger] self.users@[v]@[k]).value.raw < module.values.len()
        &&& forall|s: int, k: int|
            0 <= s < self.signal_references@.len() && 0 <= k < self.signal_references@[s]@.len()
                ==> (#[trigger] self.signal_references@[s]@[k]).raw < module.values.len()
    }

    pub proof fn lemma_shaped(&self, module: ModuleView, drivers: &SignalDriverIndex)
        requires
            self.describes(module, drivers),
        ensures
            self.shaped(module),
    {
        let users = user_rows(self.users@);
        assert forall|v: int, k: int|
            0 <= v < self.users@.len() && 0 <= k < self.users@[v]@.len() implies (
        #[trigger] self.users@[v]@[k]).value.raw < module.values.len() by {
            assert(users[v][k] == self.users@[v]@[k]);
            assert(users[v].contains(users[v][k]));
        }
        let references = value_rows(self.signal_references@);
        assert forall|s: int, k: int|
            0 <= s < self.signal_references@.len() && 0 <= k < self.signal_references@[s]@.len()
            implies (#[trigger] self.signal_references@[s]@[k]).raw < module.values.len() by {
            assert(references[s][k] == self.signal_references@[s]@[k]);
            assert(references[s].contains(references[s][k]));
        }
    }

    pub open spec fn reach(&self, state: SignalId) -> spec_fn(int) -> bool {
        |value: int| self.reaches(state, value, false)
    }

    /// The values that the state of a signal reaches.
    pub open spec fn reaches(&self, state: SignalId, value: int, crossed: bool) -> bool {
        influences(
            user_rows(self.users@),
            self.signal_references@[state.raw as int]@,
            value,
            crossed,
        )
    }
}

/// What is left to raise.
spec fn room(levels: Seq<u8>) -> nat
    decreases levels.len(),
{
    if levels.len() == 0 {
        0
    } else {
        room(levels.drop_last()) + (if levels.last() <= 2 {
            (2 - levels.last()) as nat
        } else {
            0
        })
    }
}

proof fn lemma_room(levels: Seq<u8>, place: int, level: u8)
    requires
        0 <= place < levels.len(),
        levels[place] < level <= 2,
    ensures
        room(levels.update(place, level)) < room(levels),
    decreases levels.len(),
{
    let after = levels.update(place, level);
    if place == levels.len() - 1 {
        assert(after.drop_last() =~= levels.drop_last());
    } else {
        assert(after.drop_last() =~= levels.drop_last().update(place, level));
        lemma_room(levels.drop_last(), place, level);
    }
}

/// The level that a user needs.
pub open spec fn needed(level: u8, user: FsmDependencyUser) -> u8 {
    if level == 2 || user.crosses_unresolved_signal_driver {
        2
    } else {
        1
    }
}

/// Levels that are justified, and final for all values but the pending ones.
spec fn levelled(
    users: Seq<Seq<FsmDependencyUser>>,
    sources: Seq<ValueId>,
    levels: Seq<u8>,
    pending: Seq<ValueId>,
) -> bool {
    &&& levels.len() == users.len()
    &&& forall|v: int| 0 <= v < levels.len() ==> (#[trigger] levels[v]) <= 2
    &&& forall|v: int|
        0 <= v < levels.len() && (#[trigger] levels[v]) >= 1 ==> influences(
            users,
            sources,
            v,
            false,
        )
    &&& forall|v: int|
        0 <= v < levels.len() && (#[trigger] levels[v]) == 2 ==> influences(users, sources, v, true)
    &&& forall|p: int|
        0 <= p < pending.len() ==> (#[trigger] pending[p]).raw < levels.len()
            && levels[pending[p].raw as int] >= 1
    &&& forall|v: int, k: int|
        0 <= v < levels.len() && levels[v] >= 1 && 0 <= k < users[v].len() ==> pending.contains(
            ValueId { raw: v as u32 },
        ) || levels[(#[trigger] users[v][k]).value.raw as int] >= needed(levels[v], users[v][k])
}

proof fn lemma_step(
    users: Seq<Seq<FsmDependencyUser>>,
    sources: Seq<ValueId>,
    from: int,
    k: int,
    crossed: bool,
)
    requires
        0 <= from < users.len(),
        0 <= k < users[from].len(),
        if crossed {
            (users[from][k].crosses_unresolved_signal_driver && influences(
                users,
                sources,
                from,
                false,
            )) || influences(users, sources, from, true)
        } else {
            influences(users, sources, from, false)
        },
    ensures
        influences(users, sources, users[from][k].value.raw as int, crossed),
{
    let over = if crossed && influences(users, sources, from, true) {
        true
    } else {
        false
    };
    let steps = choose|steps: nat| #[trigger] spreads(users, sources, steps, from, over);
    assert(users[from][k].value.raw == users[from][k].value.raw as int);
    assert(spreads(users, sources, steps + 1, users[from][k].value.raw as int, crossed));
}

proof fn lemma_complete(
    users: Seq<Seq<FsmDependencyUser>>,
    sources: Seq<ValueId>,
    levels: Seq<u8>,
    steps: nat,
    value: int,
    crossed: bool,
)
    requires
        levelled(users, sources, levels, seq![]),
        forall|i: int|
            0 <= i < sources.len() ==> (#[trigger] sources[i]).raw < levels.len()
                && levels[sources[i].raw as int] >= 1,
        forall|v: int, k: int|
            0 <= v < users.len() && 0 <= k < users[v].len() ==> (
            #[trigger] users[v][k]).value.raw < users.len(),
        spreads(users, sources, steps, value, crossed),
    ensures
        0 <= value < levels.len(),
        levels[value] >= (if crossed {
            2
        } else {
            1int
        }),
    decreases steps,
{
    if steps == 0 {
        let i = choose|i: int| 0 <= i < sources.len() && (#[trigger] sources[i]).raw == value;
        assert(levels[sources[i].raw as int] >= 1);
    } else {
        let below = (steps - 1) as nat;
        let (from, k) = choose|from: int, k: int|
            0 <= from < users.len() && 0 <= k < users[from].len() && (
            #[trigger] users[from][k]).value.raw == value && if crossed {
                (users[from][k].crosses_unresolved_signal_driver && spreads(
                    users,
                    sources,
                    (steps - 1) as nat,
                    from,
                    false,
                )) || spreads(users, sources, (steps - 1) as nat, from, true)
            } else {
                spreads(users, sources, (steps - 1) as nat, from, false)
            };
        if spreads(users, sources, below, from, true) {
            lemma_complete(users, sources, levels, below, from, true);
        } else {
            lemma_complete(users, sources, levels, below, from, false);
        }
        assert(levels[users[from][k].value.raw as int] >= needed(levels[from], users[from][k]));
    }
}

/// No value of a list is reached across an unresolved driver.
pub open spec fn plainly_seen(
    dependencies: &FsmDependencyIndex,
    state: SignalId,
    values: Seq<ValueId>,
) -> bool {
    forall|i: int|
        0 <= i < values.len() ==> !dependencies.reaches(
            state,
            (#[trigger] values[i]).raw as int,
            true,
        )
}

/// Where the state of a machine is seen, and whether every such place is
/// reached over plain drivers alone.
#[verifier::rlimit(60)]
pub fn fsm_observation_roots(
    module: &WordModule,
    state: SignalId,
    register_result: ValueId,
    candidates: &Vec<FsmObservationCandidate>,
    dependencies: &FsmDependencyIndex,
) -> (result: Result<FsmObservationRoots, SynthError>)
    requires
        module@.wf(),
        state.raw < module@.signals.len(),
        dependencies.shaped(module@),
    ensures
        result is Err <==> exists|i: int|
            0 <= i < candidates@.len() && (#[trigger] candidates@[i]).excluded_for != Some(
                register_result,
            ) && !module@.has(candidates@[i].value),
        result matches Err(error) ==> error == SynthError::Invariant(Invariant::UnknownValue),
        result matches Ok(roots) ==> {
            &&& roots.values@ == counted(
                candidates@,
                register_result,
                dependencies.reach(state),
            )
            &&& roots.supports_state_merging <==> plainly_seen(
                dependencies,
                state,
                roots.values@,
            )
        },
{
    let ghost view = module@;
    let ghost users = user_rows(dependencies.users@);
    let ghost sources = dependencies.signal_references@[state.raw as int]@;
    let count: usize = module.values.len();
    let mut levels: Vec<u8> = Vec::new();
    levels.resize(count, 0);
    let mut pending: Vec<ValueId> = Vec::new();
    let references = &dependencies.signal_references[state.raw as usize];
    let mut i: usize = 0;
    while i < references.len()
        invariant
            view.wf(),
            count == view.values.len(),
            users == user_rows(dependencies.users@),
            dependencies.shaped(view),
            references@ == sources,
            i <= sources.len(),
            users.len() == count,
            levelled(users, sources, levels@, pending@),
            forall|k: int| 0 <= k < sources.len() ==> (#[trigger] sources[k]).raw < count,
            forall|k: int| 0 <= k < i ==> levels@[(#[trigger] sources[k]).raw as int] >= 1,
            forall|v: int|
                0 <= v < levels@.len() && (#[trigger] levels@[v]) >= 1 ==> levels@[v] == 1
                    && pending@.contains(ValueId { raw: v as u32 }),
        decreases references.len() - i,
    {
        let reference = references[i];
        let ghost before = levels@;
        let ghost was = pending@;
        assert(sources[i as int].raw < count);
        levels.set(reference.raw as usize, 1);
        pending.push(reference);
        proof {
            assert(spreads(users, sources, 0, reference.raw as int, false));
            assert(influences(users, sources, reference.raw as int, false));
            assert forall|v: int| 0 <= v < levels@.len() && (#[trigger] levels@[v]) >= 1 implies
                levels@[v] == 1 && pending@.contains(ValueId { raw: v as u32 }) by {
                lemma_push_contains(was, reference, ValueId { raw: v as u32 });
                if v == reference.raw {
                    assert(reference == (ValueId { raw: v as u32 }));
                } else {
                    assert(before[v] >= 1);
                }
            }
        }
        i += 1;
    }
    while pending.len() > 0
        invariant
            view.wf(),
            count == view.values.len(),
            users == user_rows(dependencies.users@),
            dependencies.shaped(view),
            users.len() == count,
            levelled(users, sources, levels@, pending@),
            forall|k: int|
                0 <= k < sources.len() ==> (#[trigger] sources[k]).raw < count
                    && levels@[sources[k].raw as int] >= 1,
        decreases room(levels@), pending.len(),
    {
        let ghost outer_levels = levels@;
        let ghost outer_pending = pending@;
        let value = match pending.pop() {
            Some(value) => value,
            None => return Err(SynthError::Invariant(Invariant::UnknownValue)),
        };
        assert(outer_pending.last() == value);
        assert(outer_pending[outer_pending.len() - 1] == value);
        let ghost rest = pending@;
        assert(rest =~= outer_pending.drop_last());
        let place: usize = value.raw as usize;
        let level: u8 = levels[place];
        let row = &dependencies.users[place];
        assert(users[place as int] == row@);
        let mut k: usize = 0;
        proof {
            assert forall|v: int, j: int|
                0 <= v < levels@.len() && levels@[v] >= 1 && 0 <= j < users[v].len() && v
                    != place implies rest.contains(ValueId { raw: v as u32 })
                || levels@[(#[trigger] users[v][j]).value.raw as int] >= needed(
                levels@[v],
                users[v][j],
            ) by {
                assert(outer_pending =~= rest.push(value));
                lemma_push_contains(rest, value, ValueId { raw: v as u32 });
                assert(ValueId { raw: v as u32 } != value);
            }
        }
        while k < row.len()
            invariant
                view.wf(),
                count == view.values.len(),
                users == user_rows(dependencies.users@),
                dependencies.shaped(view),
                users.len() == count,
                place < count,
                value.raw == place,
                row@ == users[place as int],
                row@ == dependencies.users@[place as int]@,
                k <= row@.len(),
                levels@.len() == count,
                1 <= level <= 2,
                levels@[place as int] >= level,
                level == 2 ==> influences(users, sources, place as int, true),
                influences(users, sources, place as int, false),
                levels@[place as int] != level ==> pending@.contains(value),
                forall|v: int| 0 <= v < levels@.len() ==> (#[trigger] levels@[v]) <= 2,
                forall|v: int|
                    0 <= v < levels@.len() && (#[trigger] levels@[v]) >= 1 ==> influences(
                        users,
                        sources,
                        v,
                        false,
                    ),
                forall|v: int|
                    0 <= v < levels@.len() && (#[trigger] levels@[v]) == 2 ==> influences(
                        users,
                        sources,
                        v,
                        true,
                    ),
                forall|p: int|
                    0 <= p < pending@.len() ==> (#[trigger] pending@[p]).raw < levels@.len()
                        && levels@[pending@[p].raw as int] >= 1,
                forall|v: int, j: int|
                    0 <= v < levels@.len() && levels@[v] >= 1 && 0 <= j < users[v].len() && v
                        != place ==> pending@.contains(ValueId { raw: v as u32 })
                        || levels@[(#[trigger] users[v][j]).value.raw as int] >= needed(
                        levels@[v],
                        users[v][j],
                    ),
                forall|j: int|
                    0 <= j < k ==> levels@[(#[trigger] row@[j]).value.raw as int] >= needed(
                        level,
                        row@[j],
                    ),
                forall|k: int|
                    0 <= k < sources.len() ==> (#[trigger] sources[k]).raw < count
                        && levels@[sources[k].raw as int] >= 1,
                room(levels@) < room(outer_levels) || (levels@ == outer_levels && pending@ == rest),
            decreases row.len() - k,
        {
            let user = row[k];
            assert(dependencies.users@[place as int]@[k as int].value.raw < view.values.len());
            assert(users[place as int][k as int] == user);
            let next: u8 = if level == 2 || user.crosses_unresolved_signal_driver {
                2
            } else {
                1
            };
            let at: usize = user.value.raw as usize;
            if next > levels[at] {
                let ghost before = levels@;
                let ghost was = pending@;
                proof {
                    lemma_room(levels@, at as int, next);
                    lemma_step(users, sources, place as int, k as int, false);
                    if next == 2 {
                        lemma_step(users, sources, place as int, k as int, true);
                    }
                }
                levels.set(at, next);
                pending.push(user.value);
                proof {
                    assert(pending@[was.len() as int] == user.value);
                    assert forall|v: int, j: int|
                        0 <= v < levels@.len() && levels@[v] >= 1 && 0 <= j < users[v].len() && v
                            != place implies pending@.contains(ValueId { raw: v as u32 })
                        || levels@[(#[trigger] users[v][j]).value.raw as int] >= needed(
                        levels@[v],
                        users[v][j],
                    ) by {
                        lemma_push_contains(was, user.value, ValueId { raw: v as u32 });
                        if v == at {
                            assert(user.value == (ValueId { raw: v as u32 }));
                        }
                    }
                    lemma_push_contains(was, user.value, value);
                    if at == place {
                        assert(user.value == value);
                    }
                    assert forall|p: int| 0 <= p < pending@.len() implies (
                    #[trigger] pending@[p]).raw < levels@.len() && levels@[pending@[p].raw as int]
                        >= 1 by {
                        if p < was.len() {
                            assert(pending@[p] == was[p]);
                        }
                    }
                }
            }
            k += 1;
        }
        proof {
            assert forall|v: int, j: int|
                0 <= v < levels@.len() && levels@[v] >= 1 && 0 <= j < users[v].len() implies
                pending@.contains(ValueId { raw: v as u32 }) || levels@[(
            #[trigger] users[v][j]).value.raw as int] >= needed(levels@[v], users[v][j]) by {
                if v == place {
                    assert(value == (ValueId { raw: v as u32 }));
                    if levels@[v] == level {
                        assert(row@[j] == users[v][j]);
                    }
                }
            }
        }
    }
    let ghost influenced = dependencies.reach(state);
    proof {
        assert(pending@ =~= seq![]);
        assert forall|v: int| 0 <= v < count implies (#[trigger] influenced(v)) == (levels@[v]
            >= 1) by {
            if influenced(v) {
                let steps = choose|steps: nat| #[trigger] spreads(users, sources, steps, v, false);
                lemma_complete(users, sources, levels@, steps, v, false);
            }
        }
        assert forall|v: int| 0 <= v < count implies (#[trigger] dependencies.reaches(
            state,
            v,
            true,
        )) == (levels@[v] == 2) by {
            if dependencies.reaches(state, v, true) {
                let steps = choose|steps: nat| #[trigger] spreads(users, sources, steps, v, true);
                lemma_complete(users, sources, levels@, steps, v, true);
            }
        }
    }
    let mut values: Vec<ValueId> = Vec::new();
    let mut supports_state_merging: bool = true;
    let mut i: usize = 0;
    assert(candidates@.take(0) =~= seq![]);
    while i < candidates.len()
        invariant
            count == view.values.len(),
            view == module@,
            levels@.len() == count,
            i <= candidates@.len(),
            forall|v: int| 0 <= v < count ==> (#[trigger] influenced(v)) == (levels@[v] >= 1),
            forall|v: int|
                0 <= v < count ==> (#[trigger] dependencies.reaches(state, v, true)) == (
                levels@[v] == 2),
            forall|k: int|
                0 <= k < i ==> (#[trigger] candidates@[k]).excluded_for == Some(register_result)
                    || view.has(candidates@[k].value),
            values@ == counted(candidates@.take(i as int), register_result, influenced),
            supports_state_merging == plainly_seen(dependencies, state, values@),
        decreases candidates.len() - i,
    {
        let candidate = candidates[i];
        let ghost was = values@;
        assert(candidates@.take(i + 1).drop_last() =~= candidates@.take(i as int));
        let own: bool = match candidate.excluded_for {
            Some(excluded) => excluded == register_result,
            None => false,
        };
        if !own {
            let place: usize = candidate.value.raw as usize;
            if place >= count {
                assert(!view.has(candidates@[i as int].value));
                return Err(SynthError::Invariant(Invariant::UnknownValue));
            }
            let level: u8 = levels[place];
            assert(influenced(place as int) == (level >= 1));
            if level != 0 {
                values.push(candidate.value);
                assert(dependencies.reaches(state, place as int, true) == (level == 2));
                if level == 2 {
                    supports_state_merging = false;
                    assert(values@[was.len() as int].raw == place);
                } else {
                    assert forall|k: int| 0 <= k < was.len() implies was[k] == #[trigger] values@[k] by {}
                }
            }
        }
        proof {
            if !supports_state_merging {
                if values@.len() > was.len() {
                    if exists|k: int|
                        0 <= k < was.len() && dependencies.reaches(
                            state,
                            (#[trigger] was[k]).raw as int,
                            true,
                        ) {
                        let k = choose|k: int|
                            0 <= k < was.len() && dependencies.reaches(
                                state,
                                (#[trigger] was[k]).raw as int,
                                true,
                            );
                        assert(values@[k] == was[k]);
                    }
                }
            }
        }
        i += 1;
    }
    assert(candidates@.take(i as int) =~= candidates@);
    Ok(FsmObservationRoots { values, supports_state_merging })
}

} // verus!
