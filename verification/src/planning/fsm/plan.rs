//! Choosing codes for the classes of machines.

use super::analysis::{classes_ok, FsmCatalog};
use super::catalog::DerivedFsm;
use super::encoding::{
    all_zero, choose_encoding, codes_are_distinct, is_binary_width, one_hot_width, picks_one_hot,
    state_code, FsmObjective,
};
use super::symbolic::selection::states_view;
use crate::word::module::{KindView, ModuleView, ValueKind, WordModule};
use crate::word::numbers::{all_known, known_word};
use crate::word::types::{BitVal, ConstBits, SignalId, WordType};
use vstd::prelude::*;

verus! {

/// A machine and the codes of its classes.
pub struct FsmPlan {
    pub machine: DerivedFsm,
    pub codes: Vec<ConstBits>,
    pub encoded_type: WordType,
}

/// The first states of a machine's classes.
pub open spec fn class_states(machine: &DerivedFsm) -> Seq<Seq<BitVal>> {
    Seq::new(
        machine.representatives@.len(),
        |c: int| machine.states@[machine.representatives@[c] as int]@,
    )
}

/// The width and the codes that a machine gets.
pub open spec fn encoded_as(
    machine: &DerivedFsm,
    objective: FsmObjective,
    width: u32,
    codes: Seq<ConstBits>,
) -> bool {
    let states = class_states(machine);
    let one_hot = picks_one_hot(states, machine.state_type.width, objective);
    &&& if one_hot {
        width == one_hot_width(states)
    } else {
        is_binary_width(states.len(), width as nat)
    }
    &&& codes.len() == states.len()
    &&& forall|c: int|
        0 <= c < codes.len() ==> (#[trigger] codes[c])@.len() == width && all_known(codes[c]@)
            && known_word(codes[c]@) == state_code(states, one_hot, width as nat, c)
}

/// A code is worth its while if it is narrower than the states or if states
/// were merged.
pub open spec fn worthwhile(machine: &DerivedFsm, width: u32) -> bool {
    width < machine.state_type.width || machine.representatives@.len() != machine.states@.len()
}

/// A machine with analysed states.
pub open spec fn analysed_machine(machine: &DerivedFsm) -> bool {
    &&& machine.states_ok()
    &&& machine.state_type.width >= 1
    &&& machine.state_classes@.len() == machine.states@.len()
    &&& classes_ok(machine.state_classes@, machine.representatives@)
}

impl FsmPlan {
    /// Codes of one width, different for different classes.
    pub open spec fn wf(&self) -> bool {
        &&& analysed_machine(&self.machine)
        &&& self.encoded_type.width >= 1
        &&& self.codes@.len() == self.machine.representatives@.len()
        &&& forall|c: int|
            0 <= c < self.codes@.len() ==> (#[trigger] self.codes@[c])@.len()
                == self.encoded_type.width && all_known(self.codes@[c]@)
        &&& forall|c: int, d: int|
            0 <= c < d < self.codes@.len() ==> known_word((#[trigger] self.codes@[c])@)
                != known_word((#[trigger] self.codes@[d])@)
    }

    /// The plan of a machine for an objective.
    pub open spec fn plans(&self, machine: &DerivedFsm, objective: FsmObjective) -> bool {
        &&& self.machine == *machine
        &&& encoded_as(machine, objective, self.encoded_type.width, self.codes@)
        &&& !self.encoded_type.signed
        &&& self.encoded_type.state == machine.state_type.state
        &&& worthwhile(machine, self.encoded_type.width)
    }
}

/// Two states are not both zero.
proof fn lemma_one_zero(machine: &DerivedFsm, c: int, d: int)
    requires
        analysed_machine(machine),
        0 <= c < d < machine.representatives@.len(),
    ensures
        !(all_zero(class_states(machine)[c]) && all_zero(class_states(machine)[d])),
{
    let states = class_states(machine);
    if all_zero(states[c]) && all_zero(states[d]) {
        let a = machine.representatives@[c] as int;
        let b = machine.representatives@[d] as int;
        assert(machine.state_classes@[a] == c);
        assert(machine.state_classes@[b] == d);
        assert(states[c].len() == machine.states@[a]@.len());
        assert(states[d].len() == machine.states@[b]@.len());
        assert(states[c] =~= states[d]) by {
            assert forall|i: int| 0 <= i < states[c].len() implies states[c][i] == states[d][i] by {}
        }
        assert(states_view(machine.states@)[a] == states_view(machine.states@)[b]);
    }
}

/// The plan of a machine, if new codes are worth their while.
pub fn plan_machine(machine: DerivedFsm, objective: FsmObjective) -> (result: Option<FsmPlan>)
    requires
        analysed_machine(&machine),
    ensures
        result matches Some(plan) ==> plan.wf() && plan.plans(&machine, objective),
        result is None ==> exists|width: u32, codes: Seq<ConstBits>| #[trigger]
            encoded_as(&machine, objective, width, codes) && !worthwhile(&machine, width),
{
    let ghost view = class_states(&machine);
    let mut states: Vec<ConstBits> = Vec::new();
    let mut c: usize = 0;
    proof {
        lemma_some_class(&machine);
    }
    while c < machine.representatives.len()
        invariant
            analysed_machine(&machine),
            view == class_states(&machine),
            c <= machine.representatives@.len(),
            states@.len() == c,
            forall|d: int| 0 <= d < c ==> (#[trigger] states@[d])@ == view[d],
        decreases machine.representatives.len() - c,
    {
        let place: usize = machine.representatives[c];
        states.push(machine.states[place].duplicate());
        c += 1;
    }
    assert(states_view(states@) =~= view);
    let (width, codes) = match choose_encoding(&states, machine.state_type.width, objective) {
        Ok(encoding) => encoding,
        Err(_) => {
            assert(false);
            (1, Vec::new())
        },
    };
    proof {
        assert(encoded_as(&machine, objective, width, codes@));
    }
    if width >= machine.state_type.width && machine.representatives.len() == machine.states.len() {
        return None;
    }
    let encoded_type = WordType { width, signed: false, state: machine.state_type.state };
    proof {
        let one_hot = picks_one_hot(view, machine.state_type.width, objective);
        assert(one_hot ==> width == one_hot_width(view));
        assert forall|c: int, d: int| 0 <= c < d < codes@.len() implies known_word(
            (#[trigger] codes@[c])@,
        ) != known_word((#[trigger] codes@[d])@) by {
            lemma_one_zero(&machine, c, d);
            codes_are_distinct(view, one_hot, width as nat, c, d);
        }
    }
    Some(FsmPlan { machine, codes, encoded_type })
}

/// A machine has a state, so it has a class.
pub proof fn lemma_some_class(machine: &DerivedFsm)
    requires
        analysed_machine(machine),
    ensures
        1 <= machine.representatives@.len() <= machine.states@.len(),
{
    let classes = machine.state_classes@;
    assert(classes[0] < machine.representatives@.len());
    super::minimization::lemma_class_count_bound(classes, classes.len() as int);
}

/// The plans of several machines, in order: those whose codes are worth it.
pub open spec fn planned(
    machines: Seq<DerivedFsm>,
    objectives: Seq<FsmObjective>,
    plans: Seq<FsmPlan>,
) -> bool
    decreases machines.len(),
{
    if machines.len() == 0 {
        plans.len() == 0
    } else {
        let machine = machines.last();
        let objective = objectives[machines.len() - 1];
        ||| plans.len() > 0 && plans.last().plans(&machine, objective) && planned(
            machines.drop_last(),
            objectives,
            plans.drop_last(),
        )
        ||| (exists|width: u32, codes: Seq<ConstBits>| #[trigger]
            encoded_as(&machine, objective, width, codes) && !worthwhile(&machine, width))
            && planned(machines.drop_last(), objectives, plans)
    }
}

/// The plans of a catalogue, machine by machine.
pub fn plan_catalog(catalog: FsmCatalog, objectives: &Vec<FsmObjective>) -> (plans: Vec<FsmPlan>)
    requires
        objectives@.len() == catalog.machines@.len(),
        forall|k: int|
            0 <= k < catalog.machines@.len() ==> analysed_machine(
                &(#[trigger] catalog.machines@[k]),
            ),
    ensures
        planned(catalog.machines@, objectives@, plans@),
        forall|k: int| 0 <= k < plans@.len() ==> (#[trigger] plans@[k]).wf(),
        forall|k: int|
            0 <= k < plans@.len() ==> catalog.machines@.contains((#[trigger] plans@[k]).machine),
{
    let ghost all = catalog.machines@;
    let mut machines = catalog.machines;
    let mut reversed: Vec<DerivedFsm> = Vec::new();
    while machines.len() > 0
        invariant
            machines@ + reversed@.reverse() == all,
        decreases machines.len(),
    {
        let ghost before = machines@;
        let ghost behind = reversed@;
        match machines.pop() {
            Some(machine) => {
                reversed.push(machine);
                assert(reversed@.reverse() =~= seq![machine] + behind.reverse());
                assert(before =~= machines@.push(machine));
                assert(machines@ + reversed@.reverse() =~= before + behind.reverse());
            },
            None => {},
        }
    }
    assert(reversed@.reverse() =~= all);
    let mut plans: Vec<FsmPlan> = Vec::new();
    let mut k: usize = 0;
    let total: usize = objectives.len();
    assert(all.take(0) =~= seq![]);
    while reversed.len() > 0
        invariant
            total == objectives@.len(),
            all.len() == total,
            k + reversed@.len() == total,
            reversed@.reverse() == all.skip(k as int),
            planned(all.take(k as int), objectives@, plans@),
            forall|k: int| 0 <= k < all.len() ==> analysed_machine(&(#[trigger] all[k])),
            forall|k: int| 0 <= k < plans@.len() ==> (#[trigger] plans@[k]).wf(),
            forall|k: int| 0 <= k < plans@.len() ==> all.contains((#[trigger] plans@[k]).machine),
        decreases reversed.len(),
    {
        let ghost left = reversed@;
        let ghost before = plans@;
        match reversed.pop() {
            Some(machine) => {
                proof {
                    assert(left.reverse()[0] == machine);
                    assert(all.skip(k as int)[0] == all[k as int]);
                    assert(all[k as int] == machine);
                    assert(reversed@.reverse() =~= left.reverse().skip(1));
                    assert(all.skip(k as int).skip(1) =~= all.skip(k + 1));
                    assert(all.take(k + 1).drop_last() =~= all.take(k as int));
                }
                let objective = objectives[k];
                match plan_machine(machine, objective) {
                    Some(plan) => {
                        plans.push(plan);
                        assert(plans@.drop_last() =~= before);
                    },
                    None => {},
                }
                k += 1;
            },
            None => {},
        }
    }
    assert(all.take(k as int) =~= all);
    plans
}

/// The port behind which the clock of a machine stands.
pub open spec fn clock_port(module: ModuleView, machine: &DerivedFsm) -> Option<int> {
    match module.kind(machine.register.clock) {
        KindView::Signal(reference) => if reference.width == 1 && exists|p: int|
            0 <= p < module.ports.len() && (#[trigger] module.ports[p]).signal == reference.signal {
            Some(first_port(module, reference.signal, 0))
        } else {
            None
        },
        _ => None,
    }
}

/// The first port of a signal from a place on.
pub open spec fn first_port(module: ModuleView, signal: SignalId, from: int) -> int
    decreases module.ports.len() - from,
{
    if from >= module.ports.len() || module.ports[from].signal == signal {
        from
    } else {
        first_port(module, signal, from + 1)
    }
}

/// Machines whose clock is constrained are encoded for timing, others for
/// area.
pub fn machine_objective(module: &WordModule, machine: &DerivedFsm, constrained: &Vec<bool>)
    -> (objective: FsmObjective)
    requires
        module@.has(machine.register.clock),
    ensures
        objective == (match clock_port(module@, machine) {
            Some(port) => if port < constrained@.len() && constrained@[port] {
                FsmObjective::Timing
            } else {
                FsmObjective::Area
            },
            None => FsmObjective::Area,
        }),
{
    let value = &module.values[machine.register.clock.raw as usize];
    assert(value@ == module@.values[machine.register.clock.raw as int]);
    let reference = match &value.kind {
        ValueKind::Signal(reference) => *reference,
        _ => return FsmObjective::Area,
    };
    if reference.width != 1 {
        return FsmObjective::Area;
    }
    let mut p: usize = 0;
    while p < module.ports.len()
        invariant
            p <= module.ports@.len(),
            module@.kind(machine.register.clock) == KindView::Signal(reference),
            reference.width == 1,
            forall|q: int|
                0 <= q < p ==> (#[trigger] module@.ports[q]).signal != reference.signal,
            first_port(module@, reference.signal, 0) == first_port(
                module@,
                reference.signal,
                p as int,
            ),
        decreases module.ports.len() - p,
    {
        if module.ports[p].signal == reference.signal {
            assert(module@.ports[p as int].signal == reference.signal);
            if p < constrained.len() && constrained[p] {
                return FsmObjective::Timing;
            }
            return FsmObjective::Area;
        }
        p += 1;
    }
    FsmObjective::Area
}

/// Every operation of a machine belongs to the region of its register.
pub open spec fn region_private(
    module: ModuleView,
    machine: &DerivedFsm,
    regions: Seq<Option<u32>>,
) -> bool {
    &&& regions[machine.register_operation.raw as int] is Some
    &&& forall|k: int|
        0 <= k < machine.transition_order@.len() ==> match module.kind(
            #[trigger] machine.transition_order@[k],
        ) {
            KindView::Operation(operation) => regions[operation.raw as int]
                == regions[machine.register_operation.raw as int],
            _ => true,
        }
}

pub fn machine_is_region_private(
    module: &WordModule,
    machine: &DerivedFsm,
    operation_regions: &Vec<Option<u32>>,
) -> (private: bool)
    requires
        module@.wf(),
        operation_regions@.len() == module@.operations.len(),
        machine.register_operation.raw < module@.operations.len(),
        forall|k: int|
            0 <= k < machine.transition_order@.len() ==> module@.has(
                #[trigger] machine.transition_order@[k],
            ),
    ensures
        private == region_private(module@, machine, operation_regions@),
{
    let owner: u32 = match operation_regions[machine.register_operation.raw as usize] {
        Some(owner) => owner,
        None => return false,
    };
    let mut k: usize = 0;
    while k < machine.transition_order.len()
        invariant
            k <= machine.transition_order@.len(),
            module@.wf(),
            operation_regions@.len() == module@.operations.len(),
            machine.register_operation.raw < module@.operations.len(),
            operation_regions@[machine.register_operation.raw as int] == Some(owner),
            forall|k: int|
                0 <= k < machine.transition_order@.len() ==> module@.has(
                    #[trigger] machine.transition_order@[k],
                ),
            forall|j: int|
                0 <= j < k ==> match module@.kind(#[trigger] machine.transition_order@[j]) {
                    KindView::Operation(operation) => operation_regions@[operation.raw as int]
                        == operation_regions@[machine.register_operation.raw as int],
                    _ => true,
                },
        decreases machine.transition_order.len() - k,
    {
        let value_id = machine.transition_order[k];
        assert(module@.has(machine.transition_order@[k as int]));
        let value = &module.values[value_id.raw as usize];
        assert(value@ == module@.values[value_id.raw as int]);
        assert(module@.value_ok(value_id.raw as int));
        if let ValueKind::Operation(operation) = &value.kind {
            let same: bool = match operation_regions[operation.raw as usize] {
                Some(region) => region == owner,
                None => false,
            };
            if !same {
                assert(module@.kind(machine.transition_order@[k as int]) == KindView::Operation(
                    *operation,
                ));
                return false;
            }
        }
        k += 1;
    }
    true
}

} // verus!
