use opto_synth::planning::fsm::analysis::{derive_catalog, FsmCatalog};
use opto_synth::planning::fsm::encoding::{
    binary_constant, choose_encoding, is_zero, FsmObjective, MAX_STATES, MAX_TRANSITION_VALUES,
};
use opto_synth::planning::fsm::optimization::{
    materialize_plans, optimize_derived_fsms_in_regions,
};
use opto_synth::planning::fsm::plan::{machine_objective, plan_catalog};
use opto_synth::planning::fsm::symbolic::encoder::WordLogicEncoder;
use opto_synth::word::module::{LValue, PortDirection, ValueKind, WordModule};
use opto_synth::word::types::{
    operation_inputs, BinaryOp, BitVal, ConstBits, Edge, Enable, OpKind, RegisterOp, Reset,
    ResetKind, SignalId, SourceSpan, UnaryOp, ValueId, WordType,
};

fn span() -> SourceSpan {
    SourceSpan::default()
}

fn bits(width: u32) -> WordType {
    WordType::bits(width).unwrap()
}

fn pattern(text: &str) -> ConstBits {
    ConstBits::from_bits(
        text.chars()
            .map(|digit| if digit == '1' { BitVal::One } else { BitVal::Zero })
            .collect(),
    )
    .unwrap()
}

fn constant(module: &mut WordModule, text: &str) -> ValueId {
    module.constant(pattern(text), bits(text.len() as u32), span()).unwrap()
}

fn input(module: &mut WordModule, name: &str, width: u32) -> ValueId {
    let port = module
        .add_port(name.to_string(), PortDirection::Input, bits(width), span())
        .unwrap();
    let signal = module.port(port).unwrap().signal;
    module.read_signal(signal, span()).unwrap()
}

fn output(module: &mut WordModule, name: &str, width: u32, value: ValueId) {
    let port = module
        .add_port(name.to_string(), PortDirection::Output, bits(width), span())
        .unwrap();
    let signal = module.port(port).unwrap().signal;
    module.connect(LValue::signal(signal), value, span()).unwrap();
}

fn facts(module: &WordModule) -> Vec<Option<ConstBits>> {
    module
        .values
        .iter()
        .map(|value| match &value.kind {
            ValueKind::Constant(bits) => Some(bits.duplicate()),
            _ => None,
        })
        .collect()
}

fn catalog(module: &WordModule) -> FsmCatalog {
    let ranges = vec![None; module.values.len()];
    derive_catalog(module, &ranges, &facts(module)).unwrap()
}

fn optimize_with_objective(module: &mut WordModule, objective: FsmObjective) -> usize {
    let found = catalog(module);
    let objectives = vec![objective; found.machines.len()];
    let plans = plan_catalog(found, &objectives);
    materialize_plans(module, &plans).unwrap();
    plans.len()
}

fn live(module: &WordModule) -> Vec<usize> {
    let mut seen = vec![false; module.values.len()];
    let mut pending: Vec<ValueId> = module.connects.iter().map(|connect| connect.value).collect();
    let mut found = Vec::new();
    while let Some(value) = pending.pop() {
        if seen[value.raw as usize] {
            continue;
        }
        seen[value.raw as usize] = true;
        if let ValueKind::Operation(operation) = &module.values[value.raw as usize].kind {
            found.push(operation.raw as usize);
            pending.extend(operation_inputs(&module.operations[operation.raw as usize].kind));
        }
    }
    found
}

fn register_widths(module: &WordModule) -> Vec<u32> {
    live(module)
        .into_iter()
        .filter(|place| matches!(module.operations[*place].kind, OpKind::Register(_)))
        .map(|place| module.values[module.operations[place].result.raw as usize].ty.width)
        .collect()
}

fn comparisons(module: &WordModule) -> usize {
    live(module)
        .into_iter()
        .filter(|place| {
            matches!(module.operations[*place].kind, OpKind::Binary { op: BinaryOp::Eq, .. })
        })
        .count()
}

fn sparse_fsm(with_reset: bool) -> (WordModule, SignalId) {
    let mut module = WordModule::new();
    let clock = input(&mut module, "clock", 1);
    let reset_signal = module.add_wire("reset".to_string(), bits(1), span()).unwrap();
    let select_signal = module.add_wire("select".to_string(), bits(1), span()).unwrap();
    let state = module.add_wire("state".to_string(), bits(8), span()).unwrap();
    let reset = module.read_signal(reset_signal, span()).unwrap();
    let select = module.read_signal(select_signal, span()).unwrap();
    let state_read = module.read_signal(state, span()).unwrap();
    let idle = constant(&mut module, "00000000");
    let first = constant(&mut module, "00010000");
    let second = constant(&mut module, "00100000");
    let active = module.binary(BinaryOp::Eq, state_read, second, span()).unwrap();
    output(&mut module, "active", 1, active);
    let first_or_hold = module.mux(select, first, state_read, span()).unwrap();
    let next = module.mux(select, second, first_or_hold, span()).unwrap();
    let mut resets = Vec::new();
    if with_reset {
        resets.push(Reset {
            kind: ResetKind::Sync,
            value: reset,
            active_high: true,
            reset_value: idle,
        });
    }
    let register = module
        .register(
            RegisterOp { name: None, d: next, clock, edge: Edge::Pos, enable: None, resets },
            span(),
        )
        .unwrap();
    module.connect(LValue::signal(state), register, span()).unwrap();
    (module, state)
}

fn replace_state_register_data(module: &mut WordModule, state: SignalId, next: ValueId) {
    let place = module
        .operations
        .iter()
        .position(|operation| matches!(operation.kind, OpKind::Register(_)))
        .unwrap();
    let mut register = match &module.operations[place].kind {
        OpKind::Register(register) => register.duplicate(),
        _ => panic!("the machine must have a register"),
    };
    register.d = next;
    let replacement = module.register(register, span()).unwrap();
    for connect in module.connects.iter_mut() {
        if connect.target.signal == state {
            connect.value = replacement;
        }
    }
}

fn mergeable_fsm(split_successors: bool) -> WordModule {
    let mut module = WordModule::new();
    let clock = input(&mut module, "clock", 1);
    let reset = input(&mut module, "reset", 1);
    let select = input(&mut module, "select", 1);
    let state = module.add_wire("state".to_string(), bits(8), span()).unwrap();
    let state_read = module.read_signal(state, span()).unwrap();
    let names = ["00000000", "00010000", "00100000", "01000000", "10000000"];
    let codes = names.map(|text| constant(&mut module, text));
    let tests = codes
        .map(|code| module.binary(BinaryOp::Eq, state_read, code, span()).unwrap());
    let not_select = module.unary(UnaryOp::BitNot, select, span()).unwrap();
    let select_a0 = module.binary(BinaryOp::BitAnd, tests[0], select, span()).unwrap();
    let select_a1 = module.binary(BinaryOp::BitAnd, tests[0], not_select, span()).unwrap();
    let in_a = module.binary(BinaryOp::BitOr, tests[1], tests[2], span()).unwrap();
    let in_b = module.binary(BinaryOp::BitOr, tests[3], tests[4], span()).unwrap();
    let phase = if split_successors {
        module.concat(vec![in_a, tests[3], tests[4]], span()).unwrap()
    } else {
        module.concat(vec![in_a, in_b, in_b], span()).unwrap()
    };
    output(&mut module, "phase", 3, phase);
    let resets = [
        (reset, codes[0]),
        (select_a0, codes[1]),
        (select_a1, codes[2]),
        (tests[1], codes[3]),
        (tests[2], codes[4]),
    ]
    .map(|(value, reset_value)| Reset {
        kind: ResetKind::Sync,
        value,
        active_high: true,
        reset_value,
    })
    .to_vec();
    let register = module
        .register(
            RegisterOp { name: None, d: codes[0], clock, edge: Edge::Pos, enable: None, resets },
            span(),
        )
        .unwrap();
    module.connect(LValue::signal(state), register, span()).unwrap();
    module
}

fn refinement_chain_fsm(state_count: usize) -> WordModule {
    let mut module = WordModule::new();
    let clock = input(&mut module, "clock", 1);
    let reset = input(&mut module, "reset", 1);
    let state = module.add_wire("state".to_string(), bits(8), span()).unwrap();
    let state_read = module.read_signal(state, span()).unwrap();
    let states: Vec<ValueId> = (0..state_count)
        .map(|place| constant(&mut module, &format!("{place:08b}")))
        .collect();
    let active = module.binary(BinaryOp::Eq, state_read, states[0], span()).unwrap();
    output(&mut module, "active", 1, active);
    let mut next = states[0];
    for source in 1..state_count {
        let selected = module.binary(BinaryOp::Eq, state_read, states[source], span()).unwrap();
        next = module.mux(selected, states[source - 1], next, span()).unwrap();
    }
    let register = module
        .register(
            RegisterOp {
                name: None,
                d: next,
                clock,
                edge: Edge::Pos,
                enable: None,
                resets: vec![Reset {
                    kind: ResetKind::Sync,
                    value: reset,
                    active_high: true,
                    reset_value: states[state_count - 1],
                }],
            },
            span(),
        )
        .unwrap();
    module.connect(LValue::signal(state), register, span()).unwrap();
    module
}

#[test]
fn merges_states_with_equal_observations_and_successor_classes() {
    let mut module = mergeable_fsm(false);
    let found = catalog(&module);

    assert_eq!(found.machines.len(), 1);
    assert_eq!(found.machines[0].states.len(), 5);
    assert_eq!(found.machines[0].representatives.len(), 3);
    assert_eq!(optimize_with_objective(&mut module, FsmObjective::Area), 1);
    assert_eq!(register_widths(&module), vec![2]);
}

#[test]
fn skips_dead_state_before_fsm_analysis() {
    let (mut module, state) = sparse_fsm(true);
    module.connects.retain(|connect| connect.target.signal != state);

    assert!(catalog(&module).machines.is_empty());
}

#[test]
fn keeps_lookalike_states_when_successor_classes_differ() {
    let mut module = mergeable_fsm(true);
    let found = catalog(&module);

    assert_eq!(found.machines.len(), 1);
    assert_eq!(found.machines[0].representatives.len(), 5);
    assert_eq!(optimize_with_objective(&mut module, FsmObjective::Area), 1);
    assert_eq!(register_widths(&module), vec![3]);
}

#[test]
fn refinement_scaling_is_bounded_by_structural_signatures() {
    let module = refinement_chain_fsm(MAX_STATES);
    let found = catalog(&module);

    assert_eq!(found.machines.len(), 1);
    assert_eq!(found.machines[0].states.len(), MAX_STATES);
    assert_eq!(found.machines[0].representatives.len(), MAX_STATES);
}

#[test]
fn removes_unreachable_states_before_reencoding() {
    let (mut module, state) = sparse_fsm(true);

    assert_eq!(optimize_with_objective(&mut module, FsmObjective::Timing), 1);

    assert_eq!(register_widths(&module), vec![1]);
    let place = live(&module)
        .into_iter()
        .find(|place| matches!(module.operations[*place].kind, OpKind::Register(_)))
        .unwrap();
    match &module.operations[place].kind {
        OpKind::Register(register) => {
            assert_eq!(register.resets.len(), 1);
            let value = register.resets[0].reset_value;
            assert_eq!(module.values[value.raw as usize].ty.width, 1);
        }
        _ => panic!("the machine must have a register"),
    }
    let driver =
        module.connects.iter().find(|connect| connect.target.signal == state).unwrap().value;
    assert_eq!(module.values[driver.raw as usize].ty.width, 8);
    let target = module
        .connects
        .iter()
        .find(|connect| connect.value == module.operations[place].result)
        .unwrap()
        .target
        .signal;
    assert!(module.signals[target.raw as usize].name.is_none());
    assert_eq!(comparisons(&module), 2);
}

#[test]
fn preserves_an_observable_state_encoding() {
    let (mut module, state) = sparse_fsm(true);
    let state_read = module.read_signal(state, span()).unwrap();
    output(&mut module, "state_o", 8, state_read);

    assert_eq!(optimize_with_objective(&mut module, FsmObjective::Area), 0);
    assert_eq!(register_widths(&module), vec![8]);
}

#[test]
fn a_slice_of_the_state_at_an_output_leaves_the_encoding_open() {
    let (mut module, state) = sparse_fsm(true);
    let low = module.read_signal_slice(state, 0, 4, span()).unwrap();
    output(&mut module, "low_o", 4, low);

    assert_eq!(optimize_with_objective(&mut module, FsmObjective::Area), 1);
}

#[test]
fn leaves_unreset_state_space_unconstrained() {
    let (mut module, _) = sparse_fsm(false);

    assert_eq!(optimize_with_objective(&mut module, FsmObjective::Area), 0);
}

#[test]
fn leaves_arithmetic_state_transitions_outside_fsm_reencoding() {
    let (mut module, state) = sparse_fsm(true);
    let state_read = module.read_signal(state, span()).unwrap();
    let one = constant(&mut module, "00000001");
    let next = module.binary(BinaryOp::Add, state_read, one, span()).unwrap();
    replace_state_register_data(&mut module, state, next);

    assert_eq!(optimize_with_objective(&mut module, FsmObjective::Area), 0);
}

#[test]
fn bounds_transition_extraction_without_recursive_descent() {
    let (mut module, state) = sparse_fsm(true);
    let select_signal = module.add_wire("deep_select".to_string(), bits(1), span()).unwrap();
    let select = module.read_signal(select_signal, span()).unwrap();
    let state_read = module.read_signal(state, span()).unwrap();
    let first = constant(&mut module, "00010000");
    let mut next = state_read;
    for _ in 0..=MAX_TRANSITION_VALUES {
        next = module.mux(select, first, next, span()).unwrap();
    }
    replace_state_register_data(&mut module, state, next);

    assert_eq!(optimize_with_objective(&mut module, FsmObjective::Area), 0);
}

#[test]
fn rebuilds_area_transitions_in_the_compact_state_domain() {
    let (mut module, _) = sparse_fsm(true);

    assert_eq!(optimize_with_objective(&mut module, FsmObjective::Area), 1);
    assert_eq!(comparisons(&module), 2);
}

#[test]
fn selects_compact_and_one_hot_codes_from_the_synthesis_objective() {
    let states: Vec<ConstBits> =
        ["00000000", "00010000", "00100000", "01000000"].map(pattern).into_iter().collect();

    let (area_width, _) = choose_encoding(&states, 8, FsmObjective::Area).unwrap();
    let (timing_width, codes) = choose_encoding(&states, 8, FsmObjective::Timing).unwrap();

    assert_eq!(area_width, 2);
    assert_eq!(timing_width, 3);
    assert!(is_zero(&codes[0]));
    assert!(codes[1..].iter().all(|code| {
        code.bits.iter().filter(|bit| **bit == BitVal::One).count() == 1
    }));
}

#[test]
fn only_a_constraint_on_the_machine_clock_selects_timing_encoding() {
    let (module, _) = sparse_fsm(true);
    let found = catalog(&module);
    let machine = &found.machines[0];
    let mut constrained = vec![false; module.ports.len()];
    assert_eq!(machine_objective(&module, machine, &constrained), FsmObjective::Area);
    constrained[1] = true;
    assert_eq!(machine_objective(&module, machine, &constrained), FsmObjective::Area);
    constrained[0] = true;
    assert_eq!(machine_objective(&module, machine, &constrained), FsmObjective::Timing);
}

#[test]
fn keeps_states_observed_through_signal_aliases() {
    let mut module = WordModule::new();
    let clock = input(&mut module, "clock", 1);
    let reset = input(&mut module, "reset", 1);
    let enable = input(&mut module, "enable", 1);
    let state = module.add_wire("state".to_string(), bits(1), span()).unwrap();
    let alias = module.add_wire("alias".to_string(), bits(1), span()).unwrap();
    let state_value = module.read_signal(state, span()).unwrap();
    let alias_value = module.read_signal(alias, span()).unwrap();
    let zero = constant(&mut module, "0");
    let one = constant(&mut module, "1");
    let register = module
        .register(
            RegisterOp {
                name: None,
                d: zero,
                clock,
                edge: Edge::Pos,
                enable: Some(Enable { value: enable, active_high: true }),
                resets: vec![Reset {
                    kind: ResetKind::Sync,
                    value: reset,
                    active_high: true,
                    reset_value: one,
                }],
            },
            span(),
        )
        .unwrap();
    module.connect(LValue::signal(state), register, span()).unwrap();
    module.connect(LValue::signal(alias), state_value, span()).unwrap();
    output(&mut module, "output", 1, alias_value);

    assert_eq!(optimize_with_objective(&mut module, FsmObjective::Area), 0);
}

#[test]
fn machines_of_several_regions_stay() {
    let (mut module, _) = sparse_fsm(true);
    let known = facts(&module);
    let ranges = vec![None; module.values.len()];
    let constrained = vec![false; module.ports.len()];
    let regions = vec![None; module.operations.len()];
    assert_eq!(
        optimize_derived_fsms_in_regions(&mut module, &regions, &ranges, &known, &constrained)
            .unwrap(),
        0
    );
    let regions = vec![Some(0); module.operations.len()];
    assert_eq!(
        optimize_derived_fsms_in_regions(&mut module, &regions, &ranges, &known, &constrained)
            .unwrap(),
        1
    );
}

#[test]
fn codes_count_up() {
    assert_eq!(binary_constant(3, 5).bits, pattern("101").bits);
}

#[test]
fn word_logic_encoding_matches_word_semantics() {
    let mut module = WordModule::new();
    let five = constant(&mut module, "0101");
    let three = constant(&mut module, "0011");
    let sum = module.binary(BinaryOp::Add, five, three, span()).unwrap();
    let product = module.binary(BinaryOp::Mul, five, three, span()).unwrap();
    let quotient = module.binary(BinaryOp::Div, five, three, span()).unwrap();
    let remainder = module.binary(BinaryOp::Mod, five, three, span()).unwrap();
    let shifted = module.binary(BinaryOp::Shl, five, three, span()).unwrap();
    let less = module.binary(BinaryOp::Lt, five, three, span()).unwrap();
    let ranges = vec![None; module.values.len()];
    let mut encoder = WordLogicEncoder::new(&module, &ranges);
    encoder.begin_unbound();
    let low = encoder.value(less).unwrap();
    assert_eq!(low.len(), 1);
    let zero = low[0];
    for (value, expected) in
        [(sum, 8u32), (product, 15), (quotient, 1), (remainder, 2), (shifted, 8)]
    {
        let row = encoder.value(value).unwrap();
        assert_eq!(row.len(), 4);
        for (place, literal) in row.iter().enumerate() {
            let set = (expected >> place) & 1 == 1;
            assert_eq!(*literal != zero, set, "bit {place}");
        }
    }
}
