use opto_synth::planning::dataflow::aliases::resolve_aliases;
use opto_synth::planning::dataflow::coalesce::coalesce_static_wire_drivers;
use opto_synth::planning::dataflow::folding::{fold_cast, fold_operation, fold_unary};
use opto_synth::planning::dataflow::optimize::{
    optimize_combinational_dataflow, optimize_combinational_dataflow_by, optimize_owned_combinational_dataflow,
    rebalance_constant_priority_muxes, DataflowChanges,
};
use opto_synth::error::{Invariant, SynthError};
use opto_synth::planning::dataflow::representatives::close_representatives;
use opto_synth::planning::dataflow::sequential::{
    share_equivalent_sequential_values_by, share_equivalent_sequential_values_in_regions,
};
use opto_synth::planning::dataflow::static_aliases::resolve_static_connect_aliases;
use opto_synth::word::drivers::SignalDriverIndex;
use opto_synth::word::module::{
    BitRange, InstanceConnection, LValue, PortDirection, SignalResolution, ValueKind, WordModule,
};
use opto_synth::word::types::{
    operation_inputs, BinaryOp, BitVal, CastKind, ConstBits, Edge, Enable, LogicStateKind, OpKind,
    PortId, RegisterOp, SourceSpan, UnaryOp, ValueId, WordType,
};

fn span() -> SourceSpan {
    SourceSpan::default()
}

fn bits(width: u32) -> WordType {
    WordType::bits(width).unwrap()
}

fn constant(text: &str) -> ConstBits {
    ConstBits::from_bits(
        text.chars()
            .map(|digit| if digit == '1' { BitVal::One } else { BitVal::Zero })
            .collect(),
    )
    .unwrap()
}

fn port(module: &mut WordModule, name: &str, direction: PortDirection, width: u32) -> PortId {
    module.add_port(name.to_string(), direction, bits(width), span()).unwrap()
}

fn input(module: &mut WordModule, name: &str, width: u32) -> ValueId {
    let port = port(module, name, PortDirection::Input, width);
    let signal = module.port(port).unwrap().signal;
    module.read_signal(signal, span()).unwrap()
}

fn output(module: &mut WordModule, name: &str, width: u32, value: ValueId) {
    let port = port(module, name, PortDirection::Output, width);
    let signal = module.port(port).unwrap().signal;
    module.connect(LValue::signal(signal), value, span()).unwrap();
}

fn facts(module: &WordModule) -> Vec<Option<ConstBits>> {
    module
        .values
        .iter()
        .map(|value| match &value.kind {
            ValueKind::Constant(bits) => Some(bits.duplicate()),
            _ => None,
        })
        .collect()
}

fn optimize(module: &mut WordModule) -> DataflowChanges {
    let known = facts(module);
    optimize_combinational_dataflow_by(module, &known, |_, _| true).unwrap()
}

fn live_operations(module: &WordModule) -> usize {
    let mut live = vec![false; module.values.len()];
    let mut pending: Vec<ValueId> = module.connects.iter().map(|connect| connect.value).collect();
    let mut count = 0;
    while let Some(value) = pending.pop() {
        if live[value.raw as usize] {
            continue;
        }
        live[value.raw as usize] = true;
        if let ValueKind::Operation(operation) = &module.values[value.raw as usize].kind {
            count += 1;
            pending.extend(operation_inputs(&module.operations[operation.raw as usize].kind));
        }
    }
    count
}

fn is_constant(module: &WordModule, value: ValueId, text: &str) -> bool {
    match &module.values[value.raw as usize].kind {
        ValueKind::Constant(bits) => bits.bits == constant(text).bits,
        _ => false,
    }
}

#[test]
fn canonicalizes_word_values_before_bit_lowering() {
    let mut module = WordModule::new();
    let a = input(&mut module, "a", 1);
    let b = input(&mut module, "b", 1);
    let first = module.binary(BinaryOp::BitAnd, a, b, span()).unwrap();
    let duplicate = module.binary(BinaryOp::BitAnd, b, a, span()).unwrap();
    let one = module.constant(constant("1"), bits(1), span()).unwrap();
    let selected = module.mux(one, duplicate, a, span()).unwrap();
    output(&mut module, "y", 1, first);
    output(&mut module, "z", 1, duplicate);
    output(&mut module, "selected", 1, selected);

    optimize(&mut module);

    assert_eq!(live_operations(&module), 1);
    assert!(module.connects.windows(2).all(|pair| pair[0].value == pair[1].value));
}

#[test]
fn resolves_exact_static_vector_aliases_before_region_freeze() {
    let mut module = WordModule::new();
    let ty = WordType { width: 32, signed: false, state: LogicStateKind::FourState };
    let inputs: Vec<ValueId> = ["a", "b", "c"]
        .iter()
        .map(|name| {
            let port = module
                .add_port(name.to_string(), PortDirection::Input, ty, span())
                .unwrap();
            let signal = module.port(port).unwrap().signal;
            module.read_signal(signal, span()).unwrap()
        })
        .collect();
    let shared = module.add_wire("shared".to_string(), ty, span()).unwrap();
    let xor = module.binary(BinaryOp::BitXor, inputs[0], inputs[1], span()).unwrap();
    module.connect(LValue::signal(shared), xor, span()).unwrap();
    let shared_value = module.read_signal(shared, span()).unwrap();
    let and = module.binary(BinaryOp::BitAnd, shared_value, inputs[2], span()).unwrap();
    let port = module
        .add_port("y".to_string(), PortDirection::Output, ty, span())
        .unwrap();
    let signal = module.port(port).unwrap().signal;
    module.connect(LValue::signal(signal), and, span()).unwrap();

    resolve_static_connect_aliases(&mut module).unwrap();
    assert!(module.is_well_formed());

    let and_operation = module
        .operations
        .iter()
        .find(|operation| {
            matches!(operation.kind, OpKind::Binary { op: BinaryOp::BitAnd, .. })
        })
        .unwrap();
    assert!(operation_inputs(&and_operation.kind).into_iter().any(|value| value == xor));
    assert!(module.connects.iter().all(|connect| connect.target.signal != shared));
}

#[test]
fn a_wire_that_is_still_read_keeps_its_connection() {
    let mut module = WordModule::new();
    let a = input(&mut module, "a", 4);
    let late = module.add_wire("late".to_string(), bits(4), span()).unwrap();
    let late_read = module.read_signal(late, span()).unwrap();
    let early = module.unary(UnaryOp::BitNot, late_read, span()).unwrap();
    let driver = module.unary(UnaryOp::BitNot, a, span()).unwrap();
    module.connect(LValue::signal(late), driver, span()).unwrap();
    output(&mut module, "y", 4, early);

    let changes = resolve_static_connect_aliases(&mut module).unwrap();

    assert!(changes.changed);
    assert_eq!(changes.representatives[late_read.raw as usize], driver);
    assert!(module.connects.iter().any(|connect| connect.target.signal == late));
    assert!(module.is_well_formed());
}

#[test]
fn a_wire_that_drives_itself_is_refused() {
    let mut module = WordModule::new();
    let wire = module.add_wire("wire".to_string(), bits(4), span()).unwrap();
    let read = module.read_signal(wire, span()).unwrap();
    module.connect(LValue::signal(wire), read, span()).unwrap();
    match resolve_static_connect_aliases(&mut module) {
        Err(error) => assert_eq!(error, SynthError::Invariant(Invariant::CombinationalCycle)),
        Ok(_) => panic!("a wire that drives itself was resolved"),
    }
}

#[test]
fn a_read_of_a_wholly_driven_wire_stands_for_the_driver() {
    let mut module = WordModule::new();
    let a = input(&mut module, "a", 32);
    let b = input(&mut module, "b", 32);
    let c = input(&mut module, "c", 32);
    let shared = module.add_wire("shared".to_string(), bits(32), span()).unwrap();
    let xor = module.binary(BinaryOp::BitXor, a, b, span()).unwrap();
    module.connect(LValue::signal(shared), xor, span()).unwrap();
    let shared_value = module.read_signal(shared, span()).unwrap();
    let and = module.binary(BinaryOp::BitAnd, shared_value, c, span()).unwrap();
    output(&mut module, "y", 32, and);

    assert_eq!(resolve_aliases(&module).unwrap()[shared_value.raw as usize], xor);
    optimize(&mut module);

    let operation = module
        .operations
        .iter()
        .find(|operation| {
            matches!(operation.kind, OpKind::Binary { op: BinaryOp::BitAnd, .. })
        })
        .unwrap();
    assert!(operation_inputs(&operation.kind).into_iter().any(|value| value == xor));
}

#[test]
fn exact_vector_aliases_reject_reverse_and_multiple_drivers() {
    let mut module = WordModule::new();
    let a = input(&mut module, "a", 4);
    let b = input(&mut module, "b", 4);
    let reversed = module.add_wire("reversed".to_string(), bits(4), span()).unwrap();
    module
        .connect(LValue::signal(reversed).with_range(BitRange { msb: 0, lsb: 3 }), a, span())
        .unwrap();
    let reversed_read = module.read_signal(reversed, span()).unwrap();
    let multiple = module.add_wire("multiple".to_string(), bits(4), span()).unwrap();
    for value in [a, b] {
        module.connect(LValue::signal(multiple), value, span()).unwrap();
    }
    let multiple_read = module.read_signal(multiple, span()).unwrap();
    let mixed = module.add_wire("mixed".to_string(), bits(4), span()).unwrap();
    module.connect(LValue::signal(mixed), a, span()).unwrap();
    let low = module.extract(b, 0, 2, span()).unwrap();
    module
        .connect(LValue::signal(mixed).with_range(BitRange { msb: 1, lsb: 0 }), low, span())
        .unwrap();
    let mixed_read = module.read_signal(mixed, span()).unwrap();
    output(&mut module, "reversed_output", 4, reversed_read);
    output(&mut module, "multiple_output", 4, multiple_read);
    output(&mut module, "mixed_output", 4, mixed_read);

    let changes = resolve_static_connect_aliases(&mut module).unwrap();

    for read in [reversed_read, multiple_read, mixed_read] {
        assert_eq!(changes.representatives[read.raw as usize], read);
    }
    for (signal, count) in [(reversed, 1), (multiple, 2), (mixed, 2)] {
        assert_eq!(
            module.connects.iter().filter(|connect| connect.target.signal == signal).count(),
            count
        );
    }
}

#[test]
fn exact_vector_aliases_preserve_explicit_signal_identity() {
    let mut module = WordModule::new();
    let a = input(&mut module, "a", 4);
    let kept = module.add_wire("kept".to_string(), bits(4), span()).unwrap();
    module.preserve_signal(kept);
    module.connect(LValue::signal(kept), a, span()).unwrap();
    let kept_read = module.read_signal(kept, span()).unwrap();

    let changes = resolve_static_connect_aliases(&mut module).unwrap();

    assert_eq!(changes.representatives[kept_read.raw as usize], kept_read);
    assert!(module.connects.iter().any(|connect| connect.target.signal == kept));
}

#[test]
fn coalesces_complete_static_wire_slices_before_region_freeze() {
    let mut module = WordModule::new();
    let inputs: Vec<ValueId> =
        (0..4).map(|index| input(&mut module, &format!("a{index}"), 8)).collect();
    let aggregate = module.add_wire("aggregate".to_string(), bits(32), span()).unwrap();
    for (index, value) in inputs.iter().enumerate() {
        let lsb = index as u32 * 8;
        module
            .connect(
                LValue::signal(aggregate).with_range(BitRange { msb: lsb + 7, lsb }),
                *value,
                span(),
            )
            .unwrap();
    }

    coalesce_static_wire_drivers(&mut module).unwrap();

    let connects: Vec<_> =
        module.connects.iter().filter(|connect| connect.target.signal == aggregate).collect();
    assert_eq!(connects.len(), 1);
    assert!(connects[0].target.range.is_none());
    match &module.values[connects[0].value.raw as usize].kind {
        ValueKind::Operation(operation) => assert!(matches!(
            module.operations[operation.raw as usize].kind,
            OpKind::Concat { .. }
        )),
        _ => panic!("slices must become a concatenation"),
    }
}

#[test]
fn slices_of_a_signed_wire_are_joined_and_cast() {
    let mut module = WordModule::new();
    let low = input(&mut module, "low", 4);
    let high = input(&mut module, "high", 4);
    let signed = WordType { signed: true, ..bits(8) };
    let wire = module.add_wire("wire".to_string(), signed, span()).unwrap();
    for (lsb, value, id) in [(4, high, 7), (0, low, 9)] {
        module
            .connect(
                LValue::signal(wire).with_range(BitRange { msb: lsb + 3, lsb }),
                value,
                SourceSpan { id },
            )
            .unwrap();
    }

    coalesce_static_wire_drivers(&mut module).unwrap();

    assert_eq!(module.connects.len(), 1);
    assert_eq!(module.connects[0].source, SourceSpan { id: 7 });
    let kind_of = |value: ValueId| match &module.values[value.raw as usize].kind {
        ValueKind::Operation(operation) => &module.operations[operation.raw as usize].kind,
        _ => panic!("slices must be put together"),
    };
    let joined = match kind_of(module.connects[0].value) {
        OpKind::Cast { kind, value, target } => {
            assert_eq!(*kind, CastKind::SignExtend);
            assert_eq!(*target, signed);
            *value
        },
        _ => panic!("the type must be given by a cast"),
    };
    match kind_of(joined) {
        OpKind::Concat { parts } => assert_eq!(*parts, vec![high, low]),
        _ => panic!("slices must become a concatenation"),
    }
}

#[test]
fn leaves_incomplete_static_wire_slices_separate() {
    let mut module = WordModule::new();
    let value = input(&mut module, "a", 8);
    let aggregate = module.add_wire("aggregate".to_string(), bits(24), span()).unwrap();
    for lsb in [0, 16] {
        module
            .connect(
                LValue::signal(aggregate).with_range(BitRange { msb: lsb + 7, lsb }),
                value,
                span(),
            )
            .unwrap();
    }

    coalesce_static_wire_drivers(&mut module).unwrap();

    assert_eq!(
        module.connects.iter().filter(|connect| connect.target.signal == aggregate).count(),
        2
    );
}

#[test]
fn folds_results_proven_constant_by_partial_bit_facts() {
    let mut module = WordModule::new();
    let a = input(&mut module, "a", 8);
    let zero = module.constant(constant("00000000"), bits(8), span()).unwrap();
    let masked = module.binary(BinaryOp::BitAnd, a, zero, span()).unwrap();
    let mut known = facts(&module);
    known[masked.raw as usize] = Some(constant("00000000"));

    optimize_combinational_dataflow_by(&mut module, &known, |_, _| true).unwrap();

    assert!(is_constant(&module, masked, "00000000"));
}

#[test]
fn folds_variable_extract_from_a_known_zero_aggregate() {
    let mut module = WordModule::new();
    let offset = input(&mut module, "offset", 6);
    let zero = module.constant(constant(&"0".repeat(64)), bits(64), span()).unwrap();
    let extracted = module.dynamic_extract(zero, offset, 1, span()).unwrap();
    let mut known = facts(&module);
    known[extracted.raw as usize] = Some(constant("0"));

    optimize_combinational_dataflow_by(&mut module, &known, |_, _| true).unwrap();

    assert!(is_constant(&module, extracted, "0"));
}

#[test]
fn folds_variable_extract_with_a_known_invalid_offset() {
    let mut module = WordModule::new();
    let data = module.constant(constant(&"1".repeat(64)), bits(64), span()).unwrap();
    let offset = module.constant(constant("1000000"), bits(7), span()).unwrap();
    let extracted = module.dynamic_extract(data, offset, 1, span()).unwrap();
    let mut known = facts(&module);
    known[extracted.raw as usize] = Some(constant("0"));

    optimize_combinational_dataflow_by(&mut module, &known, |_, _| true).unwrap();

    assert!(is_constant(&module, extracted, "0"));
}

#[test]
fn preserves_alias_connect_when_its_driver_follows_an_operation_use() {
    let mut module = WordModule::new();
    let alias = module.add_wire("alias".to_string(), bits(1), span()).unwrap();
    let alias_value = module.read_signal(alias, span()).unwrap();
    let inverted = module.unary(UnaryOp::BitNot, alias_value, span()).unwrap();
    let input_value = input(&mut module, "input", 1);
    module.connect(LValue::signal(alias), input_value, span()).unwrap();
    output(&mut module, "output", 1, inverted);

    optimize(&mut module);

    assert!(module.connects.iter().any(|connect| connect.target.signal == alias));
}

#[test]
fn preserves_signal_alias_selected_by_synthesis_directive() {
    let mut module = WordModule::new();
    let input_value = input(&mut module, "input", 1);
    let kept = module.add_wire("kept".to_string(), bits(1), span()).unwrap();
    module.preserve_signal(kept);
    module.connect(LValue::signal(kept), input_value, span()).unwrap();
    let kept_value = module.read_signal(kept, span()).unwrap();
    output(&mut module, "output", 1, kept_value);

    optimize(&mut module);

    assert_eq!(module.connects.len(), 2);
    match module.values[module.connects[1].value.raw as usize].kind {
        ValueKind::Signal(reference) => assert_eq!(reference.signal, kept),
        _ => panic!("the output must still read the kept signal"),
    }
}

#[test]
fn preserves_alias_chain_when_its_resolved_driver_follows_an_operation_use() {
    let mut module = WordModule::new();
    let upstream = module.add_wire("upstream".to_string(), bits(1), span()).unwrap();
    let upstream_value = module.read_signal(upstream, span()).unwrap();
    let alias = module.add_wire("alias".to_string(), bits(1), span()).unwrap();
    let alias_value = module.read_signal(alias, span()).unwrap();
    let inverted = module.unary(UnaryOp::BitNot, alias_value, span()).unwrap();
    let input_value = input(&mut module, "input", 1);
    module.connect(LValue::signal(upstream), input_value, span()).unwrap();
    module.connect(LValue::signal(alias), upstream_value, span()).unwrap();
    output(&mut module, "output", 1, inverted);

    optimize(&mut module);

    assert!(module.connects.iter().any(|connect| connect.target.signal == alias));
}

#[test]
fn priority_rebalancing_repartitions_generated_operations_from_word_ir() {
    let mut module = WordModule::new();
    let inputs: Vec<ValueId> =
        (0..4).map(|index| input(&mut module, &format!("condition_{index}"), 1)).collect();
    let zero = module.constant(constant("0"), bits(1), span()).unwrap();
    let one = module.constant(constant("1"), bits(1), span()).unwrap();
    let mut conditions = Vec::new();
    for value in inputs {
        conditions.push(module.binary(BinaryOp::BitAnd, value, one, span()).unwrap());
    }
    let mut selected = zero;
    for condition in &conditions {
        selected = module.mux(*condition, one, selected, span()).unwrap();
    }
    output(&mut module, "selected", 1, selected);
    let original_operations = module.operations.len();

    assert!(rebalance_constant_priority_muxes(&mut module).unwrap());
    assert!(module.operations.len() > original_operations);
    match &module.values[module.connects[0].value.raw as usize].kind {
        ValueKind::Operation(operation) => {
            assert!(operation.raw as usize >= original_operations);
        }
        _ => panic!("the output must be driven by an operation"),
    }
}

#[test]
fn keeps_a_driver_for_a_wire_read_only_by_an_instance() {
    let mut module = WordModule::new();
    let read = input(&mut module, "a", 1);
    let driver = module.unary(UnaryOp::BitNot, read, span()).unwrap();
    let wire = module.add_wire("enable".to_string(), bits(1), span()).unwrap();
    module.connect(LValue::signal(wire), driver, span()).unwrap();
    let enable = module.read_signal(wire, span()).unwrap();
    let pin = module.intern_name("GATE".to_string()).unwrap();
    module
        .add_instance(
            "gate".to_string(),
            "ICG".to_string(),
            vec![InstanceConnection { pin, value: enable, source: span() }],
            span(),
        )
        .unwrap();
    let known = facts(&module);
    let owners = vec![Some(0); module.operations.len()];
    optimize_owned_combinational_dataflow(&mut module, &owners, &known).unwrap();

    for instance in &module.instances {
        for connection in &instance.connections {
            if let ValueKind::Signal(reference) =
                module.values[connection.value.raw as usize].kind
            {
                assert!(
                    module
                        .connects
                        .iter()
                        .any(|connect| connect.target.signal == reference.signal),
                    "instance connection reads a wire with no driver"
                );
            }
        }
    }
}

#[test]
fn folding_follows_known_bits_only() {
    assert_eq!(fold_unary(UnaryOp::BitNot, &constant("10")), constant("01").bits);
    assert_eq!(
        fold_cast(&constant("10"), CastKind::SignExtend, bits(4)).unwrap(),
        constant("1110").bits
    );
    let mut module = WordModule::new();
    let three = module.constant(constant("0011"), bits(4), span()).unwrap();
    let five = module.constant(constant("0101"), bits(4), span()).unwrap();
    let joined = OpKind::Concat { parts: vec![three, five] };
    let folded = fold_operation(&module, &joined, bits(8)).unwrap().unwrap();
    assert_eq!(folded.bits, constant("00110101").bits);
    let open = input(&mut module, "open", 4);
    let other = OpKind::Concat { parts: vec![three, open] };
    assert!(fold_operation(&module, &other, bits(8)).unwrap().is_none());
}

#[test]
fn representatives_are_closed_along_chains() {
    let mut chain: Vec<ValueId> = [0u32, 0, 1, 2].map(|raw| ValueId { raw }).to_vec();
    close_representatives(&mut chain).unwrap();
    assert!(chain.iter().all(|value| value.raw == 0));
    let once = chain.clone();
    close_representatives(&mut chain).unwrap();
    assert_eq!(chain, once);
}

#[test]
fn representatives_that_lead_nowhere_are_refused() {
    let mut circle: Vec<ValueId> = [0u32, 2, 1, 9].map(|raw| ValueId { raw }).to_vec();
    let error = close_representatives(&mut circle).unwrap_err();
    assert_eq!(error, SynthError::Invariant(Invariant::CombinationalCycle));
    let mut outside: Vec<ValueId> = [0u32, 3, 0, 9, 5, 4].map(|raw| ValueId { raw }).to_vec();
    let error = close_representatives(&mut outside).unwrap_err();
    assert_eq!(error, SynthError::Invariant(Invariant::UnknownValue));
}

fn wire(module: &mut WordModule, name: &str) -> ValueId {
    let signal = module.add_wire(name.to_string(), bits(1), span()).unwrap();
    module.read_signal(signal, span()).unwrap()
}

fn register(module: &mut WordModule, d: ValueId, clock: ValueId, enable: Option<Enable>) -> ValueId {
    module
        .register(
            RegisterOp { name: None, d, clock, edge: Edge::Pos, enable, resets: Vec::new() },
            span(),
        )
        .unwrap()
}

fn two_registers() -> (WordModule, ValueId, ValueId) {
    let mut module = WordModule::new();
    let d = wire(&mut module, "d");
    let clock_signal = module.add_wire("clock".to_string(), bits(1), span()).unwrap();
    let q0_signal = module.add_wire("q0".to_string(), bits(1), span()).unwrap();
    let q1_signal = module.add_wire("q1".to_string(), bits(1), span()).unwrap();
    let clock = module.read_signal(clock_signal, span()).unwrap();
    let q0 = register(&mut module, d, clock, None);
    let q1_clock = module.read_signal(clock_signal, span()).unwrap();
    let q1 = register(&mut module, d, q1_clock, None);
    module.connect(LValue::signal(q0_signal), q0, span()).unwrap();
    module.connect(LValue::signal(q1_signal), q1, span()).unwrap();
    (module, q0, q1)
}

#[test]
fn shares_registers_with_identical_data_and_controls() {
    let (mut split, _, _) = two_registers();
    assert!(!share_equivalent_sequential_values_in_regions(&mut split, &vec![Some(0), Some(1)])
        .unwrap()
        .has_equivalences());

    let (mut module, q0, q1) = two_registers();
    let changes =
        share_equivalent_sequential_values_in_regions(&mut module, &vec![Some(0), Some(0)])
            .unwrap();

    assert!(changes.has_equivalences());
    assert_eq!(changes.representatives[q1.raw as usize], q0);
    assert_eq!(module.connects[0].value, q0);
    assert_eq!(module.connects[1].value, q0);
    assert_eq!(live_operations(&module), 1);
}

#[test]
fn does_not_share_async_registers() {
    let mut module = WordModule::new();
    let d = wire(&mut module, "d");
    let clock = wire(&mut module, "clock");
    for index in 0..2 {
        let signal = module.add_wire(format!("q{index}"), bits(1), span()).unwrap();
        let value = register(&mut module, d, clock, None);
        module.connect(LValue::signal(signal), value, span()).unwrap();
        if index == 1 {
            module.preserve_signal(signal);
        }
    }
    let changes =
        share_equivalent_sequential_values_in_regions(&mut module, &vec![Some(0), Some(0)])
            .unwrap();
    assert!(!changes.has_equivalences());
    assert_eq!(live_operations(&module), 2);
}

#[test]
fn keeps_registers_with_different_enables() {
    let mut module = WordModule::new();
    let signals = ["d", "clock", "enable0", "enable1"].map(|name| wire(&mut module, name));
    for enable in &signals[2..] {
        register(
            &mut module,
            signals[0],
            signals[1],
            Some(Enable { value: *enable, active_high: true }),
        );
    }
    let changes =
        share_equivalent_sequential_values_in_regions(&mut module, &vec![Some(0), Some(0)])
            .unwrap();
    assert!(!changes.has_equivalences());
}

#[test]
fn shares_registers_by_boolean_graph_equivalence() {
    let mut module = WordModule::new();
    let d = wire(&mut module, "d");
    let clock = wire(&mut module, "clock");
    let d0 = module.unary(UnaryOp::BitNot, d, span()).unwrap();
    let d1 = module.unary(UnaryOp::BitNot, d, span()).unwrap();
    let registers = [d0, d1].map(|data| register(&mut module, data, clock, None));
    for (index, value) in registers.iter().enumerate() {
        let signal = module.add_wire(format!("q{index}"), bits(1), span()).unwrap();
        module.connect(LValue::signal(signal), *value, span()).unwrap();
    }
    let regions = vec![Some(0); module.operations.len()];
    let known = facts(&module);
    let canonical =
        optimize_owned_combinational_dataflow(&mut module, &regions, &known).unwrap();
    let changes = share_equivalent_sequential_values_by(
        &mut module,
        &regions,
        &canonical.representatives,
    )
    .unwrap();

    assert!(changes.has_equivalences());
    assert_eq!(changes.representatives[registers[1].raw as usize], registers[0]);
}

#[test]
fn preserves_tri_state_net_reads_as_physical_boundaries() {
    let mut module = WordModule::named("tri_state_feedback".to_string());
    let bit = WordType { width: 1, signed: false, state: LogicStateKind::FourState };
    let [data, enable] = ["data", "enable"].map(|name| {
        let port = module.add_port(name.to_string(), PortDirection::Input, bit, span()).unwrap();
        let signal = module.port(port).unwrap().signal;
        module.read_signal(signal, span()).unwrap()
    });
    let pad = module.add_port("pad".to_string(), PortDirection::Inout, bit, span()).unwrap();
    let output =
        module.add_port("observed".to_string(), PortDirection::Output, bit, span()).unwrap();
    let pad = module.port(pad).unwrap().signal;
    module.set_signal_resolution(pad, SignalResolution::TriState);
    let driver =
        module.tri_state(data, Enable { value: enable, active_high: true }, span()).unwrap();
    module.connect(LValue::signal(pad), driver, span()).unwrap();
    let pad_read = module.read_signal(pad, span()).unwrap();
    let observed = module.unary(UnaryOp::BitNot, pad_read, span()).unwrap();
    let sink = module.port(output).unwrap().signal;
    module.connect(LValue::signal(sink), observed, span()).unwrap();

    let known = facts(&module);
    optimize_combinational_dataflow(&mut module, known).unwrap();

    let operation = match module.values[observed.raw as usize].kind {
        ValueKind::Operation(operation) => operation,
        _ => panic!("observed value must remain operation-backed"),
    };
    assert!(matches!(
        module.operations[operation.raw as usize].kind,
        OpKind::Unary { arg, .. } if arg == pad_read
    ));
    assert!(module
        .connects
        .iter()
        .any(|connect| connect.target.signal == pad && connect.value == driver));
}

#[test]
fn a_tri_state_signal_has_no_sole_driver() {
    let mut module = WordModule::named("bus".to_string());
    let data = input(&mut module, "data", 2);
    let bus = module.add_wire("bus".to_string(), WordType::bits(2).unwrap(), span()).unwrap();
    module.connect(LValue::signal(bus), data, span()).unwrap();
    let read = module.read_signal(bus, span()).unwrap();
    let reference = match module.values[read.raw as usize].kind {
        ValueKind::Signal(reference) => reference,
        _ => panic!("a read names its signal"),
    };
    assert!(SignalDriverIndex::new(&module).resolve_reference(reference).is_some());
    module.set_signal_resolution(bus, SignalResolution::TriState);
    assert!(SignalDriverIndex::new(&module).resolve_reference(reference).is_none());
}
