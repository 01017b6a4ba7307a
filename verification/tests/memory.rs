use opto_synth::error::{Invariant, SynthError, Unsupported};
use opto_synth::planning::memory::clocks::{
    register_bank_is_supported, register_bank_word_clocks, write_may_address,
};
use opto_synth::planning::memory::lowering::{lower_selected_memories, MemoryLoweringBinding};
use opto_synth::planning::memory::macros::compatible_memory_macros;
use opto_synth::planning::memory::naming::unique_name;
use opto_synth::planning::memory::ports::sort_by_priority;
use opto_synth::planning::memory::target::{
    TargetCell, TargetMemory, TargetMemoryClock, TargetMemoryDisabledRead, TargetMemoryEdge,
    TargetMemoryKind, TargetMemoryReadDuringWrite, TargetMemoryReadPort, TargetMemoryWritePort,
};
use opto_synth::planning::regional::decision::MemoryImplementationCandidate;
use opto_synth::word::module::{
    DisabledRead, MemoryClock, MemoryReadPort, MemoryReadTiming, MemoryWritePort, PortDirection,
    ReadDuringWrite, ValueKind, WordModule,
};
use opto_synth::word::types::{
    BitVal, ConstBits, Edge, Enable, MemoryId, OpKind, RegisterOp, SignalId, SourceSpan, ValueId,
    WordType,
};

fn span() -> SourceSpan {
    SourceSpan::default()
}

fn bits(width: u32) -> WordType {
    WordType::bits(width).unwrap()
}

fn input(module: &mut WordModule, name: &str, width: u32) -> ValueId {
    let port = module
        .add_port(name.to_string(), PortDirection::Input, bits(width), span())
        .unwrap();
    let signal = module.port(port).unwrap().signal;
    module.read_signal(signal, span()).unwrap()
}

fn memory_module() -> (WordModule, MemoryId, ValueId, ValueId, ValueId) {
    let mut module = WordModule::new();
    let clock = input(&mut module, "clock", 1);
    let address = input(&mut module, "address", 2);
    let data = input(&mut module, "data", 8);
    let memory = module
        .add_memory("memory".to_string(), bits(8), 2, span())
        .unwrap();
    (module, memory, clock, address, data)
}

fn facts(module: &WordModule) -> Vec<Option<ConstBits>> {
    module
        .values
        .iter()
        .map(|value| match &value.kind {
            ValueKind::Constant(bits) => Some(bits.duplicate()),
            _ => None,
        })
        .collect()
}

fn lower_memories_to_register_banks(
    module: &mut WordModule,
) -> Result<MemoryLoweringBinding, SynthError> {
    let implementations =
        vec![Some(MemoryImplementationCandidate::RegisterBank); module.memories.len()];
    let known = facts(module);
    lower_selected_memories(module, &implementations, &Vec::new(), &known, &Vec::new())
}

fn rising(value: ValueId) -> MemoryClock {
    MemoryClock { value, edge: Edge::Pos }
}

fn write(memory: MemoryId, address: ValueId, data: ValueId, clock: ValueId) -> MemoryWritePort {
    MemoryWritePort {
        memory,
        address,
        data,
        clock: rising(clock),
        enable: None,
        mask: None,
        priority: 0,
        source: span(),
    }
}

fn driver_of(module: &WordModule, signal: SignalId) -> ValueId {
    module
        .connects
        .iter()
        .find(|connect| connect.target.signal == signal)
        .unwrap()
        .value
}

fn operation_of(module: &WordModule, value: ValueId) -> &OpKind {
    match &module.values[value.raw as usize].kind {
        ValueKind::Operation(operation) => &module.operations[operation.raw as usize].kind,
        _ => panic!("value must be produced by an operation"),
    }
}

fn read_register(module: &WordModule, signal: SignalId) -> &RegisterOp {
    match operation_of(module, driver_of(module, signal)) {
        OpKind::Register(register) => register,
        _ => panic!("synchronous read must be driven by a register"),
    }
}

fn assert_unknown(module: &WordModule, value: ValueId) {
    match &module.values[value.raw as usize].kind {
        ValueKind::Constant(bits) => assert!(bits.bits.iter().all(|bit| *bit == BitVal::X)),
        _ => panic!("expected an unknown constant"),
    }
}

#[test]
fn out_of_range_read_selects_unknown_instead_of_word_zero() {
    let (mut module, memory, clock, address, data) = memory_module();
    let read_data = module.add_wire("read_data".to_string(), bits(8), span()).unwrap();
    module
        .add_memory_read_port(MemoryReadPort {
            memory,
            address,
            data: read_data,
            timing: MemoryReadTiming::Asynchronous,
            read_during_write: ReadDuringWrite::OldData,
            source: span(),
        })
        .unwrap();
    module.add_memory_write_port(write(memory, address, data, clock)).unwrap();

    let ownership = lower_memories_to_register_banks(&mut module).unwrap();
    let operations: Vec<_> = ownership
        .operations()
        .into_iter()
        .filter(|entry| entry.1 == memory)
        .collect();
    assert!(!operations.is_empty());
    assert_eq!(ownership.operation(memory, 0), Some(operations[0].0));
    let states: Vec<_> = ownership
        .state_values()
        .into_iter()
        .filter(|entry| entry.1 == memory)
        .map(|entry| entry.0)
        .collect();
    assert_eq!(states.len(), 2);
    for (ordinal, value) in states.iter().enumerate() {
        assert_eq!(ownership.state_value(memory, ordinal as u32), Some(*value));
    }
    assert_eq!(ownership.state_value(memory, states.len() as u32), None);
    let mut value = driver_of(&module, read_data);
    for _ in 0..2 {
        value = match operation_of(&module, value) {
            OpKind::Mux { else_value, .. } => *else_value,
            _ => panic!("memory select must be a mux chain"),
        };
    }
    assert_unknown(&module, value);
}

fn synchronous_read(
    module: &mut WordModule,
    memory: MemoryId,
    clock: ValueId,
    address: ValueId,
    enable: Option<Enable>,
    disabled: DisabledRead,
    mode: ReadDuringWrite,
) -> SignalId {
    let read_data = module.add_wire("read_data".to_string(), bits(8), span()).unwrap();
    module
        .add_memory_read_port(MemoryReadPort {
            memory,
            address,
            data: read_data,
            timing: MemoryReadTiming::Synchronous { clock: rising(clock), enable, disabled },
            read_during_write: mode,
            source: span(),
        })
        .unwrap();
    read_data
}

#[test]
fn disabled_synchronous_read_updates_to_unknown() {
    let (mut module, memory, clock, address, data) = memory_module();
    let enable = input(&mut module, "read_enable", 1);
    let read_data = synchronous_read(
        &mut module,
        memory,
        clock,
        address,
        Some(Enable { value: enable, active_high: true }),
        DisabledRead::Undefined,
        ReadDuringWrite::OldData,
    );
    module.add_memory_write_port(write(memory, address, data, clock)).unwrap();

    lower_memories_to_register_banks(&mut module).unwrap();
    let register = read_register(&module, read_data);
    assert!(register.enable.is_none());
    match operation_of(&module, register.d) {
        OpKind::Mux { else_value, .. } => assert_unknown(&module, *else_value),
        _ => panic!("disabled-undefined read must select an unknown value"),
    }
}

#[test]
fn undefined_read_during_write_materializes_an_unknown_collision_path() {
    let (mut module, memory, clock, address, data) = memory_module();
    let read_data = synchronous_read(
        &mut module,
        memory,
        clock,
        address,
        None,
        DisabledRead::Hold,
        ReadDuringWrite::Undefined,
    );
    module.add_memory_write_port(write(memory, address, data, clock)).unwrap();

    lower_memories_to_register_banks(&mut module).unwrap();
    let register = read_register(&module, read_data);
    match operation_of(&module, register.d) {
        OpKind::Mux { then_value, .. } => assert_unknown(&module, *then_value),
        _ => panic!("undefined collision must select an unknown value"),
    }
}

#[test]
fn a_collision_holds_a_read_that_must_not_change() {
    let (mut module, memory, clock, address, data) = memory_module();
    let read_data = synchronous_read(
        &mut module,
        memory,
        clock,
        address,
        None,
        DisabledRead::Hold,
        ReadDuringWrite::NoChange,
    );
    module.add_memory_write_port(write(memory, address, data, clock)).unwrap();

    lower_memories_to_register_banks(&mut module).unwrap();
    let register = read_register(&module, read_data);
    let enable = register.enable.unwrap();
    assert!(enable.active_high);
    assert!(matches!(operation_of(&module, enable.value), OpKind::Unary { .. }));
}

#[test]
fn different_write_clocks_fail_before_resource_extraction() {
    let (mut module, memory, first_clock, address, data) = memory_module();
    let second_clock = input(&mut module, "second_clock", 1);
    for (priority, clock) in [first_clock, second_clock].into_iter().enumerate() {
        let mut port = write(memory, address, data, clock);
        port.priority = priority as u32;
        module.add_memory_write_port(port).unwrap();
    }

    let error = lower_memories_to_register_banks(&mut module).unwrap_err();
    assert_eq!(error, SynthError::Unsupported(Unsupported::SharedWriteClocks(memory)));
    assert!(error.message().contains("multiple write clocks"));
    assert_eq!(
        error.message_in(&module),
        "register-bank memory 'memory' has multiple write clocks that may update the same word"
    );
    assert_eq!(module.memories.len(), 1);
    assert_eq!(module.memory_writes.len(), 2);
}

#[test]
fn clocks_may_differ_where_they_reach_different_words() {
    let (mut module, memory, first_clock, address, data) = memory_module();
    let second_clock = input(&mut module, "second_clock", 1);
    let other = input(&mut module, "other", 2);
    module.add_memory_write_port(write(memory, address, data, first_clock)).unwrap();
    module.add_memory_write_port(write(memory, other, data, second_clock)).unwrap();
    let mut ranges = vec![None; module.values.len()];
    assert!(!register_bank_is_supported(&module, memory, &ranges));
    ranges[address.raw as usize] = Some((0, 0));
    ranges[other.raw as usize] = Some((1, 1));
    assert!(write_may_address(&ranges, address, 0));
    assert!(!write_may_address(&ranges, address, 1));
    let clocks = register_bank_word_clocks(&module, memory, &ranges).unwrap();
    assert_eq!(clocks, vec![rising(first_clock), rising(second_clock)]);
}

#[test]
fn read_only_memory_has_no_implicit_fallback_implementation() {
    let (mut module, memory, _, _, _) = memory_module();

    let error = lower_memories_to_register_banks(&mut module).unwrap_err();
    assert_eq!(error, SynthError::Unsupported(Unsupported::NoWritableStorage(memory)));
    assert!(error.message().contains("no writable storage"));
    assert_eq!(
        error.message_in(&module),
        "memory 'memory' has no writable storage implementation"
    );
    assert_eq!(module.memories.len(), 1);
}

#[test]
fn implementations_must_match_the_memories() {
    let (mut module, _, _, _, _) = memory_module();
    let error =
        lower_selected_memories(&mut module, &Vec::new(), &Vec::new(), &Vec::new(), &Vec::new())
            .unwrap_err();
    assert_eq!(error, SynthError::Invariant(Invariant::BrokenSelection));
    let error = lower_selected_memories(
        &mut module,
        &vec![Some(MemoryImplementationCandidate::Macro(3))],
        &Vec::new(),
        &Vec::new(),
        &Vec::new(),
    )
    .unwrap_err();
    assert_eq!(error, SynthError::Invariant(Invariant::UnknownMacro));
    assert_eq!(module.memories.len(), 1);
    lower_selected_memories(&mut module, &vec![None], &Vec::new(), &Vec::new(), &Vec::new())
        .unwrap();
    assert_eq!(module.memories.len(), 0);
}

fn pins(prefix: &str, count: usize) -> Vec<String> {
    (0..count).map(|bit| format!("{prefix}{bit}")).collect()
}

fn ram_macro() -> TargetCell {
    TargetCell {
        name: "RAM4X8".to_string(),
        usable: true,
        memory: Some(TargetMemory {
            kind: TargetMemoryKind::Ram,
            depth: 4,
            word_width: 8,
            read_ports: vec![TargetMemoryReadPort {
                address_pins: pins("A", 2),
                data_pins: pins("Q", 8),
                clock: None,
                enable: None,
                disabled: TargetMemoryDisabledRead::Undefined,
                read_during_write: TargetMemoryReadDuringWrite::OldData,
            }],
            write_ports: vec![TargetMemoryWritePort {
                address_pins: pins("A", 2),
                data_pins: pins("D", 8),
                clock: TargetMemoryClock {
                    pin: "CLK".to_string(),
                    edge: TargetMemoryEdge::Rising,
                },
                enable: None,
                mask_pins: Vec::new(),
                mask_granularity: 0,
                mask_active_high: true,
            }],
        }),
    }
}

fn asynchronous_read(module: &mut WordModule, memory: MemoryId, address: ValueId, name: &str) {
    let data = module.add_wire(name.to_string(), bits(8), span()).unwrap();
    module
        .add_memory_read_port(MemoryReadPort {
            memory,
            address,
            data,
            timing: MemoryReadTiming::Asynchronous,
            read_during_write: ReadDuringWrite::OldData,
            source: span(),
        })
        .unwrap();
}

#[test]
fn compatible_macro_is_selected_and_materialized_with_exact_scalar_pins() {
    let mut module = WordModule::new();
    let clock = input(&mut module, "clock", 1);
    let address = input(&mut module, "address", 2);
    let data = input(&mut module, "data", 8);
    let memory = module.add_memory("memory".to_string(), bits(8), 4, span()).unwrap();
    asynchronous_read(&mut module, memory, address, "read_data");
    module.add_memory_write_port(write(memory, address, data, clock)).unwrap();
    let cells = vec![ram_macro()];
    let known = facts(&module);

    assert_eq!(
        compatible_memory_macros(&module, &known, &Vec::new(), memory, &cells).unwrap(),
        vec![0]
    );
    lower_selected_memories(
        &mut module,
        &vec![Some(MemoryImplementationCandidate::Macro(0))],
        &cells,
        &known,
        &Vec::new(),
    )
    .unwrap();

    assert!(module.memories.is_empty());
    assert!(module.memory_reads.is_empty());
    assert!(module.memory_writes.is_empty());
    assert_eq!(module.instances.len(), 1);
    let instance = &module.instances[0];
    assert_eq!(module.names[instance.cell.raw as usize], "RAM4X8");
    assert_eq!(instance.connections.len(), 19);
    assert_eq!(
        instance
            .connections
            .iter()
            .map(|connection| module.names[connection.pin.raw as usize].clone())
            .collect::<Vec<_>>(),
        [
            "A0", "A1", "CLK", "D0", "D1", "D2", "D3", "D4", "D5", "D6", "D7", "Q0", "Q1", "Q2",
            "Q3", "Q4", "Q5", "Q6", "Q7"
        ]
    );
}

#[test]
fn shared_macro_pins_require_identical_logical_bindings() {
    let mut module = WordModule::new();
    let clock = input(&mut module, "clock", 1);
    let first_address = input(&mut module, "first_address", 2);
    let second_address = input(&mut module, "second_address", 2);
    let data = input(&mut module, "data", 8);
    let memory = module.add_memory("memory".to_string(), bits(8), 4, span()).unwrap();
    asynchronous_read(&mut module, memory, first_address, "first_read_data");
    asynchronous_read(&mut module, memory, second_address, "second_read_data");
    module.add_memory_write_port(write(memory, first_address, data, clock)).unwrap();

    let mut target = ram_macro();
    let contract = target.memory.as_mut().unwrap();
    let mut second_read = contract.read_ports[0].clone();
    second_read.data_pins = pins("R", 8);
    contract.read_ports.push(second_read);
    let cells = vec![target];
    let known = facts(&module);

    assert!(compatible_memory_macros(&module, &known, &Vec::new(), memory, &cells)
        .unwrap()
        .is_empty());
    let error = lower_selected_memories(
        &mut module,
        &vec![Some(MemoryImplementationCandidate::Macro(0))],
        &cells,
        &known,
        &Vec::new(),
    )
    .unwrap_err();
    assert!(error.message().contains("incompatible"));
    assert_eq!(module.memories.len(), 1);
    assert_eq!(module.memory_reads.len(), 2);
}

#[test]
fn names_get_the_first_free_suffix() {
    let taken = vec!["word".to_string(), "word$1".to_string()];
    assert_eq!(unique_name(&"word".to_string(), &taken).unwrap(), "word$2");
    assert_eq!(unique_name(&"other".to_string(), &taken).unwrap(), "other");
}

#[test]
fn writes_with_one_priority_stay_in_order() {
    let (_, memory, clock, address, data) = memory_module();
    let mut ports = Vec::new();
    for priority in [2, 1, 2, 0] {
        let mut port = write(memory, address, data, clock);
        port.priority = priority;
        port.source = SourceSpan { id: ports.len() as u32 };
        ports.push(port);
    }
    let order: Vec<u32> = sort_by_priority(&ports).iter().map(|port| port.source.id).collect();
    assert_eq!(order, vec![3, 1, 0, 2]);
}
