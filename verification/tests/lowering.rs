use opto_synth::error::{Invariant, SynthError};
use opto_synth::planning::regional::cone::{
    RegionalMemoryValueKind, RegionalWordCone, RegionalWordConeRequest,
};
use opto_synth::planning::regional::decision::MemoryImplementationCandidate;
use opto_synth::word::module::{
    LValue, MemoryClock, MemoryReadPort, MemoryReadTiming, MemoryWritePort, PortDirection,
    ReadDuringWrite, ValueKind, WordModule,
};
use opto_synth::word::types::{
    BinaryOp, Edge, MemoryId, OpId, OpKind, RegisterOp, SourceSpan, UnaryOp, ValueId, WordType,
};

fn span() -> SourceSpan {
    SourceSpan::default()
}

fn bits(width: u32) -> WordType {
    WordType::bits(width).unwrap()
}

fn input(module: &mut WordModule, name: &str, width: u32) -> ValueId {
    let port = module
        .add_port(name.to_string(), PortDirection::Input, bits(width), span())
        .unwrap();
    let signal = module.port(port).unwrap().signal;
    module.read_signal(signal, span()).unwrap()
}

fn build(
    source: &WordModule,
    regions: Vec<Option<u32>>,
    region: u32,
    boundary: Vec<ValueId>,
    roots: Vec<ValueId>,
) -> Result<RegionalWordCone, SynthError> {
    let memories: Vec<MemoryId> = Vec::new();
    let known: Vec<Vec<Option<bool>>> = Vec::new();
    RegionalWordCone::build(&RegionalWordConeRequest {
        source,
        operation_regions: &regions,
        region,
        known: &known,
        memories: &memories,
        boundary_inputs: &boundary,
        roots: &roots,
    })
}

fn op(raw: u32) -> OpId {
    OpId { raw }
}

fn local(cone: &RegionalWordCone, value: ValueId) -> Option<ValueId> {
    cone.source_to_local[value.raw as usize]
}

fn ports(cone: &RegionalWordCone, direction: PortDirection) -> usize {
    cone.module.ports.iter().filter(|port| port.direction == direction).count()
}

fn line(id: u32) -> SourceSpan {
    SourceSpan { id }
}

#[test]
fn reports_combinational_feedback_with_hdl_locations() {
    let mut source = WordModule::named("feedback".to_string());
    let left = source.add_wire("left".to_string(), bits(1), line(1)).unwrap();
    let right = source.add_wire("right".to_string(), bits(1), line(1)).unwrap();
    let left_value = source.read_signal(left, line(2)).unwrap();
    let right_value = source.read_signal(right, line(3)).unwrap();
    source.connect(LValue::signal(left), right_value, line(2)).unwrap();
    source.connect(LValue::signal(right), left_value, line(3)).unwrap();

    let error = match build(&source, Vec::new(), 0, Vec::new(), vec![left_value]) {
        Err(error) => error,
        Ok(_) => panic!("combinational feedback unexpectedly imported"),
    };
    let cycle = match &error {
        SynthError::CombinationalCycle(cycle) => cycle,
        _ => panic!("expected structured combinational-cycle error"),
    };
    assert_eq!(cycle.debug_values(), vec![left_value, right_value, left_value]);
    assert_eq!(cycle.nodes().len(), 2);
    assert_eq!(error.message(), "combinational loop detected in module 'feedback'");
    assert_eq!(cycle.code(), "OPT-SYN-001");
    assert_eq!(cycle.nodes()[0].source, line(2));
    assert_eq!(cycle.nodes()[1].source, line(3));
    assert!(cycle.nodes()[0].label().contains("signal 'left'"));
}

#[test]
fn a_loop_of_bits_is_told_from_its_first_bit_on() {
    let mut source = WordModule::named("packed".to_string());
    let wire = source.add_wire("wire".to_string(), bits(2), span()).unwrap();
    let root = source.read_signal(wire, span()).unwrap();
    let high = source.read_signal_slice(wire, 1, 1, span()).unwrap();
    let low = source.read_signal_slice(wire, 0, 1, span()).unwrap();
    let swapped = source.concat(vec![low, high], span()).unwrap();
    source.connect(LValue::signal(wire), swapped, span()).unwrap();

    match build(&source, vec![Some(0)], 0, Vec::new(), vec![root]) {
        Err(SynthError::CombinationalCycle(cycle)) => {
            assert_eq!(cycle.debug_values(), vec![high, swapped, low, swapped, high]);
            assert!(cycle.nodes()[1].label().contains("an operation"));
            assert_eq!(cycle.nodes()[0].bit, 0);
        }
        _ => panic!("bits that run in a circle were carried over"),
    }
}

#[test]
fn the_loop_that_the_first_bit_leads_to_is_told() {
    let mut source = WordModule::named("loops".to_string());
    let mut circle = |names: [&str; 2]| {
        let wires =
            names.map(|name| source.add_wire(name.to_string(), bits(1), span()).unwrap());
        let reads = wires.map(|wire| source.read_signal(wire, span()).unwrap());
        source.connect(LValue::signal(wires[0]), reads[1], span()).unwrap();
        source.connect(LValue::signal(wires[1]), reads[0], span()).unwrap();
        reads
    };
    let first = circle(["a", "b"]);
    let second = circle(["c", "d"]);

    match build(&source, Vec::new(), 0, Vec::new(), vec![second[0]]) {
        Err(SynthError::CombinationalCycle(cycle)) => {
            assert_eq!(cycle.debug_values(), vec![first[0], first[1], first[0]]);
        }
        _ => panic!("values that run in a circle were carried over"),
    }
}

#[test]
fn a_deep_chain_is_carried_over() {
    let mut source = WordModule::named("chain".to_string());
    let mut last = input(&mut source, "input", 2);
    let mut regions: Vec<Option<u32>> = Vec::new();
    for _ in 0..500 {
        last = source.unary(UnaryOp::BitNot, last, span()).unwrap();
        regions.push(Some(7));
    }
    let cone = build(&source, regions, 7, Vec::new(), vec![last]).unwrap();
    assert_eq!(cone.module.operations.len(), 500);
    assert!(!cone.recursive);
    assert_eq!(cone.module.name, "chain$region7");
    assert_eq!(cone.operation_sources[499], vec![op(499)]);
}

#[test]
fn imports_only_the_owned_dependency_cone() {
    let mut source = WordModule::new();
    let left = input(&mut source, "left", 1);
    let right = input(&mut source, "right", 1);
    let first = source.unary(UnaryOp::BitNot, left, span()).unwrap();
    let second = source.unary(UnaryOp::BitNot, right, span()).unwrap();

    let cone = build(&source, vec![Some(0), Some(1)], 0, Vec::new(), vec![first]).unwrap();

    assert_eq!(cone.module.operations.len(), 1);
    assert_eq!(cone.operation_sources, vec![vec![op(0)]]);
    assert!(local(&cone, left).is_some());
    assert!(local(&cone, first).is_some());
    assert!(local(&cone, right).is_none());
    assert!(local(&cone, second).is_none());
}

#[test]
fn represents_state_as_one_private_boundary() {
    let mut source = WordModule::new();
    let clock = input(&mut source, "clock", 1);
    let state = source.add_wire("state".to_string(), bits(1), span()).unwrap();
    let state_value = source.read_signal(state, span()).unwrap();
    let next = source.unary(UnaryOp::BitNot, state_value, span()).unwrap();
    let register = source
        .register(
            RegisterOp {
                name: None,
                d: next,
                clock,
                edge: Edge::Pos,
                enable: None,
                resets: Vec::new(),
            },
            span(),
        )
        .unwrap();
    source.connect(LValue::signal(state), register, span()).unwrap();

    let cone =
        build(&source, vec![Some(0), Some(0)], 0, Vec::new(), vec![register, next]).unwrap();

    assert_eq!(cone.module.operations.len(), 1);
    assert_eq!(cone.operation_sources, vec![vec![op(0)]]);
    assert_eq!(ports(&cone, PortDirection::Input), 1);
}

#[test]
fn follows_an_exact_intra_region_signal_driver_in_dependency_order() {
    let mut source = WordModule::new();
    let left = input(&mut source, "left", 1);
    let right = input(&mut source, "right", 1);
    let alias = source.add_wire("alias".to_string(), bits(1), span()).unwrap();
    let alias_value = source.read_signal(alias, span()).unwrap();
    let consumer = source.unary(UnaryOp::BitNot, alias_value, span()).unwrap();
    let driver = source.binary(BinaryOp::BitAnd, left, right, span()).unwrap();
    source.connect(LValue::signal(alias), driver, span()).unwrap();

    let cone = build(&source, vec![Some(0), Some(0)], 0, Vec::new(), vec![consumer]).unwrap();

    assert_eq!(cone.module.operations.len(), 2);
    assert_eq!(cone.operation_sources[0], vec![op(1)]);
    assert_eq!(cone.operation_sources[1], vec![op(0)]);
}

#[test]
fn cuts_static_signal_slices_at_the_declared_region_boundary() {
    let mut source = WordModule::new();
    let left = input(&mut source, "left", 2);
    let right = input(&mut source, "right", 2);
    let producer = source.binary(BinaryOp::BitXor, left, right, span()).unwrap();
    let bus = source.add_wire("bus".to_string(), bits(2), span()).unwrap();
    source.connect(LValue::signal(bus), producer, span()).unwrap();
    let boundary = source.read_signal_slice(bus, 0, 1, span()).unwrap();
    let consumer = source.unary(UnaryOp::BitNot, boundary, span()).unwrap();

    let cone =
        build(&source, vec![Some(0), Some(1)], 1, vec![boundary], vec![consumer]).unwrap();

    let carried = local(&cone, boundary).unwrap();
    assert!(matches!(
        cone.module.values[carried.raw as usize].kind,
        ValueKind::Signal(_)
    ));
    assert_eq!(cone.operation_sources, vec![vec![op(1)]]);
    assert!(cone.module.operations.iter().all(|operation| !matches!(
        operation.kind,
        OpKind::Extract { .. } | OpKind::Concat { .. }
    )));
}

#[test]
fn reconstructs_static_intra_region_signal_slices() {
    let mut source = WordModule::new();
    let left = input(&mut source, "left", 4);
    let right = input(&mut source, "right", 4);
    let driver = source.binary(BinaryOp::BitXor, left, right, span()).unwrap();
    let alias = source.add_wire("alias".to_string(), bits(4), span()).unwrap();
    source.connect(LValue::signal(alias), driver, span()).unwrap();
    let root = source.read_signal_slice(alias, 1, 2, span()).unwrap();

    let cone = build(&source, vec![Some(0)], 0, Vec::new(), vec![root]).unwrap();

    assert_eq!(ports(&cone, PortDirection::Input), 2);
    assert_eq!(ports(&cone, PortDirection::Output), 1);
    let carried = local(&cone, root).unwrap();
    assert!(matches!(
        cone.module.values[carried.raw as usize].kind,
        ValueKind::Operation(_)
    ));
    assert_eq!(cone.operation_sources[0], vec![op(0)]);
    assert!(cone.operation_sources[1..].iter().all(|row| row.is_empty()));
}

#[test]
fn repeated_signal_reads_share_one_private_boundary() {
    let mut source = WordModule::new();
    let port = source
        .add_port("a".to_string(), PortDirection::Input, bits(1), span())
        .unwrap();
    let signal = source.port(port).unwrap().signal;
    let first = source.read_signal(signal, span()).unwrap();
    let second = source.read_signal(signal, span()).unwrap();
    let root = source.binary(BinaryOp::BitXor, first, second, span()).unwrap();

    let cone = build(&source, vec![Some(0)], 0, vec![first], vec![root]).unwrap();

    assert_eq!(cone.module.ports.len(), 2);
    let kinds = [first, second].map(|value| {
        match cone.module.values[local(&cone, value).unwrap().raw as usize].kind {
            ValueKind::Signal(reference) => reference,
            _ => panic!("a boundary must remain a signal reference"),
        }
    });
    assert_eq!(kinds[0], kinds[1]);
    assert_eq!(local(&cone, first), local(&cone, second));
}

#[test]
fn overlapping_boundary_slices_share_one_backing_port() {
    let mut source = WordModule::new();
    let port = source
        .add_port("input".to_string(), PortDirection::Input, bits(23), span())
        .unwrap();
    let signal = source.port(port).unwrap().signal;
    let full = source.read_signal(signal, span()).unwrap();
    let lower = source.read_signal_slice(signal, 0, 22, span()).unwrap();

    let cone = build(&source, Vec::new(), 0, vec![full, lower], vec![full, lower]).unwrap();

    let references = [full, lower].map(|value| {
        match cone.module.values[local(&cone, value).unwrap().raw as usize].kind {
            ValueKind::Signal(reference) => reference,
            _ => panic!("a boundary must remain a signal reference"),
        }
    });
    assert_eq!(references[0].signal, references[1].signal);
    assert_eq!(references[0].lsb, 0);
    assert_eq!(references[1].lsb, 0);
    assert_eq!(references[0].width, 23);
    assert_eq!(references[1].width, 22);
    assert_eq!(ports(&cone, PortDirection::Input), 1);
}

#[test]
fn follows_disjoint_packed_fields_without_a_whole_value_boundary() {
    let mut source = WordModule::new();
    let address_port = source
        .add_port("address".to_string(), PortDirection::Input, bits(1), span())
        .unwrap();
    let request = source.add_wire("request".to_string(), bits(2), span()).unwrap();
    let old_address = source.read_signal_slice(request, 0, 1, span()).unwrap();
    let flag = source.unary(UnaryOp::LogicalNot, old_address, span()).unwrap();
    let address_signal = source.port(address_port).unwrap().signal;
    let new_address = source.read_signal(address_signal, span()).unwrap();
    let assembled = source.concat(vec![flag, new_address], span()).unwrap();
    source.connect(LValue::signal(request), assembled, span()).unwrap();
    let root = source.read_signal_slice(request, 1, 1, span()).unwrap();

    let cone = build(&source, vec![Some(0), Some(0)], 0, Vec::new(), vec![root]).unwrap();

    assert!(local(&cone, root).is_some());
    assert!(cone.boundary_bindings.iter().all(|binding| binding.0 != assembled));
    assert!(cone.recursive);
}

#[test]
fn regions_must_cover_all_operations() {
    let mut source = WordModule::new();
    let left = input(&mut source, "left", 1);
    source.unary(UnaryOp::BitNot, left, span()).unwrap();
    match build(&source, Vec::new(), 0, Vec::new(), vec![left]) {
        Err(error) => assert_eq!(error, SynthError::Invariant(Invariant::MisalignedRegions)),
        Ok(_) => panic!("regions must cover all operations"),
    }
}

#[test]
fn a_root_of_no_value_is_refused() {
    let mut source = WordModule::new();
    input(&mut source, "input", 1);
    match build(&source, Vec::new(), 0, Vec::new(), vec![ValueId { raw: 7 }]) {
        Err(error) => assert_eq!(error, SynthError::Invariant(Invariant::UnknownValue)),
        Ok(_) => panic!("an unknown root was carried over"),
    }
}

fn memory_source() -> (WordModule, MemoryId, ValueId) {
    let mut source = WordModule::new();
    let clock = input(&mut source, "clock", 1);
    let address = input(&mut source, "address", 1);
    let data = input(&mut source, "data", 4);
    let memory = source.add_memory("memory".to_string(), bits(4), 2, span()).unwrap();
    let read = source.add_wire("read".to_string(), bits(4), span()).unwrap();
    source
        .add_memory_read_port(MemoryReadPort {
            memory,
            address,
            data: read,
            timing: MemoryReadTiming::Asynchronous,
            read_during_write: ReadDuringWrite::OldData,
            source: span(),
        })
        .unwrap();
    source
        .add_memory_write_port(MemoryWritePort {
            memory,
            address,
            data,
            clock: MemoryClock { value: clock, edge: Edge::Pos },
            enable: None,
            mask: None,
            priority: 0,
            source: span(),
        })
        .unwrap();
    let read_value = source.read_signal(read, span()).unwrap();
    let root = source.unary(UnaryOp::BitNot, read_value, span()).unwrap();
    (source, memory, root)
}

fn build_lowered(
    source: &WordModule,
    memories: Vec<MemoryId>,
    regions: Vec<Option<u32>>,
    root: ValueId,
    implementations: Vec<MemoryImplementationCandidate>,
) -> Result<RegionalWordCone, SynthError> {
    let known: Vec<Vec<Option<bool>>> = Vec::new();
    let boundary: Vec<ValueId> = Vec::new();
    let roots = vec![root];
    let request = RegionalWordConeRequest {
        source,
        operation_regions: &regions,
        region: 0,
        known: &known,
        memories: &memories,
        boundary_inputs: &boundary,
        roots: &roots,
    };
    RegionalWordCone::build_lowered(
        &request,
        &implementations,
        &Vec::new(),
        &Vec::new(),
        &Vec::new(),
    )
}

#[test]
fn memories_of_a_region_are_lowered_with_its_cone() {
    let (source, memory, root) = memory_source();
    let cone = build_lowered(
        &source,
        vec![memory],
        vec![Some(0)],
        root,
        vec![MemoryImplementationCandidate::RegisterBank],
    )
    .unwrap();
    assert!(cone.module.memories.is_empty());
    assert!(cone.module.memory_reads.is_empty());
    assert!(cone.module.memory_writes.is_empty());
    assert_eq!(cone.operation_sources.len(), cone.module.operations.len());
    assert_eq!(cone.operation_sources.iter().filter(|row| **row == vec![op(0)]).count(), 1);
    assert!(local(&cone, root).is_some());
    let states = cone
        .memory_values
        .iter()
        .filter(|value| value.kind == RegionalMemoryValueKind::State)
        .count();
    assert_eq!(states, 2);
    assert!(cone.memory_values.iter().all(|value| value.source_memory == memory));
    assert!(cone.module.is_well_formed());
}

#[test]
fn decisions_must_match_the_memories_of_a_region() {
    let (source, memory, root) = memory_source();
    match build_lowered(&source, vec![memory], vec![Some(0)], root, Vec::new()) {
        Err(error) => assert_eq!(error, SynthError::Invariant(Invariant::BrokenSelection)),
        Ok(_) => panic!("a memory without a decision was lowered"),
    }
    match build_lowered(&source, vec![memory], Vec::new(), root, Vec::new()) {
        Err(error) => assert_eq!(error, SynthError::Invariant(Invariant::MisalignedRegions)),
        Ok(_) => panic!("regions must cover all operations"),
    }
}
