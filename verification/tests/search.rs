use opto_synth::error::{Invariant, SynthError};
use opto_synth::planning::memory::target::{
    TargetCell, TargetMemory, TargetMemoryClock, TargetMemoryDisabledRead, TargetMemoryEdge,
    TargetMemoryKind, TargetMemoryReadDuringWrite, TargetMemoryReadPort, TargetMemoryWritePort,
};
use opto_synth::planning::regional::decision::{
    MemoryImplementationCandidate, RegionalDecisionVector,
};
use opto_synth::planning::regional::search::{
    bank_estimate, rank_memory, search_region, validate_cached_region, CandidateCost,
};
use opto_synth::word::module::{
    MemoryClock, MemoryReadPort, MemoryReadTiming, MemoryWritePort, PortDirection,
    ReadDuringWrite, WordModule,
};
use opto_synth::word::types::{ConstBits, Edge, MemoryId, SourceSpan, ValueId, WordType};

fn span() -> SourceSpan {
    SourceSpan::default()
}

fn bits(width: u32) -> WordType {
    WordType::bits(width).unwrap()
}

fn input(module: &mut WordModule, name: &str, width: u32) -> ValueId {
    let port = module
        .add_port(name.to_string(), PortDirection::Input, bits(width), span())
        .unwrap();
    let signal = module.port(port).unwrap().signal;
    module.read_signal(signal, span()).unwrap()
}

fn stored() -> (WordModule, MemoryId) {
    let mut module = WordModule::new();
    let clock = input(&mut module, "clock", 1);
    let address = input(&mut module, "address", 2);
    let data = input(&mut module, "data", 8);
    let memory = module.add_memory("memory".to_string(), bits(8), 4, span()).unwrap();
    let read_data = module.add_wire("read_data".to_string(), bits(8), span()).unwrap();
    module
        .add_memory_read_port(MemoryReadPort {
            memory,
            address,
            data: read_data,
            timing: MemoryReadTiming::Asynchronous,
            read_during_write: ReadDuringWrite::OldData,
            source: span(),
        })
        .unwrap();
    module
        .add_memory_write_port(MemoryWritePort {
            memory,
            address,
            data,
            clock: MemoryClock { value: clock, edge: Edge::Pos },
            enable: None,
            mask: None,
            priority: 0,
            source: span(),
        })
        .unwrap();
    (module, memory)
}

fn pins(name: &str, count: u32) -> Vec<String> {
    (0..count).map(|place| format!("{name}{place}")).collect()
}

fn ram(name: &str, usable: bool) -> TargetCell {
    TargetCell {
        name: name.to_string(),
        usable,
        memory: Some(TargetMemory {
            kind: TargetMemoryKind::Ram,
            depth: 4,
            word_width: 8,
            read_ports: vec![TargetMemoryReadPort {
                address_pins: pins("A", 2),
                data_pins: pins("Q", 8),
                clock: None,
                enable: None,
                disabled: TargetMemoryDisabledRead::Undefined,
                read_during_write: TargetMemoryReadDuringWrite::OldData,
            }],
            write_ports: vec![TargetMemoryWritePort {
                address_pins: pins("A", 2),
                data_pins: pins("D", 8),
                clock: TargetMemoryClock {
                    pin: "CLK".to_string(),
                    edge: TargetMemoryEdge::Rising,
                },
                enable: None,
                mask_pins: Vec::new(),
                mask_granularity: 0,
                mask_active_high: true,
            }],
        }),
    }
}

fn cost(primary: u64, secondary: u64, depth: u64) -> Option<CandidateCost> {
    Some(CandidateCost { primary, secondary, depth })
}

fn unknown(module: &WordModule) -> Vec<Option<ConstBits>> {
    module.values.iter().map(|_| None).collect()
}

#[test]
fn bank_estimates_count_words_ports_and_levels() {
    let (module, memory) = stored();
    let estimate = bank_estimate(&module, memory).unwrap();
    assert_eq!(estimate.logic_units, 68);
    assert_eq!(estimate.logic_depth, 3);
    assert_eq!(estimate.wiring_units, 84);
    assert!(bank_estimate(&module, MemoryId { raw: 1 }).is_none());
}

#[test]
fn the_cheapest_implementation_is_ranked_first() {
    let (module, memory) = stored();
    let known = unknown(&module);
    let cells = vec![ram("RAM4X8", true), ram("SPARE", false), ram("RAM4X8B", true)];
    let ranked = rank_memory(
        &module,
        &known,
        &Vec::new(),
        memory,
        &cells,
        cost(5, 0, 0),
        &vec![cost(3, 9, 9), cost(0, 0, 0), cost(3, 8, 9)],
    )
    .unwrap();
    let order: Vec<_> = ranked.iter().map(|entry| entry.candidate).collect();
    assert_eq!(
        order,
        [
            MemoryImplementationCandidate::Macro(2),
            MemoryImplementationCandidate::Macro(0),
            MemoryImplementationCandidate::RegisterBank,
        ]
    );
    let ranked = rank_memory(
        &module,
        &known,
        &Vec::new(),
        memory,
        &cells,
        cost(3, 8, 9),
        &vec![None, None, cost(3, 8, 9)],
    )
    .unwrap();
    assert_eq!(ranked[0].candidate, MemoryImplementationCandidate::RegisterBank);
    assert_eq!(ranked.len(), 2);
}

#[test]
fn memories_without_a_priced_implementation_are_refused() {
    let (module, memory) = stored();
    let known = unknown(&module);
    let cells = vec![ram("RAM4X8", true)];
    let refused = search_region(
        &module,
        &known,
        &Vec::new(),
        &vec![memory],
        &cells,
        &vec![None],
        &vec![None],
    );
    assert_eq!(refused, Err(SynthError::Invariant(Invariant::NoCandidate)));
    let refused = search_region(
        &module,
        &known,
        &Vec::new(),
        &vec![MemoryId { raw: 7 }],
        &cells,
        &vec![cost(1, 1, 1)],
        &vec![None],
    );
    assert_eq!(refused, Err(SynthError::Invariant(Invariant::UnknownMemory)));
}

#[test]
fn a_kept_choice_passes_when_it_is_read_again() {
    let (module, memory) = stored();
    let known = unknown(&module);
    let cells = vec![ram("RAM4X8", true)];
    let chosen = search_region(
        &module,
        &known,
        &Vec::new(),
        &vec![memory],
        &cells,
        &vec![cost(9, 0, 0)],
        &vec![cost(1, 0, 0)],
    )
    .unwrap();
    assert_eq!(chosen, [MemoryImplementationCandidate::Macro(0)]);
    let kept = RegionalDecisionVector::new(chosen).portable_memory_implementations();
    assert_eq!(kept, [1, 0, 0, 0]);
    let check = |cells: &Vec<TargetCell>, bytes: &Vec<u8>| {
        validate_cached_region(&module, &known, &Vec::new(), &vec![memory], cells, bytes)
    };
    assert_eq!(check(&cells, &kept), Ok(()));
    let broken = Err(SynthError::Invariant(Invariant::BrokenSelection));
    assert_eq!(check(&cells, &Vec::new()), broken);
    assert_eq!(check(&vec![ram("RAM4X8", false)], &kept), broken);
    assert_eq!(check(&cells, &vec![0, 0, 0, 0]), Ok(()));
}
