use opto_synth::planning::regional::decision::{
    decision_key, decode_memory_implementations, MemoryImplementationCandidate,
    RegionalDecisionPlan, RegionalDecisionVector, RegionCoverPlanRecord,
};

#[test]
fn memory_implementation_participates_in_the_decision_key() {
    let without_memory: Vec<MemoryImplementationCandidate> = Vec::new();
    let with_bank = vec![MemoryImplementationCandidate::RegisterBank];

    assert_ne!(decision_key(&without_memory), decision_key(&with_bank));
    assert_eq!(
        decode_memory_implementations(&vec![0; 4]).unwrap(),
        with_bank
    );
}

#[test]
fn regional_persisted_macro_cell_index_is_reconstructed() {
    assert_eq!(
        MemoryImplementationCandidate::from_raw(7),
        MemoryImplementationCandidate::Macro(6)
    );
}

#[test]
fn memory_implementation_participates_in_the_stable_key() {
    let without_memory = RegionalDecisionVector::new(Vec::new());
    let with_bank = RegionalDecisionVector::new(vec![MemoryImplementationCandidate::RegisterBank]);

    assert_ne!(without_memory.stable_key(), with_bank.stable_key());
    assert_eq!(with_bank.portable_memory_implementations(), vec![0; 4]);
}

#[test]
fn decision_persisted_macro_cell_index_is_reconstructed() {
    assert_eq!(
        MemoryImplementationCandidate::from_raw(7),
        MemoryImplementationCandidate::Macro(6)
    );
}

#[test]
fn decision_key_is_the_digest_of_its_bytes() {
    let implementations = vec![
        MemoryImplementationCandidate::Macro(2),
        MemoryImplementationCandidate::RegisterBank,
    ];
    let mut bytes = b"opto/regional/decision-vector/v3\0".to_vec();
    bytes.extend(2u64.to_le_bytes());
    bytes.extend(3u32.to_le_bytes());
    bytes.extend(0u32.to_le_bytes());
    assert_eq!(decision_key(&implementations), *blake3::hash(&bytes).as_bytes());
}

#[test]
fn implementations_are_written_and_read_back() {
    let implementations = vec![
        MemoryImplementationCandidate::Macro(0x0102_0304),
        MemoryImplementationCandidate::RegisterBank,
        MemoryImplementationCandidate::Macro(u32::MAX - 1),
    ];
    let vector = RegionalDecisionVector::new(implementations.clone())
        .with_retained_plan(Some(RegionCoverPlanRecord { encoded: vec![9] }));
    let bytes = vector.portable_memory_implementations();
    assert_eq!(bytes[..4], [5, 3, 2, 1]);
    assert_eq!(decode_memory_implementations(&bytes).unwrap(), implementations);
    assert_eq!(vector.retained_plan().unwrap().encoded, vec![9]);
    assert_eq!(vector.clone(), vector);
    let plan = RegionalDecisionPlan::new(vec![vector]);
    assert_eq!(plan.len(), 1);
    assert_eq!(plan.vector(0).memory_implementations().len(), 3);
}

#[test]
fn unaligned_implementations_are_refused() {
    let error = decode_memory_implementations(&vec![0; 5]).unwrap_err();
    assert_eq!(
        error.message(),
        "regional memory implementation payload is not 32-bit aligned"
    );
}

#[test]
fn the_last_cell_shares_its_number() {
    let last = MemoryImplementationCandidate::Macro(u32::MAX);
    assert_eq!(last.raw(), u32::MAX);
    assert_eq!(
        MemoryImplementationCandidate::from_raw(last.raw()),
        MemoryImplementationCandidate::Macro(u32::MAX - 1)
    );
}
