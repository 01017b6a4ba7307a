use opto_synth::error::{Invalid, Invariant, SynthError};
use opto_synth::planning::architecture::OperatorKind;
use opto_synth::planning::fsm::materialize::{select_activity, TransitionActivity};
use opto_synth::planning::operator::catalog::{ImplementationCandidateId, Offer, Provider, Recipe};
use opto_synth::planning::operator::decisions::ArchitectureDecisions;
use opto_synth::planning::operator::demand::ObservableBits;
use opto_synth::planning::operator::durable::OperationAnchorId;
use opto_synth::planning::operator::manifest::{OperatorManifest, OperatorManifestInstance};
use opto_synth::planning::operator::recognition::OffsetFacts;
use opto_synth::planning::operator::selection::{
    best_candidate, CandidateSummary, DesignSelection, RegionSummary,
};
use opto_synth::planning::operator::signature::{
    signature_id, OperatorShape, OperatorSignature, OperatorSignatureId,
};
use opto_synth::planning::provider::{ProviderRecipeId, StructuralEstimate};
use opto_synth::planning::regional::operation_provenance::{
    LocalOperationProvenance, OperationRewrite,
};
use opto_synth::planning::regional::operation_semantics::{
    LocalOperationSemantics, LocalStateSource,
};
use opto_synth::word::module::{LValue, PortDirection, ValueKind, WordModule};
use opto_synth::word::types::{
    BinaryOp, BitVal, ConstBits, LogicStateKind, MemoryId, OpId, SourceSpan, UnaryOp, ValueId,
    WordType,
};
use std::sync::Arc;

fn span() -> SourceSpan {
    SourceSpan::default()
}

fn bits(width: u32) -> WordType {
    WordType::bits(width).unwrap()
}

fn input(module: &mut WordModule, name: &str, width: u32) -> ValueId {
    let port = module
        .add_port(name.to_string(), PortDirection::Input, bits(width), span())
        .unwrap();
    let signal = module.port(port).unwrap().signal;
    module.read_signal(signal, span()).unwrap()
}

fn output(module: &mut WordModule, name: &str, width: u32, value: ValueId) {
    let port = module
        .add_port(name.to_string(), PortDirection::Output, bits(width), span())
        .unwrap();
    let signal = module.port(port).unwrap().signal;
    module.connect(LValue::signal(signal), value, span()).unwrap();
}

fn recipe(number: u32, name: &str, implementation: &str) -> Recipe {
    Recipe {
        id: ProviderRecipeId::from_raw(number),
        name: name.to_string(),
        implementation: Some(implementation.to_string()),
    }
}

fn offer(recipes: u32, module_name: &str, mnemonic: &str) -> Offer {
    Offer {
        recipes: (0..recipes).map(ProviderRecipeId::from_raw).collect(),
        estimates: (0..recipes)
            .map(|number| StructuralEstimate {
                logic_depth: 10 - number,
                logic_units: 100 + u64::from(number),
                wiring_units: 7,
            })
            .collect(),
        module_name: Some(module_name.to_string()),
        mnemonic: Some(mnemonic.to_string()),
    }
}

fn adders() -> Provider {
    Provider {
        resource: "adder".to_string(),
        recipes: vec![
            recipe(0, "ripple-carry", "rpl"),
            recipe(1, "brent-kung", "bk"),
            recipe(2, "kogge-stone", "cla"),
            recipe(3, "hybrid-brent-kung-balanced", "csm"),
        ],
    }
}

fn decide(
    module: &WordModule,
    roots: Vec<ValueId>,
    fuse: bool,
    providers: Vec<Provider>,
    offers: Vec<Vec<Offer>>,
) -> Result<ArchitectureDecisions, SynthError> {
    let facts: Vec<Option<ConstBits>> = module.values.iter().map(|_| None).collect();
    let offsets: Vec<OffsetFacts> =
        module.values.iter().map(|_| OffsetFacts { maximum: None, alignment: 0 }).collect();
    ArchitectureDecisions::for_observed_region(
        module, &roots, fuse, &facts, &offsets, providers, offers,
    )
}

#[test]
fn shares_catalog_and_selects_candidates_by_compact_id() {
    let mut module = WordModule::new();
    let a = input(&mut module, "a", 4);
    module.binary(BinaryOp::BitAnd, a, a, span()).unwrap();
    let add = module.binary(BinaryOp::Add, a, a, span()).unwrap();
    let subtract = module.binary(BinaryOp::Sub, a, a, span()).unwrap();
    output(&mut module, "add_y", 4, add);
    output(&mut module, "sub_y", 4, subtract);

    let mut plan = decide(
        &module,
        Vec::new(),
        true,
        vec![adders()],
        vec![vec![offer(4, "DW01_add", "add")], vec![offer(4, "DW01_sub", "sub")]],
    )
    .unwrap();
    let cloned = plan.clone();

    assert!(Arc::ptr_eq(&plan.catalog, &cloned.catalog));
    assert!(plan.selections.is_empty());
    assert_eq!(std::mem::size_of::<ImplementationCandidateId>(), 4);
    assert_eq!(plan.operators().len(), 2);
    assert_eq!(plan.operators()[0].source_operation(), OpId { raw: 1 });
    assert_eq!(plan.operators()[0].kind(), OperatorKind::Add);
    assert_eq!(plan.operators()[1].source_operation(), OpId { raw: 2 });
    let first = plan.operators()[0].id();
    let second = plan.operators()[1].id();
    assert_eq!(plan.candidates(first).unwrap().len(), 4);
    let default_add = plan.candidates(first).unwrap()[0].id();
    assert_eq!(plan.candidate_implementation_name(default_add).unwrap(), "rpl");
    assert_eq!(plan.candidate_module_name(default_add).unwrap(), "DW01_add");
    assert_eq!(plan.candidate_operation_mnemonic(default_add).unwrap(), "add");
    let kogge_stone = plan
        .candidates(second)
        .unwrap()
        .iter()
        .find(|candidate| {
            plan.candidate_recipe_name(candidate.id()).unwrap() == "kogge-stone"
        })
        .unwrap()
        .id();
    plan.select_candidate(kogge_stone).unwrap();
    assert_eq!(plan.selections.len(), 1);
    let selected = plan.selected_candidate(second).unwrap().id();
    assert_eq!(plan.candidate_recipe_name(selected).unwrap(), "kogge-stone");
    assert_eq!(plan.candidate_implementation_name(kogge_stone).unwrap(), "cla");
    let default = plan.candidates(second).unwrap()[0].id();
    plan.select_candidate(default).unwrap();
    assert!(plan.selections.is_empty());
    assert_eq!(
        plan.select_candidate(ImplementationCandidateId { number: 8 }),
        Err(SynthError::Invariant(Invariant::UnknownCandidate))
    );
    assert!(plan.candidate_recipe_name(ImplementationCandidateId { number: 8 }).is_none());
}

#[test]
fn division_and_modulo_each_have_one_canonical_candidate() {
    for (binary, kind, module_name, mnemonic) in [
        (BinaryOp::Div, OperatorKind::Divide, "DW_div", "div"),
        (BinaryOp::Mod, OperatorKind::Modulo, "DW_mod", "mod"),
    ] {
        let mut module = WordModule::new();
        let a = input(&mut module, "a", 8);
        let b = input(&mut module, "b", 8);
        let result = module.binary(binary, a, b, span()).unwrap();
        output(&mut module, "y", 8, result);
        let divider = Provider {
            resource: "divider".to_string(),
            recipes: vec![recipe(0, "restoring", "rst")],
        };
        let plan = decide(
            &module,
            Vec::new(),
            true,
            vec![divider],
            vec![vec![offer(1, module_name, mnemonic)]],
        )
        .unwrap();
        assert_eq!(plan.operators().len(), 1);
        let operator = plan.operators()[0];
        assert_eq!(operator.kind(), kind);
        let candidates = plan.candidates(operator.id()).unwrap();
        assert_eq!(candidates.len(), 1);
        assert_eq!(plan.candidate_module_name(candidates[0].id()).unwrap(), module_name);
        assert_eq!(plan.candidate_operation_mnemonic(candidates[0].id()).unwrap(), mnemonic);
    }
}

#[test]
fn multi_operand_fusion_exists_only_in_private_region_catalogs() {
    let mut module = WordModule::new();
    let inputs: Vec<ValueId> =
        ["a", "b", "c", "d"].iter().map(|name| input(&mut module, name, 8)).collect();
    let mut sum = inputs[0];
    for value in &inputs[1..] {
        sum = module.binary(BinaryOp::Add, sum, *value, span()).unwrap();
    }
    output(&mut module, "y", 8, sum);

    let shell = ArchitectureDecisions::for_regional_shell(&module);
    assert!(shell.operators().is_empty());

    let trees = Provider {
        resource: "tree".to_string(),
        recipes: vec![recipe(0, "wallace-csa", "wallace"), recipe(1, "dadda-csa", "dadda")],
    };
    let private =
        decide(&module, Vec::new(), true, vec![trees], vec![vec![offer(2, "DW02_sum", "sum")]])
            .unwrap();
    assert_eq!(private.operators().len(), 1);
    let operator = private.operators()[0];
    assert_eq!(operator.kind(), OperatorKind::Sum);
    assert_eq!(operator.term_count(), 4);
    let recipes: Vec<&String> = private
        .candidates(operator.id())
        .unwrap()
        .iter()
        .map(|candidate| private.candidate_recipe_name(candidate.id()).unwrap())
        .collect();
    assert!(recipes.iter().any(|recipe| recipe.starts_with("wallace-csa")));
    assert!(recipes.iter().any(|recipe| recipe.starts_with("dadda-csa")));
}

#[test]
fn explicit_region_root_is_not_absorbed_into_its_arithmetic_consumer() {
    let mut module = WordModule::new();
    let inputs: Vec<ValueId> =
        ["a", "b", "c"].iter().map(|name| input(&mut module, name, 8)).collect();
    let published = module.binary(BinaryOp::Sub, inputs[0], inputs[1], span()).unwrap();
    let root = module.binary(BinaryOp::Add, published, inputs[2], span()).unwrap();

    let private = decide(
        &module,
        vec![published, root],
        true,
        vec![adders()],
        vec![vec![offer(4, "DW01_sub", "sub")], vec![offer(4, "DW01_add", "add")]],
    )
    .unwrap();

    assert_eq!(private.operators().len(), 2);
    assert!([published, root].into_iter().all(|value| {
        private.operators().iter().any(|operator| operator.result() == value)
    }));
}

#[test]
fn operators_without_candidates_are_refused() {
    let mut module = WordModule::new();
    let a = input(&mut module, "a", 4);
    let add = module.binary(BinaryOp::Add, a, a, span()).unwrap();
    output(&mut module, "y", 4, add);
    let result =
        decide(&module, Vec::new(), true, vec![adders()], vec![vec![offer(0, "DW01_add", "add")]]);
    assert!(matches!(result, Err(SynthError::Invariant(Invariant::NoCandidate))));
}

#[test]
fn follows_vector_signal_drivers_to_a_low_slice() {
    let mut module = WordModule::new();
    let a = input(&mut module, "a", 32);
    let mut digits = vec![BitVal::Zero; 31];
    digits.push(BitVal::One);
    let one = module
        .constant(ConstBits::from_bits(digits).unwrap(), bits(32), span())
        .unwrap();
    let sum = module.binary(BinaryOp::Add, a, one, span()).unwrap();
    let internal = module.add_wire("sum".to_string(), bits(32), span()).unwrap();
    module.connect(LValue::signal(internal), sum, span()).unwrap();
    let low = module.read_signal_slice(internal, 0, 7, span()).unwrap();
    output(&mut module, "y", 7, low);

    let observable = ObservableBits::analyze(&module).unwrap();

    assert_eq!(observable.required_prefix(sum), 7);
}

#[test]
fn higher_arithmetic_bits_require_the_carry_prefix() {
    let mut module = WordModule::new();
    let left = input(&mut module, "a", 16);
    let right = input(&mut module, "b", 16);
    let sum = module.binary(BinaryOp::Add, left, right, span()).unwrap();
    let selected = module.extract(sum, 10, 1, span()).unwrap();
    output(&mut module, "y", 1, selected);

    let observable = ObservableBits::analyze(&module).unwrap();

    assert_eq!(observable.required_prefix(sum), 11);
}

fn product_signature() -> OperatorSignature {
    let ty = bits(8);
    let mut signature = OperatorSignature {
        id: OperatorSignatureId { digest: [0; 32] },
        kind: OperatorKind::Multiply,
        input_types: vec![ty, ty],
        result_type: ty,
        implementation_width: 8,
        shape: OperatorShape::Arithmetic,
    };
    signature.id = signature_id(&signature);
    signature
}

#[test]
fn checkpoint_validation_recomputes_signature_identity_and_schema() {
    let mut signature = product_signature();
    signature.validate_checkpoint().unwrap();

    signature.implementation_width = 0;
    assert!(signature.validate_checkpoint().is_err());
    signature.implementation_width = 8;
    signature.shape = OperatorShape::Division;
    signature.id = signature_id(&signature);
    assert!(signature.validate_checkpoint().is_err());
}

#[test]
fn identities_follow_the_whole_signature() {
    let first = product_signature();
    let mut second = product_signature();
    assert_eq!(first.id().bytes(), second.id().bytes());
    second.result_type = bits(9);
    assert_ne!(first.id().bytes(), signature_id(&second).bytes());
    assert_ne!(first.id().bytes(), [0; 32]);
}

#[test]
fn manifests_refuse_occurrences_without_a_signature() {
    let signature = product_signature();
    let instance = OperatorManifestInstance {
        anchor: OperationAnchorId { digest: [1; 32] },
        signature: signature.id(),
        source_operations: vec![OpId { raw: 3 }],
    };
    assert_eq!(instance.anchor(), OperationAnchorId { digest: [1; 32] });
    assert_eq!(instance.source_operations().len(), 1);
    let good = OperatorManifest { signatures: vec![signature], instances: vec![instance] };
    assert!(good.validate_checkpoint().is_ok());
    let other = OperatorManifestInstance {
        anchor: OperationAnchorId { digest: [2; 32] },
        signature: OperatorSignatureId { digest: [9; 32] },
        source_operations: vec![OpId { raw: 3 }],
    };
    let bad = OperatorManifest { signatures: vec![product_signature()], instances: vec![other] };
    assert!(bad.validate_checkpoint().is_err());
}

fn operation(module: &WordModule, value: ValueId) -> OpId {
    match &module.values[value.raw as usize].kind {
        ValueKind::Operation(operation) => *operation,
        _ => panic!("unary builder did not create an operation"),
    }
}

#[test]
fn operation_provenance_one_api_normalizes_record_replace_and_merge() {
    let first = OpId { raw: 0 };
    let second = OpId { raw: 1 };
    let local = OpId { raw: 0 };
    let mut provenance = LocalOperationProvenance::new();

    provenance.set(local, &vec![second, first, second]).unwrap();
    assert_eq!(provenance.sources(local).unwrap(), [first, second]);
    provenance.set(local, &vec![second]).unwrap();
    provenance.merge(local, &vec![first, second]).unwrap();
    assert_eq!(provenance.sources(local).unwrap(), [first, second]);
}

#[test]
fn operation_provenance_transform_inherits_new_operation_provenance_from_ssa_operands() {
    let mut module = WordModule::new();
    let read = input(&mut module, "input", 1);
    let original = module.unary(UnaryOp::LogicalNot, read, span()).unwrap();
    let source = OpId { raw: 7 };
    let mut provenance = LocalOperationProvenance::new();
    provenance.set(operation(&module, original), &vec![source]).unwrap();

    let generated = module.unary(UnaryOp::LogicalNot, original, span()).unwrap();
    provenance.inherit_appended(&module).unwrap();
    assert_eq!(provenance.sources(operation(&module, generated)).unwrap(), [source]);
}

#[test]
fn operation_semantics_one_api_normalizes_record_replace_and_merge() {
    let first = OpId { raw: 0 };
    let second = OpId { raw: 1 };
    let local = OpId { raw: 0 };
    let mut semantics = LocalOperationSemantics::new();

    semantics.record_generated(local, &vec![second, first, second]).unwrap();
    assert_eq!(semantics.sources(local).unwrap(), [first, second]);
    semantics.record_generated(local, &vec![second]).unwrap();
    semantics.extend_generated(local, &vec![first, second]).unwrap();
    assert_eq!(semantics.sources(local).unwrap(), [first, second]);
}

#[test]
fn operation_semantics_transform_inherits_new_operation_provenance_from_ssa_operands() {
    let mut module = WordModule::new();
    let read = input(&mut module, "input", 1);
    let original = module.unary(UnaryOp::LogicalNot, read, span()).unwrap();
    let source = OpId { raw: 7 };
    let mut semantics = LocalOperationSemantics::new();
    semantics.record_generated(operation(&module, original), &vec![source]).unwrap();

    let generated = module.unary(UnaryOp::LogicalNot, original, span()).unwrap();
    semantics.inherit_appended(&module).unwrap();
    assert_eq!(semantics.sources(operation(&module, generated)).unwrap(), [source]);
}

#[test]
fn rewrites_hand_rows_and_states_on() {
    let mut module = WordModule::new();
    let read = input(&mut module, "input", 1);
    let first = module.unary(UnaryOp::LogicalNot, read, span()).unwrap();
    let second = module.unary(UnaryOp::BitNot, read, span()).unwrap();
    let mut semantics = LocalOperationSemantics::new();
    semantics.record_source(OpId { raw: 0 }, OpId { raw: 9 }, true).unwrap();
    semantics.record_generated(OpId { raw: 1 }, &vec![OpId { raw: 4 }]).unwrap();
    semantics.record_memory_state(OpId { raw: 1 }, MemoryId { raw: 2 }, 5).unwrap();
    let third = module.binary(BinaryOp::BitAnd, first, second, span()).unwrap();
    let fourth = module.unary(UnaryOp::BitNot, third, span()).unwrap();
    let short = vec![OperationRewrite {
        created: (2, 3),
        replaced: vec![OpId { raw: 0 }],
        replacement: third,
    }];
    assert_eq!(
        LocalOperationSemantics::new().apply_rewrites(&module, &short),
        Err(SynthError::Invariant(Invariant::BrokenSource))
    );
    let rewrites = vec![OperationRewrite {
        created: (2, 4),
        replaced: vec![OpId { raw: 0 }, OpId { raw: 1 }],
        replacement: fourth,
    }];
    semantics.apply_rewrites(&module, &rewrites).unwrap();
    for raw in 2..4 {
        assert_eq!(semantics.sources(OpId { raw }).unwrap(), [OpId { raw: 4 }, OpId { raw: 9 }]);
        assert_eq!(
            semantics.states(OpId { raw }).unwrap(),
            &vec![
                LocalStateSource::Operation(OpId { raw: 9 }),
                LocalStateSource::Memory { memory: MemoryId { raw: 2 }, ordinal: 5 },
            ]
        );
    }
}

#[test]
fn materializes_activity_constants_in_the_value_state_domain() {
    let mut module = WordModule::new();
    let condition_signal = module.add_wire("condition".to_string(), bits(1), span()).unwrap();
    let activity_ty = WordType::new(1, false, LogicStateKind::TwoState).unwrap();
    let activity_signal =
        module.add_wire("activity".to_string(), activity_ty, span()).unwrap();
    let condition = module.read_signal(condition_signal, span()).unwrap();
    let activity = module.read_signal(activity_signal, span()).unwrap();

    let selected = match select_activity(
        &mut module,
        condition,
        TransitionActivity::Always,
        TransitionActivity::Value(activity),
        span(),
    )
    .unwrap()
    {
        TransitionActivity::Value(selected) => selected,
        _ => panic!("mixed transition activity should materialize a value"),
    };

    assert_eq!(module.values[selected.raw as usize].ty, activity_ty);
}

fn summary(number: u32, violation: u64, physical: u64, depth: u64) -> CandidateSummary {
    CandidateSummary {
        candidate: ImplementationCandidateId { number },
        violation,
        physical,
        depth,
        stable: vec![number as u8],
    }
}

#[test]
fn prices_turn_the_choice_towards_shallow_candidates() {
    let group = vec![summary(0, 0, 10, 20), summary(1, 0, 12, 4)];
    assert_eq!(best_candidate(&group, 0), Some(0));
    assert_eq!(best_candidate(&group, 3), Some(1));
    assert_eq!(best_candidate(&Vec::new(), 1), None);
}

#[test]
fn design_choices_reach_the_decisions() {
    let mut module = WordModule::new();
    let a = input(&mut module, "a", 4);
    let add = module.binary(BinaryOp::Add, a, a, span()).unwrap();
    output(&mut module, "y", 4, add);
    let mut plan =
        decide(&module, Vec::new(), true, vec![adders()], vec![vec![offer(4, "DW01_add", "add")]])
            .unwrap();
    let operator = plan.operators()[0].id();
    let row: Vec<CandidateSummary> = plan
        .candidates(operator)
        .unwrap()
        .iter()
        .map(|candidate| {
            let number = candidate.id().raw();
            summary(number, if number == 2 { 0 } else { 5 }, 9, 9)
        })
        .collect();
    let design =
        DesignSelection::start(vec![RegionSummary { row: 0, groups: vec![row] }], 1).unwrap();
    assert_eq!(design.local_violations(), [1]);
    plan.apply_design(&design, 0).unwrap();
    assert_eq!(plan.selected_candidate(operator).unwrap().id().raw(), 2);
}

#[test]
fn waves_choose_from_what_was_selected_before_them() {
    let group = || vec![summary(0, 0, 10, 20), summary(1, 0, 12, 4)];
    let summaries = vec![
        RegionSummary { row: 0, groups: vec![group()] },
        RegionSummary { row: 1, groups: vec![group()] },
        RegionSummary { row: 2, groups: Vec::new() },
    ];
    let mut design = DesignSelection::start(summaries, 3).unwrap();
    assert_eq!(design.selected, vec![vec![1], vec![1], vec![]]);
    assert_eq!(design.asks(3).unwrap(), vec![1, 1, 1]);
    assert!(design.asks(4).is_none());
    design.reprice(vec![0, 0, 0]).unwrap();
    assert_eq!(design.selected, vec![vec![0], vec![0], vec![]]);
    assert_eq!(
        design.fuse_wave(&vec![(0, 1), (1, 3)]),
        Err(SynthError::Invariant(Invariant::MisalignedRegions))
    );
    design.fuse_wave(&vec![(0, 1), (0, 2)]).unwrap();
    assert_eq!(design.selected, vec![vec![0], vec![0], vec![]]);
}

#[test]
fn rewrites_merge_the_rows_of_what_they_replace() {
    let mut module = WordModule::new();
    let read = input(&mut module, "input", 1);
    let first = module.unary(UnaryOp::BitNot, read, span()).unwrap();
    let second = module.unary(UnaryOp::BitNot, first, span()).unwrap();
    let third = module.unary(UnaryOp::BitNot, second, span()).unwrap();
    let rewrite = |created: (usize, usize), replaced: u32| OperationRewrite {
        created,
        replaced: vec![OpId { raw: replaced }],
        replacement: third,
    };
    let mut provenance = LocalOperationProvenance::new();
    provenance.set(OpId { raw: 0 }, &vec![OpId { raw: 7 }]).unwrap();
    provenance.set(OpId { raw: 1 }, &vec![OpId { raw: 3 }]).unwrap();

    provenance.apply_rewrites(&module, &vec![rewrite((2, 3), 0), rewrite((9, 9), 1)]).unwrap();
    assert_eq!(provenance.sources(OpId { raw: 0 }).unwrap(), [OpId { raw: 7 }]);
    assert_eq!(provenance.sources(OpId { raw: 1 }).unwrap(), [OpId { raw: 3 }]);
    assert_eq!(
        provenance.sources(OpId { raw: 2 }).unwrap(),
        [OpId { raw: 3 }, OpId { raw: 7 }]
    );
    assert_eq!(
        provenance.apply_rewrites(&module, &vec![rewrite((2, 4), 0)]),
        Err(SynthError::Invariant(Invariant::BrokenSource))
    );
    assert_eq!(
        provenance.apply_rewrites(&module, &vec![rewrite((2, 3), 5)]),
        Err(SynthError::Invariant(Invariant::BrokenSource))
    );
}

#[test]
fn decisions_refuse_an_observed_value_that_is_not_there() {
    let mut module = WordModule::new();
    let a = input(&mut module, "a", 4);
    output(&mut module, "y", 4, a);

    let missing = ValueId { raw: 99 };
    let refused = decide(&module, vec![missing], true, Vec::new(), Vec::new());
    assert_eq!(refused.err(), Some(SynthError::Invariant(Invariant::UnknownValue)));
    assert!(decide(&module, vec![a], true, Vec::new(), Vec::new()).unwrap().operators().is_empty());
}

#[test]
fn offers_name_known_recipes_once() {
    let mut module = WordModule::new();
    let a = input(&mut module, "a", 8);
    let b = input(&mut module, "b", 8);
    let sum = module.binary(BinaryOp::Add, a, b, span()).unwrap();
    output(&mut module, "y", 8, sum);
    for (numbers, expected) in
        [([0, 5], Invalid::UnknownRecipe), ([1, 1], Invalid::RepeatedRecipe)]
    {
        let adder = Provider {
            resource: "adder".to_string(),
            recipes: vec![recipe(0, "ripple-carry", "rpl"), recipe(1, "brent-kung", "bk")],
        };
        let mut faulty = offer(2, "adder", "add");
        faulty.recipes = numbers.map(ProviderRecipeId::from_raw).to_vec();
        match decide(&module, Vec::new(), true, vec![adder], vec![vec![faulty]]) {
            Err(error) => assert_eq!(error, SynthError::Invalid(expected)),
            Ok(_) => panic!("a faulty offer was taken"),
        }
    }
}
