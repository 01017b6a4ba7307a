use opto_synth::planning::operator::shared::share_muxed_arithmetic;
use opto_synth::planning::operator::sharing::{Activation, Literal, UseIndex};
use opto_synth::word::module::{LValue, PortDirection, ValueKind, WordModule};
use opto_synth::word::types::{BinaryOp, Edge, OpKind, RegisterOp, SourceSpan, ValueId, WordType};

fn span() -> SourceSpan {
    SourceSpan::default()
}

fn input(module: &mut WordModule, name: &str, width: u32) -> ValueId {
    let ty = WordType::bits(width).unwrap();
    let port = module.add_port(name.to_string(), PortDirection::Input, ty, span()).unwrap();
    let signal = module.port(port).unwrap().signal;
    module.read_signal(signal, span()).unwrap()
}

fn index(module: &WordModule) -> UseIndex {
    let observed = vec![false; module.values.len()];
    let roots = vec![true; module.connects.len()];
    UseIndex::build(module, &observed, &roots, &Vec::new()).unwrap()
}

#[test]
fn shares_source_identical_operations_under_exclusive_guards() {
    let mut module = WordModule::new();
    let data = ["a", "b", "c", "d"].map(|name| input(&mut module, name, 4));
    let select = input(&mut module, "select", 1);
    let first = module.binary(BinaryOp::Add, data[0], data[1], span()).unwrap();
    let second = module.binary(BinaryOp::Add, data[2], data[3], span()).unwrap();
    let original = module.mux(select, first, second, span()).unwrap();
    let ty = WordType::bits(4).unwrap();
    let output = module.add_port("y".to_string(), PortDirection::Output, ty, span()).unwrap();
    let signal = module.port(output).unwrap().signal;
    module.connect(LValue::signal(signal), original, span()).unwrap();
    let before = module.operations.len();

    let observed = vec![true; module.values.len()];
    let groups =
        share_muxed_arithmetic(&mut module, &observed, &vec![true], &Vec::new()).unwrap();

    assert_eq!(groups.len(), 1);
    assert_eq!(groups[0].members.len(), 2);
    assert_eq!(groups[0].members[0].result, first);
    assert_eq!(groups[0].members[1].result, second);
    assert_eq!(groups[0].rewrite.created.0, before);
    assert_eq!(groups[0].rewrite.created.1 + 1, module.operations.len());
    match &module.values[groups[0].rewrite.replacement.raw as usize].kind {
        ValueKind::Operation(operation) => assert!(matches!(
            module.operations[operation.raw as usize].kind,
            OpKind::Binary { op: BinaryOp::Add, .. }
        )),
        _ => panic!("the shared value must be a sum"),
    }

    let shared = module.connects[0].value;
    let replacement = groups[0].rewrite.replacement;
    match kind_of(&module, shared) {
        OpKind::Mux { cond, then_value, else_value } => {
            assert_eq!(*cond, select);
            assert_eq!(*then_value, replacement);
            assert_eq!(*else_value, replacement);
        }
        _ => panic!("the connection must carry the choice made anew"),
    }
    let reference = module.mux(select, first, second, span()).unwrap();
    for word in 0..1u32 << 17 {
        let inputs = [
            (data[0], word & 15),
            (data[1], word >> 4 & 15),
            (data[2], word >> 8 & 15),
            (data[3], word >> 12 & 15),
            (select, word >> 16),
        ];
        assert_eq!(number(&module, &inputs, shared), number(&module, &inputs, reference));
    }
}

fn kind_of(module: &WordModule, value: ValueId) -> &OpKind {
    match &module.values[value.raw as usize].kind {
        ValueKind::Operation(operation) => &module.operations[operation.raw as usize].kind,
        _ => panic!("the value of an operation was expected"),
    }
}

fn number(module: &WordModule, inputs: &[(ValueId, u32)], value: ValueId) -> u32 {
    let stored = &module.values[value.raw as usize];
    if let ValueKind::Signal(_) = stored.kind {
        return inputs.iter().find(|input| input.0 == value).unwrap().1;
    }
    match kind_of(module, value) {
        OpKind::Binary { op: BinaryOp::Add, left, right } => {
            (number(module, inputs, *left) + number(module, inputs, *right))
                & ((1 << stored.ty.width) - 1)
        }
        OpKind::Mux { cond, then_value, else_value } => {
            if number(module, inputs, *cond) == 1 {
                number(module, inputs, *then_value)
            } else {
                number(module, inputs, *else_value)
            }
        }
        kind => panic!("unexpected operation {kind:?}"),
    }
}

#[test]
fn an_operation_with_state_keeps_what_it_reads() {
    let mut module = WordModule::new();
    let data = ["a", "b", "c", "d"].map(|name| input(&mut module, name, 4));
    let select = input(&mut module, "select", 1);
    let clock = input(&mut module, "clock", 1);
    let first = module.binary(BinaryOp::Add, data[0], data[1], span()).unwrap();
    let second = module.binary(BinaryOp::Add, data[2], data[3], span()).unwrap();
    let chosen = module.mux(select, first, second, span()).unwrap();
    let state = module
        .register(
            RegisterOp {
                name: None,
                d: chosen,
                clock,
                edge: Edge::Pos,
                enable: None,
                resets: Vec::new(),
            },
            span(),
        )
        .unwrap();
    let observed = vec![true; module.values.len()];
    share_muxed_arithmetic(&mut module, &observed, &Vec::new(), &Vec::new()).unwrap();
    match kind_of(&module, state) {
        OpKind::Register(register) => assert_eq!(register.d, chosen),
        _ => panic!("a register stays a register"),
    }
}

#[test]
fn rejects_reconvergent_activation_without_enumerating_paths() {
    let mut module = WordModule::new();
    let left = input(&mut module, "left", 8);
    let right = input(&mut module, "right", 8);
    let arithmetic = module.binary(BinaryOp::Add, left, right, span()).unwrap();
    let mut current = arithmetic;
    for place in 0..64 {
        let select = input(&mut module, &format!("select_{place}"), 1);
        current = module.mux(select, current, current, span()).unwrap();
    }

    assert!(index(&module).activation(arithmetic).is_none());
}

#[test]
fn register_input_is_an_activation_boundary() {
    let mut module = WordModule::new();
    let left = input(&mut module, "left", 8);
    let right = input(&mut module, "right", 8);
    let clock = input(&mut module, "clock", 1);
    let arithmetic = module.binary(BinaryOp::Add, left, right, span()).unwrap();
    module
        .register(
            RegisterOp {
                name: None,
                d: arithmetic,
                clock,
                edge: Edge::Pos,
                enable: None,
                resets: Vec::new(),
            },
            span(),
        )
        .unwrap();

    assert!(index(&module).activation(arithmetic).is_none());
}

#[test]
fn activations_exclude_each_other_by_opposite_conditions() {
    let literal = |raw: u32, positive: bool| Literal { condition: ValueId { raw }, positive };
    let first = Activation::guarded(&vec![literal(3, true), literal(1, false)]).unwrap();
    assert_eq!(first.literals, vec![literal(1, false), literal(3, true)]);
    let second = Activation::guarded(&vec![literal(3, false)]).unwrap();
    assert!(first.is_exclusive(&second));
    assert!(!first.is_exclusive(&first));
    assert!(Activation::guarded(&Vec::new()).is_none());
    assert!(Activation::guarded(&vec![literal(2, true), literal(2, false)]).is_none());
}
