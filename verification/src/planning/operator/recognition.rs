//! Recognizing the operators of a module.

use super::demand::ObservableBits;
use super::regions::{
    additive_regions, ascending, constant_place, find_constant_place, indices, is_absorbed,
    is_root, lemma_ascending, lemma_region_terms, normalize_multiply_input, normalized,
    region_described, region_of, term_ok, terms_ok, AdditiveRegion, Sight, SightArguments,
};
use crate::error::{Invariant, Resource, SynthError};
use crate::planning::architecture::{
    ArithmeticTerm, DynamicExtractOperator, OperatorId, OperatorKind, SemanticOperator,
};
use crate::planning::fsm::transition::facts_view;
use crate::word::module::{KindView, ModuleView, ValueKind, WordModule};
use crate::word::types::{
    bit_lsb, op_inputs, BinaryOp, BitVal, ConstBits, OpId, OpKind, OpView, ValueId,
};
use vstd::prelude::*;

verus! {

/// What is known of a value that is used as an offset: the largest number it
/// can be, and how many of its low bits are clear.
#[derive(Clone, Copy, PartialEq, Eq, Structural, Debug)]
pub struct OffsetFacts {
    pub maximum: Option<u128>,
    pub alignment: u32,
}

/// What the recognition of operators goes by besides the module.
pub struct Knowledge {
    pub sight: Sight,
    pub prefixes: Seq<u32>,
    pub facts: Seq<Option<Seq<BitVal>>>,
    pub offsets: Seq<OffsetFacts>,
}

pub open spec fn prefix_of(prefixes: Seq<u32>, value: ValueId) -> u32 {
    if value.raw < prefixes.len() {
        prefixes[value.raw as int]
    } else {
        0
    }
}

/// How many low bits remain once known bits are dropped from the top.
pub open spec fn active_width(known: Option<Seq<BitVal>>, demand: u32) -> u32
    decreases demand,
{
    if demand == 0 {
        0
    } else {
        match known {
            Some(bits) => if demand <= bits.len() && bit_lsb(bits, demand - 1).known() {
                active_width(known, (demand - 1) as u32)
            } else {
                demand
            },
            None => demand,
        }
    }
}

/// How many bits of a result have to be computed.
pub open spec fn needed_width(knowledge: Knowledge, value: ValueId) -> u32 {
    active_width(
        knowledge.facts[value.raw as int],
        prefix_of(knowledge.prefixes, value),
    )
}

/// The number one.
pub open spec fn is_one(module: ModuleView, value: ValueId) -> bool {
    match module.kind(value) {
        KindView::Constant(bits) => bit_lsb(bits, 0) is One && forall|i: int|
            1 <= i < bits.len() ==> (#[trigger] bit_lsb(bits, i)) is Zero,
        _ => false,
    }
}

/// The class of a binary operation, and its operands.
pub open spec fn classified(module: ModuleView, op: BinaryOp, left: ValueId, right: ValueId) -> Option<
    (OperatorKind, ValueId, ValueId),
> {
    match op {
        BinaryOp::Add => if is_one(module, left) {
            Some((OperatorKind::Increment, right, left))
        } else if is_one(module, right) {
            Some((OperatorKind::Increment, left, right))
        } else {
            Some((OperatorKind::Add, left, right))
        },
        BinaryOp::Sub => if is_one(module, right) {
            Some((OperatorKind::Decrement, left, right))
        } else {
            Some((OperatorKind::Subtract, left, right))
        },
        BinaryOp::Mul => Some((OperatorKind::Multiply, left, right)),
        BinaryOp::Div => Some((OperatorKind::Divide, left, right)),
        BinaryOp::Mod => Some((OperatorKind::Modulo, left, right)),
        _ => None,
    }
}

/// The operator of a single operation.
pub open spec fn single_operator(
    module: ModuleView,
    knowledge: Knowledge,
    index: int,
    id: u32,
) -> Result<Option<SemanticOperator>, SynthError> {
    let operation = module.operations[index];
    let result = operation.result;
    let width = needed_width(knowledge, result);
    match operation.kind {
        OpView::DynamicExtract { value, offset, width: extracted } => if width == 0 {
            Ok(None)
        } else {
            let facts = knowledge.offsets[offset.raw as int];
            match facts.maximum {
                None => Err(SynthError::Invariant(Invariant::UnboundedOffset)),
                Some(maximum) => Ok(
                    Some(
                        SemanticOperator {
                            number: OperatorId { number: id },
                            class: OperatorKind::DynamicExtract,
                            operation: OpId { raw: index as u32 },
                            left: value,
                            right: offset,
                            left_type: module.ty(value),
                            right_type: module.ty(offset),
                            output: result,
                            constant: None,
                            terms: 0,
                            negative_terms: 0,
                            product_terms: 0,
                            variable_product_terms: 0,
                            semantic_width: module.ty(result).width,
                            implementation_width: width,
                            signed: module.ty(result).signed,
                            extraction: Some(
                                DynamicExtractOperator::of(
                                    maximum,
                                    (module.ty(value).width - extracted) as u32,
                                    facts.alignment,
                                    module.ty(offset).width,
                                ),
                            ),
                        },
                    ),
                ),
            }
        },
        OpView::Binary { op, left, right } => match classified(module, op, left, right) {
            None => Ok(None),
            Some((class, first, second)) => if width == 0 {
                Ok(None)
            } else {
                let (a, a_type) = if class is Multiply {
                    normalized(module, first)
                } else {
                    (first, module.ty(first))
                };
                let (b, b_type) = if class is Multiply {
                    normalized(module, second)
                } else {
                    (second, module.ty(second))
                };
                Ok(
                    Some(
                        SemanticOperator {
                            number: OperatorId { number: id },
                            class,
                            operation: OpId { raw: index as u32 },
                            left: a,
                            right: b,
                            left_type: a_type,
                            right_type: b_type,
                            output: result,
                            constant: constant_place(module, a, b),
                            terms: 0,
                            negative_terms: 0,
                            product_terms: 0,
                            variable_product_terms: 0,
                            semantic_width: module.ty(result).width,
                            implementation_width: width,
                            signed: module.ty(result).signed,
                            extraction: None,
                        },
                    ),
                )
            },
        },
        _ => Ok(None),
    }
}

/// The values that terms read, in order.
pub open spec fn term_operands(terms: Seq<ArithmeticTerm>) -> Seq<ValueId>
    decreases terms.len(),
{
    if terms.len() == 0 {
        seq![]
    } else {
        term_operands(terms.drop_last()) + terms.last().operands()
    }
}

/// How many of the first terms pass a test.
pub open spec fn count_terms(terms: Seq<ArithmeticTerm>, test: spec_fn(ArithmeticTerm) -> bool) -> nat
    decreases terms.len(),
{
    if terms.len() == 0 {
        0
    } else {
        count_terms(terms.drop_last(), test) + (if test(terms.last()) {
            1nat
        } else {
            0
        })
    }
}

pub open spec fn negative_test() -> spec_fn(ArithmeticTerm) -> bool {
    |term: ArithmeticTerm| term.subtracts()
}

pub open spec fn product_test() -> spec_fn(ArithmeticTerm) -> bool {
    |term: ArithmeticTerm| term is Product
}

pub open spec fn variable_test() -> spec_fn(ArithmeticTerm) -> bool {
    |term: ArithmeticTerm| term.varies()
}

/// The operator of a fused sum.
pub open spec fn sum_operator(
    module: ModuleView,
    knowledge: Knowledge,
    index: int,
    id: u32,
) -> Result<Option<SemanticOperator>, SynthError> {
    let result = module.operations[index].result;
    let width = needed_width(knowledge, result);
    let terms = region_of(module, knowledge.sight, index).terms;
    let operands = term_operands(terms);
    if width == 0 {
        Ok(None)
    } else if terms.len() > u32::MAX {
        Err(SynthError::Capacity(Resource::Operators))
    } else {
        let first = operands[0];
        let second = if operands.len() > 1 {
            operands[1]
        } else {
            first
        };
        Ok(
            Some(
                SemanticOperator {
                    number: OperatorId { number: id },
                    class: OperatorKind::Sum,
                    operation: OpId { raw: index as u32 },
                    left: first,
                    right: second,
                    left_type: module.ty(first),
                    right_type: module.ty(second),
                    output: result,
                    constant: None,
                    terms: terms.len() as u32,
                    negative_terms: count_terms(terms, negative_test()) as u32,
                    product_terms: count_terms(terms, product_test()) as u32,
                    variable_product_terms: count_terms(terms, variable_test()) as u32,
                    semantic_width: module.ty(result).width,
                    implementation_width: width,
                    signed: module.ty(result).signed,
                    extraction: None,
                },
            ),
        )
    }
}

/// The operator that an operation stands for, if it stands for one.
pub open spec fn operator_at(
    module: ModuleView,
    knowledge: Knowledge,
    index: int,
    id: u32,
) -> Result<Option<SemanticOperator>, SynthError> {
    if is_absorbed(module, knowledge.sight, index) {
        Ok(None)
    } else if is_root(module, knowledge.sight, index) {
        sum_operator(module, knowledge, index, id)
    } else {
        single_operator(module, knowledge, index, id)
    }
}

/// No operator.
pub const MISSING_OPERATOR_ID: u32 = u32::MAX;

/// The operators of a module and where they come from.
#[verifier::ext_equal]
pub struct RecognizedView {
    pub operators: Seq<SemanticOperator>,
    pub by_source: Seq<u32>,
    pub sources: Seq<Seq<OpId>>,
    pub terms: Seq<Seq<ArithmeticTerm>>,
}

/// The operations that an operator covers.
pub open spec fn covered(module: ModuleView, sight: Sight, index: int) -> Seq<int> {
    if is_root(module, sight, index) {
        ascending(region_of(module, sight, index).operations, module.operations.len())
    } else {
        seq![index]
    }
}

pub open spec fn op_ids(list: Seq<int>) -> Seq<OpId> {
    list.map_values(|i: int| OpId { raw: i as u32 })
}

/// Operations that belong to an operator.
pub open spec fn assigned(by_source: Seq<u32>, list: Seq<int>, index: int, id: u32) -> Seq<u32> {
    Seq::new(
        by_source.len(),
        |i: int|
            if i == index || list.contains(i) {
                id
            } else {
                by_source[i]
            },
    )
}

/// The operators of the first operations.
pub open spec fn recognized(module: ModuleView, knowledge: Knowledge, count: nat) -> Result<
    RecognizedView,
    SynthError,
>
    decreases count,
{
    if count == 0 {
        Ok(
            RecognizedView {
                operators: seq![],
                by_source: Seq::new(module.operations.len(), |i: int| MISSING_OPERATOR_ID),
                sources: seq![],
                terms: seq![],
            },
        )
    } else {
        let index = count - 1;
        match recognized(module, knowledge, index as nat) {
            Err(error) => Err(error),
            Ok(below) => match operator_at(
                module,
                knowledge,
                index,
                below.operators.len() as u32,
            ) {
                Err(error) => Err(error),
                Ok(None) => Ok(below),
                Ok(Some(operator)) => {
                    let list = covered(module, knowledge.sight, index);
                    Ok(
                        RecognizedView {
                            operators: below.operators.push(operator),
                            by_source: assigned(
                                below.by_source,
                                list,
                                index,
                                below.operators.len() as u32,
                            ),
                            sources: below.sources.push(op_ids(list)),
                            terms: below.terms.push(
                                if is_root(module, knowledge.sight, index) {
                                    region_of(module, knowledge.sight, index).terms
                                } else {
                                    seq![]
                                },
                            ),
                        },
                    )
                },
            },
        }
    }
}

/// The executable side of what is known.
pub struct KnowledgeArguments<'a> {
    pub sight: SightArguments<'a>,
    pub observable: &'a ObservableBits,
    pub facts: &'a Vec<Option<ConstBits>>,
    pub offsets: &'a Vec<OffsetFacts>,
}

impl<'a> KnowledgeArguments<'a> {
    pub open spec fn view(&self) -> Knowledge {
        Knowledge {
            sight: self.sight@,
            prefixes: self.observable.value_prefixes@,
            facts: facts_view(self.facts@),
            offsets: self.offsets@,
        }
    }

    pub open spec fn fits(&self, module: ModuleView) -> bool {
        &&& self.sight.uses@.len() == module.values.len()
        &&& self.facts@.len() == module.values.len()
        &&& self.offsets@.len() == module.values.len()
    }
}

fn find_active_width(known: &Option<ConstBits>, demand: u32) -> (width: u32)
    ensures
        width == active_width(
            match *known {
                Some(bits) => Some(bits@),
                None => None,
            },
            demand,
        ),
{
    let ghost held: Option<Seq<BitVal>> = match known {
        Some(bits) => Some(bits@),
        None => None,
    };
    match known {
        None => demand,
        Some(bits) => {
            let mut width: u32 = demand;
            let mut done = false;
            while width > 0 && !done
                invariant
                    held == Some(bits@),
                    active_width(held, width) == active_width(held, demand),
                    done ==> active_width(held, width) == width,
                decreases
                        width + (if done {
                            0int
                        } else {
                            1int
                        }),
            {
                let dropped = match bits.bit_lsb(width - 1) {
                    Some(bit) => bit.is_known(),
                    None => false,
                };
                if dropped {
                    width -= 1;
                } else {
                    done = true;
                }
            }
            width
        },
    }
}

/// How many bits of a result have to be computed.
fn implementation_width(knowledge: &KnowledgeArguments, value: ValueId) -> (width: u32)
    requires
        value.raw < knowledge.facts@.len(),
    ensures
        width == needed_width(knowledge@, value),
{
    let demand: u32 = knowledge.observable.required_prefix(value);
    find_active_width(&knowledge.facts[value.raw as usize], demand)
}

fn is_constant_one(module: &WordModule, value: ValueId) -> (one: bool)
    requires
        module@.wf(),
        module@.has(value),
    ensures
        one == is_one(module@, value),
{
    assert(module@.value_ok(value.raw as int));
    let stored = &module.values[value.raw as usize];
    assert(stored@ == module@.values[value.raw as int]);
    match &stored.kind {
        ValueKind::Constant(bits) => {
            let total: usize = bits.bits.len();
            let low = match bits.bits[total - 1] {
                BitVal::One => true,
                _ => false,
            };
            let mut clear = true;
            let mut i: usize = 1;
            while i < total
                invariant
                    1 <= i,
                    total == bits@.len(),
                    total >= 1,
                    i <= total,
                    clear == (forall|k: int|
                        1 <= k < i ==> (#[trigger] bit_lsb(bits@, k)) is Zero),
                decreases total - i,
            {
                let zero = match bits.bits[total - 1 - i] {
                    BitVal::Zero => true,
                    _ => false,
                };
                assert(zero == (bit_lsb(bits@, i as int) is Zero));
                assert(clear && zero ==> forall|k: int|
                    1 <= k < i + 1 ==> (#[trigger] bit_lsb(bits@, k)) is Zero);
                clear = clear && zero;
                i += 1;
            }
            low && clear
        },
        _ => false,
    }
}

fn classify(module: &WordModule, op: BinaryOp, left: ValueId, right: ValueId) -> (class: Option<
    (OperatorKind, ValueId, ValueId),
>)
    requires
        module@.wf(),
        module@.has(left),
        module@.has(right),
    ensures
        class == classified(module@, op, left, right),
{
    match op {
        BinaryOp::Add => if is_constant_one(module, left) {
            Some((OperatorKind::Increment, right, left))
        } else if is_constant_one(module, right) {
            Some((OperatorKind::Increment, left, right))
        } else {
            Some((OperatorKind::Add, left, right))
        },
        BinaryOp::Sub => if is_constant_one(module, right) {
            Some((OperatorKind::Decrement, left, right))
        } else {
            Some((OperatorKind::Subtract, left, right))
        },
        BinaryOp::Mul => Some((OperatorKind::Multiply, left, right)),
        BinaryOp::Div => Some((OperatorKind::Divide, left, right)),
        BinaryOp::Mod => Some((OperatorKind::Modulo, left, right)),
        _ => None,
    }
}

/// The operator of a single operation.
#[verifier::rlimit(40)]
pub fn semantic_operator(
    module: &WordModule,
    knowledge: &KnowledgeArguments,
    index: usize,
    id: u32,
) -> (result: Result<Option<SemanticOperator>, SynthError>)
    requires
        module@.wf(),
        knowledge.fits(module@),
        index < module@.operations.len(),
    ensures
        result == single_operator(module@, knowledge@, index as int, id),
{
    let operation = &module.operations[index];
    assert(operation@ == module@.operations[index as int]);
    assert(module@.operation_ok(index as int));
    let ghost inputs = op_inputs(operation.kind@);
    assert(forall|i: int| 0 <= i < inputs.len() ==> module@.has(#[trigger] inputs[i]));
    let result = operation.result;
    assert(module@.values[result.raw as int] == module.values@[result.raw as int]@);
    let result_type = module.values[result.raw as usize].ty;
    match &operation.kind {
        OpKind::DynamicExtract { value, offset, width } => {
            assert(inputs[0] == *value && inputs[1] == *offset);
            assert(module@.values[value.raw as int] == module.values@[value.raw as int]@);
            assert(module@.values[offset.raw as int] == module.values@[offset.raw as int]@);
            let needed: u32 = implementation_width(knowledge, result);
            if needed == 0 {
                return Ok(None);
            }
            let value_type = module.values[value.raw as usize].ty;
            let offset_type = module.values[offset.raw as usize].ty;
            let available: u32 = value_type.width - *width;
            let facts = knowledge.offsets[offset.raw as usize];
            let maximum = match facts.maximum {
                Some(maximum) => maximum,
                None => return Err(SynthError::Invariant(Invariant::UnboundedOffset)),
            };
            Ok(
                Some(
                    SemanticOperator {
                        number: OperatorId { number: id },
                        class: OperatorKind::DynamicExtract,
                        operation: OpId { raw: index as u32 },
                        left: *value,
                        right: *offset,
                        left_type: value_type,
                        right_type: offset_type,
                        output: result,
                        constant: None,
                        terms: 0,
                        negative_terms: 0,
                        product_terms: 0,
                        variable_product_terms: 0,
                        semantic_width: result_type.width,
                        implementation_width: needed,
                        signed: result_type.signed,
                        extraction: Some(
                            DynamicExtractOperator::new(
                                maximum,
                                available,
                                facts.alignment,
                                offset_type.width,
                            ),
                        ),
                    },
                ),
            )
        },
        OpKind::Binary { op, left, right } => {
            assert(inputs[0] == *left && inputs[1] == *right);
            let (class, first, second) = match classify(module, *op, *left, *right) {
                Some(found) => found,
                None => return Ok(None),
            };
            let needed: u32 = implementation_width(knowledge, result);
            if needed == 0 {
                return Ok(None);
            }
            assert(module@.values[first.raw as int] == module.values@[first.raw as int]@);
            assert(module@.values[second.raw as int] == module.values@[second.raw as int]@);
            let (a, a_type, b, b_type) = match class {
                OperatorKind::Multiply => {
                    let (a, a_type) = normalize_multiply_input(module, first);
                    let (b, b_type) = normalize_multiply_input(module, second);
                    (a, a_type, b, b_type)
                },
                _ => (
                    first,
                    module.values[first.raw as usize].ty,
                    second,
                    module.values[second.raw as usize].ty,
                ),
            };
            Ok(
                Some(
                    SemanticOperator {
                        number: OperatorId { number: id },
                        class,
                        operation: OpId { raw: index as u32 },
                        left: a,
                        right: b,
                        left_type: a_type,
                        right_type: b_type,
                        output: result,
                        constant: find_constant_place(module, a, b),
                        terms: 0,
                        negative_terms: 0,
                        product_terms: 0,
                        variable_product_terms: 0,
                        semantic_width: result_type.width,
                        implementation_width: needed,
                        signed: result_type.signed,
                        extraction: None,
                    },
                ),
            )
        },
        _ => Ok(None),
    }
}


/// The first two values that terms read.
fn first_operands(terms: &Vec<ArithmeticTerm>, Ghost(module): Ghost<ModuleView>) -> (operands: (
    ValueId,
    ValueId,
))
    requires
        terms_ok(module, terms@),
    ensures
        ({
            let all = term_operands(terms@);
            &&& all.len() > 0
            &&& operands.0 == all[0]
            &&& operands.1 == (if all.len() > 1 {
                all[1]
            } else {
                all[0]
            })
        }),
        module.has(operands.0),
        module.has(operands.1),
{
    let first = terms[0].inputs();
    assert(term_ok(module, terms@[0]));
    proof {
        lemma_first_operands(terms@, 1);
        assert(terms@.take(1).drop_last() =~= Seq::<ArithmeticTerm>::empty());
        assert(term_operands(terms@.take(1)) =~= terms@[0].operands()) by {
            reveal_with_fuel(term_operands, 2);
        }
        assert(terms@.take(terms@.len() as int) =~= terms@);
    }
    if first.len() > 1 {
        return (first[0], first[1]);
    }
    if terms.len() > 1 {
        let second = terms[1].inputs();
        assert(term_ok(module, terms@[1]));
        proof {
            lemma_first_operands(terms@, 2);
            assert(terms@.take(2).drop_last() =~= terms@.take(1));
            assert(term_operands(terms@.take(2)) =~= terms@[0].operands() + terms@[1].operands());
        }
        (first[0], second[0])
    } else {
        (first[0], first[0])
    }
}

/// The operands of the first terms come first.
proof fn lemma_first_operands(terms: Seq<ArithmeticTerm>, count: int)
    requires
        0 <= count <= terms.len(),
    ensures
        term_operands(terms).len() >= term_operands(terms.take(count)).len(),
        forall|i: int|
            0 <= i < term_operands(terms.take(count)).len() ==> #[trigger] term_operands(terms)[i]
                == term_operands(terms.take(count))[i],
    decreases terms.len(),
{
    if count < terms.len() {
        lemma_first_operands(terms.drop_last(), count);
        assert(terms.drop_last().take(count) =~= terms.take(count));
    } else {
        assert(terms.take(count) =~= terms);
    }
}

/// How many terms are negative, products, and products of two variables.
fn count_kinds(terms: &Vec<ArithmeticTerm>) -> (counts: (u32, u32, u32))
    requires
        terms@.len() <= u32::MAX,
    ensures
        counts.0 == count_terms(terms@, negative_test()),
        counts.1 == count_terms(terms@, product_test()),
        counts.2 == count_terms(terms@, variable_test()),
{
    let mut negative: u32 = 0;
    let mut products: u32 = 0;
    let mut variable: u32 = 0;
    let mut i: usize = 0;
    assert(terms@.take(0).len() == 0);
    while i < terms.len()
        invariant
            i <= terms@.len() <= u32::MAX,
            negative <= i,
            products <= i,
            variable <= i,
            negative == count_terms(terms@.take(i as int), negative_test()),
            products == count_terms(terms@.take(i as int), product_test()),
            variable == count_terms(terms@.take(i as int), variable_test()),
        decreases terms.len() - i,
    {
        let term = terms[i];
        assert(terms@.take(i + 1).drop_last() =~= terms@.take(i as int));
        assert(terms@.take(i + 1).last() == term);
        if term.is_negative() {
            negative += 1;
        }
        if term.is_product() {
            products += 1;
        }
        if term.has_variable_product() {
            variable += 1;
        }
        i += 1;
    }
    assert(terms@.take(i as int) =~= terms@);
    (negative, products, variable)
}

/// The operator of a fused sum.
pub fn semantic_sum_operator(
    module: &WordModule,
    knowledge: &KnowledgeArguments,
    index: usize,
    id: u32,
    region: &AdditiveRegion,
) -> (result: Result<Option<SemanticOperator>, SynthError>)
    requires
        module@.wf(),
        knowledge.fits(module@),
        index < module@.operations.len(),
        is_root(module@, knowledge@.sight, index as int),
        region.terms@ == region_of(module@, knowledge@.sight, index as int).terms,
    ensures
        result == sum_operator(module@, knowledge@, index as int, id),
{
    let operation = &module.operations[index];
    assert(operation@ == module@.operations[index as int]);
    assert(module@.operation_ok(index as int));
    let result = operation.result;
    assert(module@.values[result.raw as int] == module.values@[result.raw as int]@);
    let result_type = module.values[result.raw as usize].ty;
    let needed: u32 = implementation_width(knowledge, result);
    if needed == 0 {
        return Ok(None);
    }
    if region.terms.len() > u32::MAX as usize {
        return Err(SynthError::Capacity(Resource::Operators));
    }
    proof {
        lemma_region_terms(module@, knowledge@.sight, index as int);
    }
    let (first, second) = first_operands(&region.terms, Ghost(module@));
    let (negative, products, variable) = count_kinds(&region.terms);
    assert(module@.values[first.raw as int] == module.values@[first.raw as int]@);
    assert(module@.values[second.raw as int] == module.values@[second.raw as int]@);
    Ok(
        Some(
            SemanticOperator {
                number: OperatorId { number: id },
                class: OperatorKind::Sum,
                operation: OpId { raw: index as u32 },
                left: first,
                right: second,
                left_type: module.values[first.raw as usize].ty,
                right_type: module.values[second.raw as usize].ty,
                output: result,
                constant: None,
                terms: region.terms.len() as u32,
                negative_terms: negative,
                product_terms: products,
                variable_product_terms: variable,
                semantic_width: result_type.width,
                implementation_width: needed,
                signed: result_type.signed,
                extraction: None,
            },
        ),
    )
}

pub open spec fn source_rows(rows: Seq<Vec<OpId>>) -> Seq<Seq<OpId>> {
    rows.map_values(|row: Vec<OpId>| row@)
}

pub open spec fn term_rows(rows: Seq<Vec<ArithmeticTerm>>) -> Seq<Seq<ArithmeticTerm>> {
    rows.map_values(|row: Vec<ArithmeticTerm>| row@)
}

/// The operators of a module and where they come from.
pub struct RecognizedOperators {
    pub operators: Vec<SemanticOperator>,
    pub by_source: Vec<u32>,
    pub sources: Vec<Vec<OpId>>,
    pub terms: Vec<Vec<ArithmeticTerm>>,
}

impl RecognizedOperators {
    pub open spec fn view(&self) -> RecognizedView {
        RecognizedView {
            operators: self.operators@,
            by_source: self.by_source@,
            sources: source_rows(self.sources@),
            terms: term_rows(self.terms@),
        }
    }
}

/// The first error stays.
proof fn lemma_error_stays(module: ModuleView, knowledge: Knowledge, count: nat, total: nat)
    requires
        count <= total,
        recognized(module, knowledge, count) is Err,
    ensures
        recognized(module, knowledge, total) == recognized(module, knowledge, count),
    decreases total - count,
{
    if count < total {
        lemma_error_stays(module, knowledge, count, (total - 1) as nat);
    }
}

/// Marks the operations that belong to an operator, and names them.
fn assign_sources(
    by_source: &mut Vec<u32>,
    operations: &Vec<usize>,
    index: usize,
    id: u32,
) -> (ids: Vec<OpId>)
    requires
        index < old(by_source)@.len() <= u32::MAX,
        forall|i: int|
            0 <= i < operations@.len() ==> (#[trigger] operations@[i]) < old(by_source)@.len(),
    ensures
        final(by_source)@ == assigned(old(by_source)@, indices(operations@), index as int, id),
        ids@ == op_ids(indices(operations@)),
{
    let ghost start = by_source@;
    let ghost list = indices(operations@);
    let mut ids: Vec<OpId> = Vec::new();
    let mut k: usize = 0;
    while k < operations.len()
        invariant
            start.len() <= u32::MAX,
            by_source@.len() == start.len(),
            list == indices(operations@),
            forall|i: int|
                0 <= i < operations@.len() ==> (#[trigger] operations@[i]) < start.len(),
            k <= operations@.len(),
            ids@ =~= op_ids(list).take(k as int),
            forall|i: int|
                0 <= i < start.len() ==> #[trigger] by_source@[i] == (if list.take(
                    k as int,
                ).contains(i) {
                    id
                } else {
                    start[i]
                }),
        decreases operations.len() - k,
    {
        let ghost before = by_source@;
        let operation: usize = operations[k];
        assert(operations@[k as int] < start.len());
        ids.push(OpId { raw: operation as u32 });
        by_source.set(operation, id);
        proof {
            let shorter = list.take(k as int);
            let longer = list.take(k + 1);
            assert(longer =~= shorter.push(operation as int));
            assert forall|i: int| 0 <= i < start.len() implies #[trigger] by_source@[i] == (
            if longer.contains(i) {
                id
            } else {
                start[i]
            }) by {
                assert(before[i] == (if shorter.contains(i) {
                    id
                } else {
                    start[i]
                }));
                if shorter.contains(i) {
                    let j = choose|j: int| 0 <= j < shorter.len() && shorter[j] == i;
                    assert(longer[j] == i);
                }
                if i == operation {
                    assert(longer[k as int] == i);
                }
                if longer.contains(i) && i != operation {
                    let j = choose|j: int| 0 <= j < longer.len() && longer[j] == i;
                    assert(shorter[j] == i);
                }
            }
        }
        k += 1;
    }
    assert(list.take(k as int) =~= list);
    by_source.set(index, id);
    assert(by_source@ =~= assigned(start, list, index as int, id));
    ids
}

/// Recognizes the operators of a module.
#[verifier::rlimit(60)]
pub fn recognize_operators(module: &WordModule, knowledge: &KnowledgeArguments) -> (result: Result<
    RecognizedOperators,
    SynthError,
>)
    requires
        module@.wf(),
        knowledge.fits(module@),
    ensures
        match result {
            Ok(found) => recognized(module@, knowledge@, module@.operations.len()) == Ok::<
                RecognizedView,
                SynthError,
            >(found@),
            Err(error) => recognized(module@, knowledge@, module@.operations.len()) == Err::<
                RecognizedView,
                SynthError,
            >(error),
        },
{
    let ghost view = module@;
    let ghost known = knowledge@;
    let mut regions = additive_regions(module, &knowledge.sight);
    let mut found = RecognizedOperators {
        operators: Vec::new(),
        by_source: Vec::new(),
        sources: Vec::new(),
        terms: Vec::new(),
    };
    found.by_source.resize(module.operations.len(), MISSING_OPERATOR_ID);
    assert(found@ =~= recognized(view, known, 0)->Ok_0) by {
        assert(found.by_source@ =~= Seq::new(
            view.operations.len(),
            |i: int| MISSING_OPERATOR_ID,
        ));
    }
    let mut index: usize = 0;
    while index < module.operations.len()
        invariant
            view == module@,
            view.wf(),
            known == knowledge@,
            knowledge.fits(view),
            regions.describes(view, known.sight),
            index <= view.operations.len(),
            found.operators@.len() <= index,
            found.by_source@.len() == view.operations.len(),
            recognized(view, known, index as nat) == Ok::<RecognizedView, SynthError>(found@),
        decreases module.operations.len() - index,
    {
        let ghost before = found@;
        let id: u32 = found.operators.len() as u32;
        let ghost next = operator_at(view, known, index as int, id);
        assert(regions.absorbed@.contains(index as u64) == is_absorbed(
            view,
            known.sight,
            index as int,
        ));
        if regions.absorbed.contains(index as u64) {
            index += 1;
            continue ;
        }
        assert(region_described(
            view,
            known.sight,
            index as int,
            regions.by_root@[index as int],
        ));
        let operator = match &regions.by_root[index] {
            Some(region) => semantic_sum_operator(module, knowledge, index, id, region),
            None => semantic_operator(module, knowledge, index, id),
        };
        assert(operator == next);
        let operator = match operator {
            Ok(Some(operator)) => operator,
            Ok(None) => {
                index += 1;
                continue ;
            },
            Err(error) => {
                proof {
                    lemma_error_stays(view, known, (index + 1) as nat, view.operations.len());
                }
                return Err(error);
            },
        };
        let ghost list = covered(view, known.sight, index as int);
        let (ids, terms) = match &regions.by_root[index] {
            Some(region) => {
                proof {
                    lemma_ascending(
                        region_of(view, known.sight, index as int).operations,
                        view.operations.len(),
                    );
                    assert forall|i: int| 0 <= i < region.operations@.len() implies (
                    #[trigger] region.operations@[i]) < view.operations.len() by {
                        assert(indices(region.operations@)[i] == region.operations@[i]);
                    }
                }
                let ids = assign_sources(&mut found.by_source, &region.operations, index, id);
                (ids, copy_terms(&region.terms))
            },
            None => {
                let mut own: Vec<usize> = Vec::new();
                own.push(index);
                assert(indices(own@) =~= seq![index as int]);
                let ids = assign_sources(&mut found.by_source, &own, index, id);
                (ids, Vec::new())
            },
        };
        let ghost row = ids@;
        let ghost term_row = terms@;
        let ghost old_sources = found.sources@;
        let ghost old_terms = found.terms@;
        found.sources.push(ids);
        found.terms.push(terms);
        found.operators.push(operator);
        proof {
            assert(source_rows(found.sources@) =~= source_rows(old_sources).push(row));
            assert(term_rows(found.terms@) =~= term_rows(old_terms).push(term_row));
            assert(found@ =~= recognized(view, known, (index + 1) as nat)->Ok_0);
        }
        index += 1;
    }
    Ok(found)
}

fn copy_terms(terms: &Vec<ArithmeticTerm>) -> (copy: Vec<ArithmeticTerm>)
    ensures
        copy@ == terms@,
{
    let mut copy: Vec<ArithmeticTerm> = Vec::new();
    let mut i: usize = 0;
    while i < terms.len()
        invariant
            i <= terms@.len(),
            copy@ =~= terms@.take(i as int),
        decreases terms.len() - i,
    {
        copy.push(terms[i]);
        i += 1;
    }
    copy
}

} // verus!
