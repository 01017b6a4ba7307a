//! Operators recognized before a design is lowered to cells.

use crate::word::types::{OpId, ValueId, WordType};
use vstd::arithmetic::power2::{
    lemma2_to64, lemma_pow2_pos, lemma_pow2_strictly_increases, lemma_pow2_unfold, pow2,
};
use vstd::prelude::*;

verus! {

/// The number of a recognized operator.
#[derive(Clone, Copy, PartialEq, Eq, Ord, Hash, Debug)]
pub struct OperatorId {
    pub number: u32,
}

impl OperatorId {
    /// The place of the operator in its catalog.
    pub fn raw(self) -> (raw: u32)
        ensures
            raw == self.number,
    {
        self.number
    }

    pub fn from_raw(raw: u32) -> (id: Self)
        ensures
            id.number == raw,
    {
        OperatorId { number: raw }
    }
}

/// Classes of operations with implementations to choose from.
#[derive(Clone, Copy, PartialEq, Eq, Structural, PartialOrd, Ord, Hash, Debug)]
pub enum OperatorKind {
    /// Addition.
    Add,
    /// A fused region of sums and products.
    Sum,
    /// Subtraction.
    Subtract,
    /// Addition of one.
    Increment,
    /// Subtraction of one.
    Decrement,
    /// Multiplication.
    Multiply,
    /// Division that rounds towards zero.
    Divide,
    /// The remainder, with the dividend's sign.
    Modulo,
    /// A run of bits at a computed offset.
    DynamicExtract,
}

/// A signed summand of a fused region: a value, or a product of two values.
#[derive(Clone, Copy, PartialEq, Eq, Structural, Debug)]
#[allow(inconsistent_fields)]
pub enum ArithmeticTerm {
    Value { value: ValueId, ty: WordType, negative: bool },
    Product {
        left: ValueId,
        right: ValueId,
        left_type: WordType,
        right_type: WordType,
        ty: WordType,
        negative: bool,
        constant_input: Option<u8>,
    },
}

impl ArithmeticTerm {
    pub open spec fn subtracts(self) -> bool {
        match self {
            ArithmeticTerm::Value { negative, .. } => negative,
            ArithmeticTerm::Product { negative, .. } => negative,
        }
    }

    /// A product of two values that are not constants.
    pub open spec fn varies(self) -> bool {
        self matches ArithmeticTerm::Product { constant_input, .. } && constant_input is None
    }

    /// The values that the term reads.
    pub open spec fn operands(self) -> Seq<ValueId> {
        match self {
            ArithmeticTerm::Value { value, .. } => seq![value],
            ArithmeticTerm::Product { left, right, .. } => seq![left, right],
        }
    }

    pub fn is_negative(self) -> (negative: bool)
        ensures
            negative == self.subtracts(),
    {
        match self {
            ArithmeticTerm::Value { negative, .. } => negative,
            ArithmeticTerm::Product { negative, .. } => negative,
        }
    }

    pub fn is_product(self) -> (product: bool)
        ensures
            product == (self is Product),
    {
        match self {
            ArithmeticTerm::Value { .. } => false,
            ArithmeticTerm::Product { .. } => true,
        }
    }

    pub fn has_variable_product(self) -> (varies: bool)
        ensures
            varies == self.varies(),
    {
        match self {
            ArithmeticTerm::Value { .. } => false,
            ArithmeticTerm::Product { constant_input, .. } => constant_input.is_none(),
        }
    }

    pub fn inputs(self) -> (inputs: Vec<ValueId>)
        ensures
            inputs@ == self.operands(),
    {
        let mut inputs: Vec<ValueId> = Vec::new();
        match self {
            ArithmeticTerm::Value { value, .. } => {
                inputs.push(value);
            },
            ArithmeticTerm::Product { left, right, .. } => {
                inputs.push(left);
                inputs.push(right);
            },
        }
        assert(inputs@ =~= self.operands());
        inputs
    }
}

pub const ONE_HOT_EXTRACT_MAX_OFFSET: u128 = 4096;

pub const ONE_HOT_EXTRACT_MIN_TAPS: u32 = 4;

pub const ONE_HOT_EXTRACT_MAX_TAPS: u32 = 64;

pub const ONE_HOT_EXTRACT_MIN_WIDTH: u32 = 4;

pub const ONE_HOT_EXTRACT_SPARSITY: u128 = 4;

/// What is known of the offsets of a dynamic extraction.
#[derive(Clone, Copy, PartialEq, Eq, Structural, Debug)]
pub struct DynamicExtractOperator {
    pub maximum: u128,
    pub selectable: u128,
    pub aligned: u32,
    pub width: u32,
    pub taps: u32,
}

/// The distance between two offsets that can be selected.
pub open spec fn stride_of(alignment: u32) -> nat {
    pow2(
        if alignment <= 127 {
            alignment as nat
        } else {
            127
        },
    )
}

/// How many offsets up to a bound are multiples of a stride, as far as that can
/// be counted.
pub open spec fn taps_of(selectable: u128, alignment: u32) -> u32 {
    let count = selectable as nat / stride_of(alignment) + 1;
    if count <= u32::MAX {
        count as u32
    } else {
        u32::MAX
    }
}

pub open spec fn smaller(left: u128, right: u128) -> u128 {
    if left <= right {
        left
    } else {
        right
    }
}

/// The number of bits that a number needs.
pub open spec fn bit_length(number: nat) -> nat
    decreases number,
{
    if number == 0 {
        0
    } else {
        1 + bit_length(number / 2)
    }
}

/// The length of a number is the exponent of the first power of two above it.
pub proof fn bit_length_is_tight(number: nat)
    ensures
        number < pow2(bit_length(number)),
        number > 0 ==> pow2((bit_length(number) - 1) as nat) <= number,
    decreases number,
{
    lemma2_to64();
    if number > 0 {
        bit_length_is_tight(number / 2);
        let length = bit_length(number / 2);
        lemma_pow2_unfold(length + 1);
        if number / 2 > 0 {
            lemma_pow2_unfold(length);
        } else {
            assert(number == 1);
        }
    }
}

pub fn length_of(number: u128) -> (length: u32)
    ensures
        length == bit_length(number as nat),
        length <= 128,
{
    let mut rest: u128 = number;
    let mut length: u32 = 0;
    proof {
        assert(pow2(128) == 0x1_0000_0000_0000_0000_0000_0000_0000_0000int) by {
            lemma2_to64();
            vstd::arithmetic::power2::lemma_pow2_adds(64, 64);
        }
        lemma_length_bound(number as nat, 128);
    }
    while rest > 0
        invariant
            length + bit_length(rest as nat) == bit_length(number as nat),
            bit_length(number as nat) <= 128,
        decreases rest,
    {
        rest = rest / 2;
        length += 1;
    }
    length
}

pub proof fn lemma_length_bound(number: nat, bits: nat)
    requires
        number < pow2(bits),
    ensures
        bit_length(number) <= bits,
    decreases bits,
{
    lemma2_to64();
    if number > 0 {
        if bits == 0 {
            assert(false);
        }
        lemma_pow2_unfold(bits);
        lemma_length_bound(number / 2, (bits - 1) as nat);
    }
}

/// The distance between two offsets that can be selected.
pub fn stride(alignment: u32) -> (stride: u128)
    ensures
        stride == stride_of(alignment),
{
    let bits: u32 = if alignment <= 127 {
        alignment
    } else {
        127
    };
    proof {
        assert(pow2(127) == 0x8000_0000_0000_0000_0000_0000_0000_0000int) by {
            lemma2_to64();
            lemma_pow2_unfold(64);
            vstd::arithmetic::power2::lemma_pow2_adds(64, 63);
        }
        lemma2_to64();
    }
    let mut stride: u128 = 1;
    let mut i: u32 = 0;
    while i < bits
        invariant
            i <= bits <= 127,
            stride == pow2(i as nat),
            pow2(127) == 0x8000_0000_0000_0000_0000_0000_0000_0000int,
        decreases bits - i,
    {
        proof {
            lemma_pow2_unfold((i + 1) as nat);
            if i + 1 < 127 {
                lemma_pow2_strictly_increases((i + 1) as nat, 127);
            }
        }
        stride = stride * 2;
        i += 1;
    }
    stride
}

/// How many offsets up to a bound can be selected.
pub fn tap_total(selectable: u128, alignment: u32) -> (taps: u32)
    requires
        selectable <= u32::MAX,
    ensures
        taps == taps_of(selectable, alignment),
{
    let step: u128 = stride(alignment);
    proof {
        lemma_pow2_pos(
            if alignment <= 127 {
                alignment as nat
            } else {
                127
            },
        );
        vstd::arithmetic::div_mod::lemma_div_is_ordered_by_denominator(
            selectable as int,
            1,
            step as int,
        );
    }
    let count: u128 = selectable / step + 1;
    if count <= u32::MAX as u128 {
        count as u32
    } else {
        u32::MAX
    }
}

impl DynamicExtractOperator {
    pub open spec fn of(maximum: u128, available: u32, alignment: u32, width: u32) -> Self {
        let selectable = smaller(maximum, available as u128);
        DynamicExtractOperator {
            maximum,
            selectable,
            aligned: alignment,
            width,
            taps: taps_of(selectable, alignment),
        }
    }

    pub fn new(
        maximum_offset: u128,
        available_offsets: u32,
        alignment: u32,
        offset_width: u32,
    ) -> (operator: Self)
        ensures
            operator == DynamicExtractOperator::of(
                maximum_offset,
                available_offsets,
                alignment,
                offset_width,
            ),
    {
        let available: u128 = available_offsets as u128;
        let selection_max: u128 = if maximum_offset <= available {
            maximum_offset
        } else {
            available
        };
        let tap_count: u32 = tap_total(selection_max, alignment);
        DynamicExtractOperator {
            maximum: maximum_offset,
            selectable: selection_max,
            aligned: alignment,
            width: offset_width,
            taps: tap_count,
        }
    }

    /// Selecting by decoded offsets pays off for few and sparse offsets only.
    pub open spec fn one_hot(self, result_width: u32) -> bool {
        &&& result_width >= ONE_HOT_EXTRACT_MIN_WIDTH
        &&& self.selectable < ONE_HOT_EXTRACT_MAX_OFFSET
        &&& ONE_HOT_EXTRACT_MIN_TAPS <= self.taps <= ONE_HOT_EXTRACT_MAX_TAPS
        &&& self.taps * ONE_HOT_EXTRACT_SPARSITY <= self.selectable + 1
    }

    pub fn supports_one_hot(self, result_width: u32) -> (supported: bool)
        ensures
            supported == self.one_hot(result_width),
    {
        result_width >= ONE_HOT_EXTRACT_MIN_WIDTH && self.selectable < ONE_HOT_EXTRACT_MAX_OFFSET
            && ONE_HOT_EXTRACT_MIN_TAPS <= self.taps && self.taps <= ONE_HOT_EXTRACT_MAX_TAPS
            && (self.taps as u128) * ONE_HOT_EXTRACT_SPARSITY <= self.selectable + 1
    }

    pub fn selection_max(self) -> (maximum: u128)
        ensures
            maximum == self.selectable,
    {
        self.selectable
    }

    pub fn maximum_offset(self) -> (maximum: u128)
        ensures
            maximum == self.maximum,
    {
        self.maximum
    }

    pub fn alignment(self) -> (alignment: u32)
        ensures
            alignment == self.aligned,
    {
        self.aligned
    }

    pub fn offset_width(self) -> (width: u32)
        ensures
            width == self.width,
    {
        self.width
    }

    pub fn tap_count(self) -> (taps: u32)
        ensures
            taps == self.taps,
    {
        self.taps
    }

    /// How many bits of the offset take part in a selection.
    pub open spec fn stages(self) -> int {
        let bits = bit_length(self.selectable as nat);
        let used = if bits <= self.width {
            bits as int
        } else {
            self.width as int
        };
        let low = if self.aligned <= self.width {
            self.aligned as int
        } else {
            self.width as int
        };
        if used >= low {
            used - low
        } else {
            0
        }
    }

    pub fn barrel_stages(self) -> (stages: u32)
        ensures
            stages == self.stages(),
    {
        let bits: u32 = length_of(self.selectable);
        let used: u32 = if bits <= self.width {
            bits
        } else {
            self.width
        };
        let low: u32 = if self.aligned <= self.width {
            self.aligned
        } else {
            self.width
        };
        if used >= low {
            used - low
        } else {
            0
        }
    }
}

/// The offsets that an extraction can select are those that its operand has and that its
/// offset can be, and its taps are the aligned ones among them.
pub proof fn taps_are_the_selectable_offsets(
    maximum: u128,
    available: u32,
    alignment: u32,
    width: u32,
    offset: u128,
    tap: nat,
)
    requires
        alignment <= 127,
    ensures
        ({
            let operator = DynamicExtractOperator::of(maximum, available, alignment, width);
            &&& offset <= operator.selectable <==> offset <= maximum && offset <= available
            &&& operator.taps >= 1
            &&& tap < operator.taps ==> tap * pow2(alignment as nat) <= operator.selectable
            &&& operator.taps < u32::MAX ==> (tap < operator.taps <==> tap * pow2(
                alignment as nat,
            ) <= operator.selectable)
        }),
{
    let operator = DynamicExtractOperator::of(maximum, available, alignment, width);
    let step = pow2(alignment as nat) as int;
    let most = operator.selectable as int;
    lemma_pow2_pos(alignment as nat);
    let count = most / step + 1;
    vstd::arithmetic::div_mod::lemma_fundamental_div_mod(most, step);
    assert(count >= 1) by {
        vstd::arithmetic::div_mod::lemma_div_pos_is_pos(most, step);
    }
    if tap < count {
        assert(tap * step <= most) by (nonlinear_arith)
            requires
                tap <= most / step,
                most == step * (most / step) + most % step,
                most % step >= 0,
                step > 0,
        ;
    } else {
        assert(tap * step > most) by (nonlinear_arith)
            requires
                tap >= most / step + 1,
                most == step * (most / step) + most % step,
                most % step < step,
                step > 0,
        ;
    }
}

/// The stages of a shifter move by every aligned offset that can be selected, and none of
/// them is idle.
pub proof fn barrel_stages_reach_every_offset(operator: DynamicExtractOperator, offset: nat)
    requires
        offset <= operator.selectable,
        offset < pow2(operator.width as nat),
        offset % pow2(operator.aligned as nat) == 0,
        operator.aligned <= operator.width,
    ensures
        offset < pow2((operator.aligned + operator.stages()) as nat),
        operator.stages() > 0 ==> pow2((operator.aligned + operator.stages() - 1) as nat)
            <= operator.selectable,
        operator.aligned + operator.stages() <= operator.width,
{
    let most = operator.selectable as nat;
    let bits = bit_length(most);
    bit_length_is_tight(most);
    let low = operator.aligned as nat;
    if bits < low {
        lemma_pow2_strictly_increases(bits, low);
        vstd::arithmetic::div_mod::lemma_small_mod(offset, pow2(low));
        lemma_pow2_pos(low);
    }
    if operator.stages() > 0 {
        let top = (low + operator.stages() - 1) as nat;
        if top < bits - 1 {
            lemma_pow2_strictly_increases(top, (bits - 1) as nat);
        }
    }
}

/// A recognized operation: where it is in the source and how it is lowered.
///
/// `semantic_width` is the width of the result in the source, and
/// `implementation_width` the number of bits that have to be computed.
#[derive(Clone, Copy, PartialEq, Eq, Debug)]
pub struct SemanticOperator {
    pub number: OperatorId,
    pub class: OperatorKind,
    pub operation: OpId,
    pub left: ValueId,
    pub right: ValueId,
    pub left_type: WordType,
    pub right_type: WordType,
    pub output: ValueId,
    pub constant: Option<u8>,
    pub terms: u32,
    pub negative_terms: u32,
    pub product_terms: u32,
    pub variable_product_terms: u32,
    pub semantic_width: u32,
    pub implementation_width: u32,
    pub signed: bool,
    pub extraction: Option<DynamicExtractOperator>,
}

impl SemanticOperator {
    pub fn id(self) -> (id: OperatorId)
        ensures
            id == self.number,
    {
        self.number
    }

    pub fn kind(self) -> (kind: OperatorKind)
        ensures
            kind == self.class,
    {
        self.class
    }

    pub fn source_operation(self) -> (operation: OpId)
        ensures
            operation == self.operation,
    {
        self.operation
    }

    /// The two primary operands.
    pub fn inputs(self) -> (inputs: [ValueId; 2])
        ensures
            inputs@ == seq![self.left, self.right],
    {
        [self.left, self.right]
    }

    /// The types of the two primary operands.
    pub fn input_types(self) -> (types: [WordType; 2])
        ensures
            types@ == seq![self.left_type, self.right_type],
    {
        [self.left_type, self.right_type]
    }

    pub fn result(self) -> (result: ValueId)
        ensures
            result == self.output,
    {
        self.output
    }

    /// The number of bits that have to be computed.
    pub fn width(self) -> (width: u32)
        ensures
            width == self.implementation_width,
    {
        self.implementation_width
    }

    pub fn semantic_width(self) -> (width: u32)
        ensures
            width == self.semantic_width,
    {
        self.semantic_width
    }

    pub fn term_count(self) -> (count: u32)
        ensures
            count == self.terms,
    {
        self.terms
    }

    pub fn negative_term_count(self) -> (count: u32)
        ensures
            count == self.negative_terms,
    {
        self.negative_terms
    }

    pub fn product_term_count(self) -> (count: u32)
        ensures
            count == self.product_terms,
    {
        self.product_terms
    }

    pub fn variable_product_term_count(self) -> (count: u32)
        ensures
            count == self.variable_product_terms,
    {
        self.variable_product_terms
    }

    pub fn is_signed(self) -> (signed: bool)
        ensures
            signed == self.signed,
    {
        self.signed
    }

    pub fn constant_input(self) -> (input: Option<usize>)
        ensures
            input == (match self.constant {
                Some(index) => Some(index as usize),
                None => None,
            }),
    {
        match self.constant {
            Some(index) => Some(index as usize),
            None => None,
        }
    }

    pub fn dynamic_extract(self) -> (extraction: Option<DynamicExtractOperator>)
        ensures
            extraction == self.extraction,
    {
        self.extraction
    }
}

} // verus!
