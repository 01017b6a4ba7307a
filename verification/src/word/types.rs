use vstd::prelude::*;

verus! {

#[derive(Clone, Copy, PartialEq, Eq, Structural, Debug)]
pub struct ValueId {
    pub raw: u32,
}

#[derive(Clone, Copy, PartialEq, Eq, Structural, Debug)]
pub struct OpId {
    pub raw: u32,
}

#[derive(Clone, Copy, PartialEq, Eq, Structural, Debug)]
pub struct SignalId {
    pub raw: u32,
}

#[derive(Clone, Copy, PartialEq, Eq, Structural, Debug)]
pub struct PortId {
    pub raw: u32,
}

#[derive(Clone, Copy, PartialEq, Eq, Structural, Debug)]
pub struct NameId {
    pub raw: u32,
}

#[derive(Clone, Copy, PartialEq, Eq, Structural, Debug)]
pub struct MemoryId {
    pub raw: u32,
}

impl ValueId {
    pub open spec fn at(self) -> int {
        self.raw as int
    }

    pub fn from_index(index: usize) -> (id: Self)
        requires
            index <= u32::MAX,
        ensures
            id.raw == index,
    {
        ValueId { raw: index as u32 }
    }

    pub fn index(self) -> (index: usize)
        ensures
            index == self.raw,
    {
        self.raw as usize
    }
}

impl OpId {
    pub open spec fn at(self) -> int {
        self.raw as int
    }

    pub fn from_index(index: usize) -> (id: Self)
        requires
            index <= u32::MAX,
        ensures
            id.raw == index,
    {
        OpId { raw: index as u32 }
    }

    pub fn index(self) -> (index: usize)
        ensures
            index == self.raw,
    {
        self.raw as usize
    }
}

impl SignalId {
    pub open spec fn at(self) -> int {
        self.raw as int
    }

    pub fn from_index(index: usize) -> (id: Self)
        requires
            index <= u32::MAX,
        ensures
            id.raw == index,
    {
        SignalId { raw: index as u32 }
    }

    pub fn index(self) -> (index: usize)
        ensures
            index == self.raw,
    {
        self.raw as usize
    }
}

impl PortId {
    pub fn index(self) -> (index: usize)
        ensures
            index == self.raw,
    {
        self.raw as usize
    }
}

/// A place in the source text, by the number of its interned span.
#[derive(Clone, Copy, PartialEq, Eq, Structural, Debug)]
pub struct SourceSpan {
    pub id: u32,
}

impl Default for SourceSpan {
    fn default() -> (span: Self)
        ensures
            span.id == 0,
    {
        SourceSpan { id: 0 }
    }
}

/// Whether a word's bits range over two or four values.
#[derive(Clone, Copy, PartialEq, Eq, Structural, Debug)]
pub enum LogicStateKind {
    TwoState,
    FourState,
}

/// The shape of a word: how many bits it has and how they are read.
#[derive(Clone, Copy, PartialEq, Eq, Structural, Debug)]
pub struct WordType {
    pub width: u32,
    pub signed: bool,
    pub state: LogicStateKind,
}

impl WordType {
    pub open spec fn wf(self) -> bool {
        self.width >= 1
    }

    /// A type of the given shape; a word has at least one bit.
    pub fn new(width: u32, signed: bool, state: LogicStateKind) -> (ty: Option<Self>)
        ensures
            ty == (if width == 0 {
                None
            } else {
                Some(WordType { width, signed, state })
            }),
    {
        if width == 0 {
            None
        } else {
            Some(WordType { width, signed, state })
        }
    }

    /// An unsigned four-state word.
    pub fn bits(width: u32) -> (ty: Option<Self>)
        ensures
            ty == (if width == 0 {
                None
            } else {
                Some(WordType { width, signed: false, state: LogicStateKind::FourState })
            }),
    {
        WordType::new(width, false, LogicStateKind::FourState)
    }

    pub fn width(&self) -> (width: u32)
        ensures
            width == self.width,
    {
        self.width
    }

    pub fn is_signed(&self) -> (signed: bool)
        ensures
            signed == self.signed,
    {
        self.signed
    }
}

/// One bit of a four-state constant.
#[derive(Clone, Copy, PartialEq, Eq, Structural, Debug)]
pub enum BitVal {
    Zero,
    One,
    X,
    Z,
}

impl BitVal {
    pub open spec fn known(self) -> bool {
        self is Zero || self is One
    }

    pub fn is_known(self) -> (known: bool)
        ensures
            known == self.known(),
    {
        match self {
            BitVal::Zero | BitVal::One => true,
            BitVal::X | BitVal::Z => false,
        }
    }
}

/// A constant word, most significant bit first.
#[derive(Debug)]
pub struct ConstBits {
    pub bits: Vec<BitVal>,
}

impl View for ConstBits {
    type V = Seq<BitVal>;

    open spec fn view(&self) -> Seq<BitVal> {
        self.bits@
    }
}

/// The bit of weight two to the power `bit` of a constant written most
/// significant bit first.
pub open spec fn bit_lsb(bits: Seq<BitVal>, bit: int) -> BitVal {
    bits[bits.len() - 1 - bit]
}

impl ConstBits {
    /// A constant of the given bits, most significant bit first. A constant
    /// has between one and `u32::MAX` bits.
    pub fn from_bits(bits: Vec<BitVal>) -> (constant: Option<Self>)
        ensures
            constant is Some <==> 1 <= bits@.len() <= u32::MAX,
            constant matches Some(c) ==> c@ == bits@,
    {
        if bits.len() == 0 || bits.len() > u32::MAX as usize {
            None
        } else {
            Some(ConstBits { bits })
        }
    }

    pub fn width(&self) -> (width: u32)
        requires
            self@.len() <= u32::MAX,
        ensures
            width == self@.len(),
    {
        self.bits.len() as u32
    }

    /// The bit of weight two to the power `bit`.
    pub fn bit_lsb(&self, bit: u32) -> (value: Option<BitVal>)
        ensures
            value == (if bit < self@.len() {
                Some(bit_lsb(self@, bit as int))
            } else {
                None
            }),
    {
        if (bit as usize) < self.bits.len() {
            Some(self.bits[self.bits.len() - 1 - bit as usize])
        } else {
            None
        }
    }

    pub fn duplicate(&self) -> (copy: Self)
        ensures
            copy@ == self@,
    {
        ConstBits { bits: copy_bits(&self.bits) }
    }

    /// Whether two constants hold the same bits.
    pub fn same(&self, other: &ConstBits) -> (same: bool)
        ensures
            same == (self@ == other@),
    {
        if self.bits.len() != other.bits.len() {
            return false;
        }
        let mut index: usize = 0;
        while index < self.bits.len()
            invariant
                index <= self.bits.len(),
                self.bits.len() == other.bits.len(),
                forall|i: int| 0 <= i < index ==> self.bits@[i] == other.bits@[i],
            decreases self.bits.len() - index,
        {
            if self.bits[index] != other.bits[index] {
                return false;
            }
            index += 1;
        }
        assert(self@ =~= other@);
        true
    }
}

pub fn copy_bits(bits: &Vec<BitVal>) -> (copy: Vec<BitVal>)
    ensures
        copy@ == bits@,
{
    let mut copy: Vec<BitVal> = Vec::new();
    let mut index: usize = 0;
    while index < bits.len()
        invariant
            index <= bits.len(),
            copy@ =~= bits@.take(index as int),
        decreases bits.len() - index,
    {
        copy.push(bits[index]);
        index += 1;
    }
    copy
}

pub fn copy_values(values: &Vec<ValueId>) -> (copy: Vec<ValueId>)
    ensures
        copy@ == values@,
{
    let mut copy: Vec<ValueId> = Vec::new();
    let mut index: usize = 0;
    while index < values.len()
        invariant
            index <= values.len(),
            copy@ =~= values@.take(index as int),
        decreases values.len() - index,
    {
        copy.push(values[index]);
        index += 1;
    }
    copy
}

#[derive(Clone, Copy, PartialEq, Eq, Structural, Debug)]
pub enum UnaryOp {
    BitNot,
    LogicalNot,
    ReductionAnd,
    ReductionOr,
    ReductionXor,
}

#[derive(Clone, Copy, PartialEq, Eq, Structural, Debug)]
pub enum BinaryOp {
    Add,
    Sub,
    Mul,
    Div,
    Mod,
    BitAnd,
    BitOr,
    BitXor,
    LogicalAnd,
    LogicalOr,
    Eq,
    Ne,
    Lt,
    Le,
    Gt,
    Ge,
    Shl,
    Shr,
    Ashr,
}

#[derive(Clone, Copy, PartialEq, Eq, Structural, Debug)]
pub enum CastKind {
    Truncate,
    ZeroExtend,
    SignExtend,
}

#[derive(Clone, Copy, PartialEq, Eq, Structural, Debug)]
pub enum Edge {
    Pos,
    Neg,
}

#[derive(Clone, Copy, PartialEq, Eq, Structural, Debug)]
pub enum ResetKind {
    Sync,
    Async,
}

#[derive(Clone, Copy, PartialEq, Eq, Structural, Debug)]
pub struct Enable {
    pub value: ValueId,
    pub active_high: bool,
}

#[derive(Clone, Copy, PartialEq, Eq, Structural, Debug)]
pub struct Reset {
    pub kind: ResetKind,
    pub value: ValueId,
    pub active_high: bool,
    pub reset_value: ValueId,
}

#[derive(Debug)]
pub struct RegisterOp {
    pub name: Option<NameId>,
    pub d: ValueId,
    pub clock: ValueId,
    pub edge: Edge,
    pub enable: Option<Enable>,
    pub resets: Vec<Reset>,
}

#[derive(Debug)]
pub struct LatchOp {
    pub name: Option<NameId>,
    pub d: ValueId,
    pub enable: Enable,
    pub resets: Vec<Reset>,
}

/// An operation of the module. Operands are named by value; the parts of a
/// concatenation are listed most significant first.
#[derive(Debug)]
#[allow(inconsistent_fields)]
pub enum OpKind {
    Unary { op: UnaryOp, arg: ValueId },
    Binary { op: BinaryOp, left: ValueId, right: ValueId },
    Mux { cond: ValueId, then_value: ValueId, else_value: ValueId },
    Concat { parts: Vec<ValueId> },
    Extract { value: ValueId, lsb: u32, width: u32 },
    DynamicExtract { value: ValueId, offset: ValueId, width: u32 },
    DynamicInsert { value: ValueId, offset: ValueId, replacement: ValueId },
    TriState { data: ValueId, enable: Enable },
    Cast { kind: CastKind, value: ValueId, target: WordType },
    Register(RegisterOp),
    Latch(LatchOp),
}

#[verifier::ext_equal]
pub struct RegisterView {
    pub name: Option<NameId>,
    pub d: ValueId,
    pub clock: ValueId,
    pub edge: Edge,
    pub enable: Option<Enable>,
    pub resets: Seq<Reset>,
}

#[verifier::ext_equal]
pub struct LatchView {
    pub name: Option<NameId>,
    pub d: ValueId,
    pub enable: Enable,
    pub resets: Seq<Reset>,
}

#[verifier::ext_equal]
#[allow(inconsistent_fields)]
pub enum OpView {
    Unary { op: UnaryOp, arg: ValueId },
    Binary { op: BinaryOp, left: ValueId, right: ValueId },
    Mux { cond: ValueId, then_value: ValueId, else_value: ValueId },
    Concat { parts: Seq<ValueId> },
    Extract { value: ValueId, lsb: u32, width: u32 },
    DynamicExtract { value: ValueId, offset: ValueId, width: u32 },
    DynamicInsert { value: ValueId, offset: ValueId, replacement: ValueId },
    TriState { data: ValueId, enable: Enable },
    Cast { kind: CastKind, value: ValueId, target: WordType },
    Register(RegisterView),
    Latch(LatchView),
}

impl View for RegisterOp {
    type V = RegisterView;

    open spec fn view(&self) -> RegisterView {
        RegisterView {
            name: self.name,
            d: self.d,
            clock: self.clock,
            edge: self.edge,
            enable: self.enable,
            resets: self.resets@,
        }
    }
}

impl View for LatchOp {
    type V = LatchView;

    open spec fn view(&self) -> LatchView {
        LatchView { name: self.name, d: self.d, enable: self.enable, resets: self.resets@ }
    }
}

impl View for OpKind {
    type V = OpView;

    open spec fn view(&self) -> OpView {
        match *self {
            OpKind::Unary { op, arg } => OpView::Unary { op, arg },
            OpKind::Binary { op, left, right } => OpView::Binary { op, left, right },
            OpKind::Mux { cond, then_value, else_value } => OpView::Mux {
                cond,
                then_value,
                else_value,
            },
            OpKind::Concat { parts } => OpView::Concat { parts: parts@ },
            OpKind::Extract { value, lsb, width } => OpView::Extract { value, lsb, width },
            OpKind::DynamicExtract { value, offset, width } => OpView::DynamicExtract {
                value,
                offset,
                width,
            },
            OpKind::DynamicInsert { value, offset, replacement } => OpView::DynamicInsert {
                value,
                offset,
                replacement,
            },
            OpKind::TriState { data, enable } => OpView::TriState { data, enable },
            OpKind::Cast { kind, value, target } => OpView::Cast { kind, value, target },
            OpKind::Register(register) => OpView::Register(register@),
            OpKind::Latch(latch) => OpView::Latch(latch@),
        }
    }
}

pub fn copy_resets(resets: &Vec<Reset>) -> (copy: Vec<Reset>)
    ensures
        copy@ == resets@,
{
    let mut copy: Vec<Reset> = Vec::new();
    let mut index: usize = 0;
    while index < resets.len()
        invariant
            index <= resets.len(),
            copy@ =~= resets@.take(index as int),
        decreases resets.len() - index,
    {
        copy.push(resets[index]);
        index += 1;
    }
    copy
}

impl RegisterOp {
    pub fn duplicate(&self) -> (copy: Self)
        ensures
            copy@ == self@,
    {
        RegisterOp {
            name: self.name,
            d: self.d,
            clock: self.clock,
            edge: self.edge,
            enable: self.enable,
            resets: copy_resets(&self.resets),
        }
    }
}

impl LatchOp {
    pub fn duplicate(&self) -> (copy: Self)
        ensures
            copy@ == self@,
    {
        LatchOp {
            name: self.name,
            d: self.d,
            enable: self.enable,
            resets: copy_resets(&self.resets),
        }
    }
}

impl OpKind {
    pub fn duplicate(&self) -> (copy: Self)
        ensures
            copy@ == self@,
    {
        match self {
            OpKind::Unary { op, arg } => OpKind::Unary { op: *op, arg: *arg },
            OpKind::Binary { op, left, right } => OpKind::Binary {
                op: *op,
                left: *left,
                right: *right,
            },
            OpKind::Mux { cond, then_value, else_value } => OpKind::Mux {
                cond: *cond,
                then_value: *then_value,
                else_value: *else_value,
            },
            OpKind::Concat { parts } => OpKind::Concat { parts: copy_values(parts) },
            OpKind::Extract { value, lsb, width } => OpKind::Extract {
                value: *value,
                lsb: *lsb,
                width: *width,
            },
            OpKind::DynamicExtract { value, offset, width } => OpKind::DynamicExtract {
                value: *value,
                offset: *offset,
                width: *width,
            },
            OpKind::DynamicInsert { value, offset, replacement } => OpKind::DynamicInsert {
                value: *value,
                offset: *offset,
                replacement: *replacement,
            },
            OpKind::TriState { data, enable } => OpKind::TriState {
                data: *data,
                enable: *enable,
            },
            OpKind::Cast { kind, value, target } => OpKind::Cast {
                kind: *kind,
                value: *value,
                target: *target,
            },
            OpKind::Register(register) => OpKind::Register(register.duplicate()),
            OpKind::Latch(latch) => OpKind::Latch(latch.duplicate()),
        }
    }
}

/// The values that an operation reads, in operand order.
pub open spec fn op_inputs(kind: OpView) -> Seq<ValueId> {
    match kind {
        OpView::Unary { op, arg } => seq![arg],
        OpView::Binary { op, left, right } => seq![left, right],
        OpView::Mux { cond, then_value, else_value } => seq![cond, then_value, else_value],
        OpView::Concat { parts } => parts,
        OpView::Extract { value, lsb, width } => seq![value],
        OpView::DynamicExtract { value, offset, width } => seq![value, offset],
        OpView::DynamicInsert { value, offset, replacement } => seq![value, offset, replacement],
        OpView::TriState { data, enable } => seq![data, enable.value],
        OpView::Cast { kind, value, target } => seq![value],
        OpView::Register(register) => seq![register.d, register.clock] + enable_inputs(
            register.enable,
        ) + reset_inputs(register.resets),
        OpView::Latch(latch) => seq![latch.d, latch.enable.value] + reset_inputs(latch.resets),
    }
}

pub open spec fn enable_inputs(enable: Option<Enable>) -> Seq<ValueId> {
    match enable {
        Some(e) => seq![e.value],
        None => seq![],
    }
}

/// Each reset contributes its control and then its value.
pub open spec fn reset_inputs(resets: Seq<Reset>) -> Seq<ValueId>
    decreases resets.len(),
{
    if resets.len() == 0 {
        seq![]
    } else {
        reset_inputs(resets.drop_last()) + seq![resets.last().value, resets.last().reset_value]
    }
}

fn push_reset_inputs(inputs: &mut Vec<ValueId>, resets: &Vec<Reset>)
    ensures
        final(inputs)@ == old(inputs)@ + reset_inputs(resets@),
{
    let ghost before = inputs@;
    let mut index: usize = 0;
    proof {
        assert(before + reset_inputs(resets@.take(0)) =~= before);
    }
    while index < resets.len()
        invariant
            index <= resets.len(),
            inputs@ == before + reset_inputs(resets@.take(index as int)),
        decreases resets.len() - index,
    {
        proof {
            assert(resets@.take(index + 1).drop_last() =~= resets@.take(index as int));
        }
        inputs.push(resets[index].value);
        inputs.push(resets[index].reset_value);
        index += 1;
        assert(inputs@ =~= before + reset_inputs(resets@.take(index as int)));
    }
    assert(resets@.take(index as int) =~= resets@);
}

/// Lists the values that an operation reads.
pub fn operation_inputs(kind: &OpKind) -> (inputs: Vec<ValueId>)
    ensures
        inputs@ == op_inputs(kind@),
{
    let mut inputs: Vec<ValueId> = Vec::new();
    match kind {
        OpKind::Unary { op: _, arg } => {
            inputs.push(*arg);
        },
        OpKind::Binary { op: _, left, right } => {
            inputs.push(*left);
            inputs.push(*right);
        },
        OpKind::Mux { cond, then_value, else_value } => {
            inputs.push(*cond);
            inputs.push(*then_value);
            inputs.push(*else_value);
        },
        OpKind::Concat { parts } => {
            inputs = copy_values(parts);
        },
        OpKind::Extract { value, .. } => {
            inputs.push(*value);
        },
        OpKind::DynamicExtract { value, offset, .. } => {
            inputs.push(*value);
            inputs.push(*offset);
        },
        OpKind::DynamicInsert { value, offset, replacement } => {
            inputs.push(*value);
            inputs.push(*offset);
            inputs.push(*replacement);
        },
        OpKind::TriState { data, enable } => {
            inputs.push(*data);
            inputs.push(enable.value);
        },
        OpKind::Cast { value, .. } => {
            inputs.push(*value);
        },
        OpKind::Register(register) => {
            inputs.push(register.d);
            inputs.push(register.clock);
            if let Some(enable) = register.enable {
                inputs.push(enable.value);
            }
            assert(inputs@ =~= seq![register.d, register.clock] + enable_inputs(register.enable));
            push_reset_inputs(&mut inputs, &register.resets);
        },
        OpKind::Latch(latch) => {
            inputs.push(latch.d);
            inputs.push(latch.enable.value);
            assert(inputs@ =~= seq![latch.d, latch.enable.value]);
            push_reset_inputs(&mut inputs, &latch.resets);
        },
    }
    assert(inputs@ =~= op_inputs(kind@));
    inputs
}

/// An operation whose result is a stored state rather than a function of the
/// present inputs.
pub open spec fn is_state(kind: OpView) -> bool {
    kind is Register || kind is Latch
}

} // verus!
