//! Sums of several terms that are implemented as one.

use crate::collections::IdSet;
use crate::planning::architecture::ArithmeticTerm;
use crate::word::module::{KindView, ModuleView, ValueKind, WordModule};
use crate::word::types::{
    op_inputs, operation_inputs, BinaryOp, CastKind, OpKind, OpView, ValueId, WordType,
};
use vstd::prelude::*;

verus! {

/// What the recognition of operators goes by: how often each value is used,
/// which values are observed on their own, and whether sums are fused.
pub struct Sight {
    pub uses: Seq<u32>,
    pub observed: Seq<ValueId>,
    pub fuse: bool,
}

pub open spec fn is_additive(kind: OpView) -> bool {
    kind matches OpView::Binary { op, .. } && (op is Add || op is Sub)
}

pub open spec fn is_multiply(kind: OpView) -> bool {
    kind matches OpView::Binary { op, .. } && op is Mul
}

/// A value is an operand of an operation.
pub open spec fn reads_value(module: ModuleView, operation: int, value: ValueId) -> bool {
    op_inputs(module.operations[operation].kind).contains(value)
}

/// The operation that alone uses a value, among the first ones.
pub open spec fn consumer(module: ModuleView, uses: Seq<u32>, value: ValueId, count: nat) -> Option<int>
    decreases count,
{
    if count == 0 {
        None
    } else if uses[value.raw as int] == 1 && reads_value(module, count - 1, value) {
        Some(count - 1)
    } else {
        consumer(module, uses, value, (count - 1) as nat)
    }
}

/// The sum that a sum is a term of, if it is nothing else.
pub open spec fn absorbed_by(module: ModuleView, sight: Sight, child: int) -> Option<int> {
    let operation = module.operations[child];
    if !is_additive(operation.kind) || sight.observed.contains(operation.result) {
        None
    } else {
        match consumer(module, sight.uses, operation.result, module.operations.len()) {
            Some(parent) => if is_additive(module.operations[parent].kind) && module.ty(
                operation.result,
            ).width == module.ty(module.operations[parent].result).width {
                Some(parent)
            } else {
                None
            },
            None => None,
        }
    }
}

/// A factor before it was widened, and how it is to be widened.
pub open spec fn normalized(module: ModuleView, input: ValueId) -> (ValueId, WordType) {
    match module.op_of(input) {
        Some(OpView::Cast { kind, value, target }) => if target.width > module.ty(value).width
            && !(kind is Truncate) {
            (value, WordType { signed: kind is SignExtend, ..module.ty(value) })
        } else {
            (input, module.ty(input))
        },
        _ => (input, module.ty(input)),
    }
}

/// A constant of known bits, or one that was cast.
pub open spec fn is_defined(module: ModuleView, value: ValueId) -> bool
    decreases value.raw,
{
    match module.kind(value) {
        KindView::Constant(bits) => forall|i: int|
            0 <= i < bits.len() ==> (#[trigger] bits[i]).known(),
        KindView::Operation(operation) => match module.operations[operation.raw as int].kind {
            OpView::Cast { kind, value: inner, target } => inner.raw < value.raw && is_defined(
                module,
                inner,
            ),
            _ => false,
        },
        KindView::Signal(_) => false,
    }
}

/// Which of two operands is a constant.
pub open spec fn constant_place(module: ModuleView, left: ValueId, right: ValueId) -> Option<u8> {
    if is_defined(module, left) {
        Some(0)
    } else if is_defined(module, right) {
        Some(1)
    } else {
        None
    }
}

/// The operation that defines a value.
pub open spec fn child_of(module: ModuleView, value: ValueId) -> Option<int> {
    match module.kind(value) {
        KindView::Operation(operation) => Some(operation.raw as int),
        _ => None,
    }
}

/// A product that is used in one sum of its width only.
pub open spec fn is_product_of(module: ModuleView, sight: Sight, value: ValueId, parent: int) -> bool {
    &&& child_of(module, value) matches Some(child) && is_multiply(module.operations[child].kind)
    &&& sight.uses[value.raw as int] == 1
    &&& !sight.observed.contains(value)
    &&& module.ty(value).width == module.ty(module.operations[parent].result).width
}

pub open spec fn term_type(module: ModuleView, value: ValueId, parent: int) -> WordType {
    WordType {
        signed: module.ty(value).signed && module.ty(module.operations[parent].result).signed,
        ..module.ty(value)
    }
}

/// A term that is not taken apart.
pub open spec fn plain_term(
    module: ModuleView,
    sight: Sight,
    value: ValueId,
    negative: bool,
    parent: int,
) -> ArithmeticTerm {
    let ty = term_type(module, value, parent);
    if is_product_of(module, sight, value, parent) {
        let kind = module.operations[child_of(module, value)->0].kind;
        let (left, left_type) = normalized(module, kind->left);
        let (right, right_type) = normalized(module, kind->right);
        ArithmeticTerm::Product {
            left,
            right,
            left_type,
            right_type,
            ty,
            negative,
            constant_input: constant_place(module, left, right),
        }
    } else {
        ArithmeticTerm::Value { value, ty, negative }
    }
}

/// Terms and the operations that make them up.
#[verifier::ext_equal]
pub struct RegionView {
    pub terms: Seq<ArithmeticTerm>,
    pub operations: Seq<int>,
}

pub open spec fn joined(left: RegionView, right: RegionView) -> RegionView {
    RegionView {
        terms: left.terms + right.terms,
        operations: left.operations + right.operations,
    }
}

/// Whether a value is a sum that its parent absorbs.
pub open spec fn opens(module: ModuleView, sight: Sight, value: ValueId, parent: int) -> bool {
    child_of(module, value) matches Some(child) && absorbed_by(module, sight, child) == Some(parent)
}

/// The terms that an operand stands for.
pub open spec fn expanded(
    module: ModuleView,
    sight: Sight,
    value: ValueId,
    negative: bool,
    parent: int,
) -> RegionView
    decreases value.raw,
{
    if opens(module, sight, value, parent) {
        let child = child_of(module, value)->0;
        match module.operations[child].kind {
            OpView::Binary { op, left, right } => if left.raw < value.raw && right.raw < value.raw {
                let l = expanded(module, sight, left, negative, child);
                let r = expanded(module, sight, right, negative != (op is Sub), child);
                RegionView {
                    terms: l.terms + r.terms,
                    operations: seq![child] + l.operations + r.operations,
                }
            } else {
                RegionView { terms: seq![], operations: seq![child] }
            },
            _ => RegionView { terms: seq![], operations: seq![child] },
        }
    } else {
        RegionView {
            terms: seq![plain_term(module, sight, value, negative, parent)],
            operations: if is_product_of(module, sight, value, parent) {
                seq![child_of(module, value)->0]
            } else {
                seq![]
            },
        }
    }
}

/// The region of a sum.
pub open spec fn region_of(module: ModuleView, sight: Sight, root: int) -> RegionView {
    let kind = module.operations[root].kind;
    let l = expanded(module, sight, kind->left, false, root);
    let r = expanded(module, sight, kind->right, kind->Binary_op is Sub, root);
    RegionView {
        terms: l.terms + r.terms,
        operations: seq![root] + l.operations + r.operations,
    }
}

pub open spec fn has_product(terms: Seq<ArithmeticTerm>) -> bool {
    exists|i: int| 0 <= i < terms.len() && (#[trigger] terms[i]) is Product
}

/// A sum that is nobody's term and is worth fusing.
pub open spec fn is_root(module: ModuleView, sight: Sight, root: int) -> bool {
    &&& sight.fuse
    &&& is_additive(module.operations[root].kind)
    &&& absorbed_by(module, sight, root) is None
    &&& region_of(module, sight, root).terms.len() >= 3 || has_product(
        region_of(module, sight, root).terms,
    )
}

/// An operation that a region of another one covers.
pub open spec fn covers(module: ModuleView, sight: Sight, root: int, operation: int) -> bool {
    &&& 0 <= root < module.operations.len()
    &&& is_root(module, sight, root)
    &&& root != operation
    &&& region_of(module, sight, root).operations.contains(operation)
}

pub open spec fn is_absorbed(module: ModuleView, sight: Sight, operation: int) -> bool {
    exists|root: int| #[trigger] covers(module, sight, root, operation)
}

/// The numbers below a bound that occur in a list, in ascending order.
pub open spec fn ascending(list: Seq<int>, bound: nat) -> Seq<int>
    decreases bound,
{
    if bound == 0 {
        seq![]
    } else if list.contains(bound - 1) {
        ascending(list, (bound - 1) as nat).push(bound - 1)
    } else {
        ascending(list, (bound - 1) as nat)
    }
}

/// A region: its terms and its operations in ascending order.
pub struct AdditiveRegion {
    pub terms: Vec<ArithmeticTerm>,
    pub operations: Vec<usize>,
}

pub open spec fn indices(list: Seq<usize>) -> Seq<int> {
    list.map_values(|i: usize| i as int)
}

/// The regions of a module: that of each root, and what they absorb.
pub struct AdditiveRegions {
    pub by_root: Vec<Option<AdditiveRegion>>,
    pub absorbed: IdSet,
}

impl AdditiveRegions {
    pub open spec fn describes(&self, module: ModuleView, sight: Sight) -> bool {
        &&& self.by_root@.len() == module.operations.len()
        &&& forall|i: int|
            0 <= i < self.by_root@.len() ==> region_described(
                module,
                sight,
                i,
                #[trigger] self.by_root@[i],
            )
        &&& forall|i: u64|
            i < module.operations.len() ==> #[trigger] self.absorbed@.contains(i) == is_absorbed(
                module,
                sight,
                i as int,
            )
    }
}

pub open spec fn region_described(
    module: ModuleView,
    sight: Sight,
    root: int,
    region: Option<AdditiveRegion>,
) -> bool {
    match region {
        Some(found) => {
            &&& is_root(module, sight, root)
            &&& found.terms@ == region_of(module, sight, root).terms
            &&& indices(found.operations@) == ascending(
                region_of(module, sight, root).operations,
                module.operations.len(),
            )
        },
        None => !is_root(module, sight, root),
    }
}

/// The executable side of a sight.
pub struct SightArguments<'a> {
    pub uses: &'a Vec<u32>,
    pub observed: &'a Vec<ValueId>,
    pub fuse: bool,
}

impl<'a> SightArguments<'a> {
    pub open spec fn view(&self) -> Sight {
        Sight { uses: self.uses@, observed: self.observed@, fuse: self.fuse }
    }
}

fn kind_is_additive(kind: &OpKind) -> (additive: bool)
    ensures
        additive == is_additive(kind@),
{
    match kind {
        OpKind::Binary { op, .. } => match op {
            BinaryOp::Add | BinaryOp::Sub => true,
            _ => false,
        },
        _ => false,
    }
}

fn list_contains(list: &Vec<ValueId>, value: ValueId) -> (found: bool)
    ensures
        found == list@.contains(value),
{
    let mut i: usize = 0;
    while i < list.len()
        invariant
            i <= list@.len(),
            forall|k: int| 0 <= k < i ==> #[trigger] list@[k] != value,
        decreases list.len() - i,
    {
        if list[i] == value {
            assert(list@[i as int] == value);
            return true;
        }
        i += 1;
    }
    false
}

/// The operation that alone uses each value.
fn find_consumers(module: &WordModule, uses: &Vec<u32>) -> (consumers: Vec<Option<usize>>)
    requires
        module@.wf(),
        uses@.len() == module@.values.len(),
    ensures
        consumers@.len() == module@.values.len(),
        forall|v: ValueId|
            module@.has(v) ==> option_index(#[trigger] consumers@[v.raw as int]) == consumer(
                module@,
                uses@,
                v,
                module@.operations.len(),
            ),
{
    let ghost view = module@;
    let mut consumers: Vec<Option<usize>> = Vec::new();
    consumers.resize(module.values.len(), None);
    let mut o: usize = 0;
    while o < module.operations.len()
        invariant
            view == module@,
            view.wf(),
            uses@.len() == view.values.len(),
            consumers@.len() == view.values.len(),
            o <= view.operations.len(),
            forall|v: ValueId|
                view.has(v) ==> option_index(#[trigger] consumers@[v.raw as int]) == consumer(
                    view,
                    uses@,
                    v,
                    o as nat,
                ),
        decreases module.operations.len() - o,
    {
        let ghost outer = consumers@;
        assert(view.operations[o as int] == module.operations@[o as int]@);
        assert(view.operation_ok(o as int));
        let inputs = operation_inputs(&module.operations[o].kind);
        let mut k: usize = 0;
        while k < inputs.len()
            invariant
                view == module@,
                view.wf(),
                uses@.len() == view.values.len(),
                consumers@.len() == view.values.len(),
                outer.len() == view.values.len(),
                o < view.operations.len(),
                inputs@ == op_inputs(view.operations[o as int].kind),
                forall|j: int| 0 <= j < inputs@.len() ==> view.has(#[trigger] inputs@[j]),
                k <= inputs@.len(),
                forall|v: ValueId|
                    view.has(v) ==> #[trigger] consumers@[v.raw as int] == (if uses@[v.raw as int]
                        == 1 && inputs@.take(k as int).contains(v) {
                        Some(o)
                    } else {
                        outer[v.raw as int]
                    }),
            decreases inputs.len() - k,
        {
            let ghost before = consumers@;
            let input = inputs[k];
            assert(view.has(inputs@[k as int]));
            let ghost shorter = inputs@.take(k as int);
            let ghost longer = inputs@.take(k + 1);
            if uses[input.raw as usize] == 1 {
                consumers.set(input.raw as usize, Some(o));
            }
            proof {
                assert(longer =~= shorter.push(input));
                assert forall|v: ValueId| view.has(v) implies #[trigger] consumers@[v.raw as int]
                    == (if uses@[v.raw as int] == 1 && longer.contains(v) {
                    Some(o)
                } else {
                    outer[v.raw as int]
                }) by {
                    assert(before[v.raw as int] == (if uses@[v.raw as int] == 1
                        && shorter.contains(v) {
                        Some(o)
                    } else {
                        outer[v.raw as int]
                    }));
                    if shorter.contains(v) {
                        let j = choose|j: int| 0 <= j < shorter.len() && shorter[j] == v;
                        assert(longer[j] == v);
                    }
                    if longer.contains(v) && v != input {
                        let j = choose|j: int| 0 <= j < longer.len() && longer[j] == v;
                        assert(shorter[j] == v);
                    }
                    if v == input {
                        assert(longer[k as int] == v);
                    }
                }
            }
            k += 1;
        }
        assert(inputs@.take(k as int) =~= inputs@);
        o += 1;
    }
    consumers
}

pub open spec fn option_index(place: Option<usize>) -> Option<int> {
    match place {
        Some(i) => Some(i as int),
        None => None,
    }
}

/// The sum that each sum is absorbed by.
fn find_absorbers(module: &WordModule, sight: &SightArguments) -> (parents: Vec<Option<usize>>)
    requires
        module@.wf(),
        sight.uses@.len() == module@.values.len(),
    ensures
        parents@.len() == module@.operations.len(),
        forall|i: int|
            0 <= i < parents@.len() ==> option_index(#[trigger] parents@[i]) == absorbed_by(
                module@,
                sight@,
                i,
            ),
{
    let ghost view = module@;
    let consumers = find_consumers(module, sight.uses);
    let mut parents: Vec<Option<usize>> = Vec::new();
    let mut i: usize = 0;
    while i < module.operations.len()
        invariant
            view == module@,
            view.wf(),
            sight.uses@.len() == view.values.len(),
            consumers@.len() == view.values.len(),
            forall|v: ValueId|
                view.has(v) ==> option_index(#[trigger] consumers@[v.raw as int]) == consumer(
                    view,
                    sight.uses@,
                    v,
                    view.operations.len(),
                ),
            i <= view.operations.len(),
            parents@.len() == i,
            forall|k: int|
                0 <= k < i ==> option_index(#[trigger] parents@[k]) == absorbed_by(
                    view,
                    sight@,
                    k,
                ),
        decreases module.operations.len() - i,
    {
        let operation = &module.operations[i];
        assert(operation@ == view.operations[i as int]);
        assert(view.operation_ok(i as int));
        let result = operation.result;
        let mut parent: Option<usize> = None;
        if kind_is_additive(&operation.kind) && !list_contains(sight.observed, result) {
            assert(option_index(consumers@[result.raw as int]) == consumer(
                view,
                sight.uses@,
                result,
                view.operations.len(),
            ));
            if let Some(user) = consumers[result.raw as usize] {
                proof {
                    lemma_consumer(view, sight.uses@, result, view.operations.len());
                }
                let above = &module.operations[user];
                assert(above@ == view.operations[user as int]);
                assert(view.operation_ok(user as int));
                assert(view.values[result.raw as int] == module.values@[result.raw as int]@);
                assert(view.values[above.result.raw as int]
                    == module.values@[above.result.raw as int]@);
                if kind_is_additive(&above.kind) && module.values[result.raw as usize].ty.width
                    == module.values[above.result.raw as usize].ty.width {
                    parent = Some(user);
                }
            }
        }
        parents.push(parent);
        i += 1;
    }
    parents
}

proof fn lemma_consumer(module: ModuleView, uses: Seq<u32>, value: ValueId, count: nat)
    ensures
        consumer(module, uses, value, count) matches Some(parent) ==> 0 <= parent < count
            && uses[value.raw as int] == 1 && reads_value(module, parent, value),
    decreases count,
{
    if count > 0 {
        lemma_consumer(module, uses, value, (count - 1) as nat);
    }
}

/// A factor before it was widened.
pub fn normalize_multiply_input(module: &WordModule, input: ValueId) -> (factor: (ValueId, WordType))
    requires
        module@.wf(),
        module@.has(input),
    ensures
        factor == normalized(module@, input),
        module@.has(factor.0),
{
    assert(module@.value_ok(input.raw as int));
    let stored = &module.values[input.raw as usize];
    assert(stored@ == module@.values[input.raw as int]);
    match &stored.kind {
        ValueKind::Operation(operation) => {
            let place: usize = operation.raw as usize;
            let kind = &module.operations[place].kind;
            assert(kind@ == module@.operations[place as int].kind);
            assert(module@.operation_ok(place as int));
            match kind {
                OpKind::Cast { kind: cast, value, target } => {
                    assert(op_inputs(kind@)[0] == *value);
                    assert(module@.values[value.raw as int] == module.values@[value.raw as int]@);
                    let source = module.values[value.raw as usize].ty;
                    if target.width <= source.width {
                        return (input, stored.ty);
                    }
                    let signed = match cast {
                        CastKind::SignExtend => true,
                        CastKind::ZeroExtend => false,
                        CastKind::Truncate => return (input, stored.ty),
                    };
                    (*value, WordType { width: source.width, signed, state: source.state })
                },
                _ => (input, stored.ty),
            }
        },
        _ => (input, stored.ty),
    }
}

/// Whether a value is a constant of known bits, or one that was cast.
pub fn is_defined_constant(module: &WordModule, value: ValueId) -> (defined: bool)
    requires
        module@.wf(),
        module@.has(value),
    ensures
        defined == is_defined(module@, value),
    decreases value.raw,
{
    assert(module@.value_ok(value.raw as int));
    let stored = &module.values[value.raw as usize];
    assert(stored@ == module@.values[value.raw as int]);
    match &stored.kind {
        ValueKind::Constant(bits) => {
            let mut all = true;
            let mut i: usize = 0;
            while i < bits.bits.len()
                invariant
                    i <= bits@.len(),
                    all == (forall|k: int| 0 <= k < i ==> (#[trigger] bits@[k]).known()),
                decreases bits.bits.len() - i,
            {
                assert(all && bits@[i as int].known() ==> forall|k: int|
                    0 <= k < i + 1 ==> (#[trigger] bits@[k]).known());
                all = all && bits.bits[i].is_known();
                i += 1;
            }
            all
        },
        ValueKind::Operation(operation) => {
            let place: usize = operation.raw as usize;
            let kind = &module.operations[place].kind;
            assert(kind@ == module@.operations[place as int].kind);
            assert(module@.operation_ok(place as int));
            match kind {
                OpKind::Cast { value: inner, .. } => {
                    assert(op_inputs(kind@)[0] == *inner);
                    is_defined_constant(module, *inner)
                },
                _ => false,
            }
        },
        ValueKind::Signal(_) => false,
    }
}

/// Which of two operands is a constant.
pub fn find_constant_place(module: &WordModule, left: ValueId, right: ValueId) -> (place: Option<u8>)
    requires
        module@.wf(),
        module@.has(left),
        module@.has(right),
    ensures
        place == constant_place(module@, left, right),
{
    if is_defined_constant(module, left) {
        Some(0)
    } else if is_defined_constant(module, right) {
        Some(1)
    } else {
        None
    }
}


/// An operand that is still to be expanded.
#[derive(Clone, Copy, PartialEq, Eq, Structural, Debug)]
struct PendingOperand {
    value: ValueId,
    negative: bool,
    parent: usize,
}

/// What a stack of operands stands for, the top first.
spec fn stacked(module: ModuleView, sight: Sight, pending: Seq<PendingOperand>) -> RegionView
    decreases pending.len(),
{
    if pending.len() == 0 {
        RegionView { terms: seq![], operations: seq![] }
    } else {
        let top = pending.last();
        joined(
            expanded(module, sight, top.value, top.negative, top.parent as int),
            stacked(module, sight, pending.drop_last()),
        )
    }
}

/// How many operands an operand expands to, itself among them.
spec fn weight(module: ModuleView, sight: Sight, value: ValueId, parent: int) -> nat
    decreases value.raw,
{
    if opens(module, sight, value, parent) {
        let child = child_of(module, value)->0;
        match module.operations[child].kind {
            OpView::Binary { op, left, right } => if left.raw < value.raw && right.raw < value.raw {
                1 + weight(module, sight, left, child) + weight(module, sight, right, child)
            } else {
                1
            },
            _ => 1,
        }
    } else {
        1
    }
}

spec fn total_weight(module: ModuleView, sight: Sight, pending: Seq<PendingOperand>) -> nat
    decreases pending.len(),
{
    if pending.len() == 0 {
        0
    } else {
        weight(module, sight, pending.last().value, pending.last().parent as int) + total_weight(
            module,
            sight,
            pending.drop_last(),
        )
    }
}

spec fn pending_ok(module: ModuleView, pending: Seq<PendingOperand>) -> bool {
    forall|i: int|
        0 <= i < pending.len() ==> module.has((#[trigger] pending[i]).value) && pending[i].parent
            < module.operations.len()
}

/// The operands of a sum on top of a stack, the left one uppermost.
proof fn lemma_pushed(
    module: ModuleView,
    sight: Sight,
    pending: Seq<PendingOperand>,
    left: PendingOperand,
    right: PendingOperand,
)
    ensures
        stacked(module, sight, pending.push(right).push(left)) == joined(
            expanded(module, sight, left.value, left.negative, left.parent as int),
            joined(
                expanded(module, sight, right.value, right.negative, right.parent as int),
                stacked(module, sight, pending),
            ),
        ),
        total_weight(module, sight, pending.push(right).push(left)) == weight(
            module,
            sight,
            left.value,
            left.parent as int,
        ) + weight(module, sight, right.value, right.parent as int) + total_weight(
            module,
            sight,
            pending,
        ),
{
    let once = pending.push(right);
    let twice = once.push(left);
    assert(twice.drop_last() =~= once);
    assert(once.drop_last() =~= pending);
    assert(twice.last() == left);
    assert(once.last() == right);
    assert(stacked(module, sight, once) == joined(
        expanded(module, sight, right.value, right.negative, right.parent as int),
        stacked(module, sight, pending),
    ));
    assert(total_weight(module, sight, once) == weight(
        module,
        sight,
        right.value,
        right.parent as int,
    ) + total_weight(module, sight, pending));
}

/// A sum on top of a stack gives way to its operands.
proof fn lemma_opened(
    module: ModuleView,
    sight: Sight,
    pending: Seq<PendingOperand>,
    operand: PendingOperand,
    left: PendingOperand,
    right: PendingOperand,
)
    requires
        module.wf(),
        module.has(operand.value),
        opens(module, sight, operand.value, operand.parent as int),
        ({
            let child = child_of(module, operand.value)->0;
            let kind = module.operations[child].kind;
            &&& kind is Binary
            &&& module.operations[child].result == operand.value
            &&& left.value == kind->left
            &&& left.negative == operand.negative
            &&& left.parent == child
            &&& right.value == kind->right
            &&& right.negative == (operand.negative != (kind->Binary_op is Sub))
            &&& right.parent == child
            &&& kind->left.raw < operand.value.raw
            &&& kind->right.raw < operand.value.raw
        }),
    ensures
        ({
            let before = stacked(module, sight, pending.push(operand));
            let after = stacked(module, sight, pending.push(right).push(left));
            let child = child_of(module, operand.value)->0;
            &&& before.terms == after.terms
            &&& before.operations == seq![child] + after.operations
        }),
        total_weight(module, sight, pending.push(right).push(left)) < total_weight(
            module,
            sight,
            pending.push(operand),
        ),
{
    lemma_pushed(module, sight, pending, left, right);
    let child = child_of(module, operand.value)->0;
    let here = expanded(module, sight, operand.value, operand.negative, operand.parent as int);
    let l = expanded(module, sight, left.value, left.negative, child);
    let r = expanded(module, sight, right.value, right.negative, child);
    let below = stacked(module, sight, pending);
    let one = pending.push(operand);
    assert(one.drop_last() =~= pending);
    assert(one.last() == operand);
    assert(stacked(module, sight, one) == joined(here, below));
    assert(here.terms == l.terms + r.terms);
    assert(here.operations == seq![child] + l.operations + r.operations);
    let after = stacked(module, sight, pending.push(right).push(left));
    assert(after == joined(l, joined(r, below)));
    assert(here.terms + below.terms =~= l.terms + (r.terms + below.terms));
    assert(here.operations + below.operations =~= seq![child] + (l.operations + (r.operations
        + below.operations)));
    assert(weight(module, sight, operand.value, operand.parent as int) == 1 + weight(
        module,
        sight,
        left.value,
        child,
    ) + weight(module, sight, right.value, child));
    assert(total_weight(module, sight, one) == weight(
        module,
        sight,
        operand.value,
        operand.parent as int,
    ) + total_weight(module, sight, pending));
}

/// A term on top of a stack.
proof fn lemma_closed(module: ModuleView, sight: Sight, pending: Seq<PendingOperand>, operand: PendingOperand)
    requires
        !opens(module, sight, operand.value, operand.parent as int),
    ensures
        ({
            let before = stacked(module, sight, pending.push(operand));
            let after = stacked(module, sight, pending);
            &&& before.terms == seq![
                plain_term(
                    module,
                    sight,
                    operand.value,
                    operand.negative,
                    operand.parent as int,
                ),
            ] + after.terms
            &&& before.operations == (if is_product_of(
                module,
                sight,
                operand.value,
                operand.parent as int,
            ) {
                seq![child_of(module, operand.value)->0]
            } else {
                seq![]
            }) + after.operations
        }),
        total_weight(module, sight, pending) < total_weight(module, sight, pending.push(operand)),
{
    let one = pending.push(operand);
    assert(one.drop_last() =~= pending);
    assert(one.last() == operand);
    assert(weight(module, sight, operand.value, operand.parent as int) == 1);
}

/// The operation behind a value, by its place.
fn find_child(module: &WordModule, value: ValueId) -> (child: Option<usize>)
    requires
        module@.wf(),
        module@.has(value),
    ensures
        option_index(child) == child_of(module@, value),
        child matches Some(place) ==> place < module@.operations.len()
            && module@.operations[place as int].result == value,
{
    assert(module@.value_ok(value.raw as int));
    let stored = &module.values[value.raw as usize];
    assert(stored@ == module@.values[value.raw as int]);
    match &stored.kind {
        ValueKind::Operation(operation) => Some(operation.raw as usize),
        _ => None,
    }
}

/// The two operands of a sum.
fn additive_operands(module: &WordModule, operation: usize, negative: bool) -> (operands: (
    PendingOperand,
    PendingOperand,
))
    requires
        module@.wf(),
        operation < module@.operations.len(),
        is_additive(module@.operations[operation as int].kind),
    ensures
        ({
            let kind = module@.operations[operation as int].kind;
            &&& operands.0 == (PendingOperand { value: kind->left, negative, parent: operation })
            &&& operands.1 == (PendingOperand {
                value: kind->right,
                negative: negative != (kind->Binary_op is Sub),
                parent: operation,
            })
            &&& kind->left.raw < module@.operations[operation as int].result.raw
            &&& kind->right.raw < module@.operations[operation as int].result.raw
        }),
        module@.has(operands.0.value),
        module@.has(operands.1.value),
{
    let stored = &module.operations[operation];
    assert(stored@ == module@.operations[operation as int]);
    assert(module@.operation_ok(operation as int));
    match &stored.kind {
        OpKind::Binary { op, left, right } => {
            assert(op_inputs(stored.kind@)[0] == *left && op_inputs(stored.kind@)[1] == *right);
            let right_negative = match op {
                BinaryOp::Sub => !negative,
                _ => negative,
            };
            (
                PendingOperand { value: *left, negative, parent: operation },
                PendingOperand { value: *right, negative: right_negative, parent: operation },
            )
        },
        _ => {
            assert(false);
            (
                PendingOperand { value: stored.result, negative, parent: operation },
                PendingOperand { value: stored.result, negative, parent: operation },
            )
        },
    }
}

/// A term that is not taken apart, and the product behind it.
fn make_term(module: &WordModule, sight: &SightArguments, operand: PendingOperand) -> (made: (
    ArithmeticTerm,
    Option<usize>,
))
    requires
        module@.wf(),
        sight.uses@.len() == module@.values.len(),
        module@.has(operand.value),
        operand.parent < module@.operations.len(),
    ensures
        made.0 == plain_term(
            module@,
            sight@,
            operand.value,
            operand.negative,
            operand.parent as int,
        ),
        made.1 is Some <==> is_product_of(module@, sight@, operand.value, operand.parent as int),
        made.1 is Some ==> option_index(made.1) == child_of(module@, operand.value),
{
    let value = operand.value;
    let negative = operand.negative;
    let parent = &module.operations[operand.parent];
    assert(parent@ == module@.operations[operand.parent as int]);
    assert(module@.operation_ok(operand.parent as int));
    assert(module@.values[value.raw as int] == module.values@[value.raw as int]@);
    assert(module@.values[parent.result.raw as int] == module.values@[parent.result.raw as int]@);
    let value_ty = module.values[value.raw as usize].ty;
    let parent_ty = module.values[parent.result.raw as usize].ty;
    let ty = WordType {
        width: value_ty.width,
        signed: value_ty.signed && parent_ty.signed,
        state: value_ty.state,
    };
    if let Some(child) = find_child(module, value) {
        let kind = &module.operations[child].kind;
        assert(kind@ == module@.operations[child as int].kind);
        assert(module@.operation_ok(child as int));
        if let OpKind::Binary { op, left, right } = kind {
            let multiplies = match op {
                BinaryOp::Mul => true,
                _ => false,
            };
            if multiplies && sight.uses[value.raw as usize] == 1 && value_ty.width
                == parent_ty.width && !list_contains(sight.observed, value) {
                assert(op_inputs(kind@)[0] == *left && op_inputs(kind@)[1] == *right);
                let (left, left_type) = normalize_multiply_input(module, *left);
                let (right, right_type) = normalize_multiply_input(module, *right);
                let constant_input = find_constant_place(module, left, right);
                return (
                    ArithmeticTerm::Product {
                        left,
                        right,
                        left_type,
                        right_type,
                        ty,
                        negative,
                        constant_input,
                    },
                    Some(child),
                );
            }
        }
    }
    (ArithmeticTerm::Value { value, ty, negative }, None)
}

/// The operations of a list, in ascending order.
fn sort_operations(operations: &Vec<usize>, bound: usize) -> (sorted: Vec<usize>)
    requires
        forall|i: int| 0 <= i < operations@.len() ==> (#[trigger] operations@[i]) < bound,
    ensures
        indices(sorted@) == ascending(indices(operations@), bound as nat),
{
    let ghost list = indices(operations@);
    let mut marks: Vec<bool> = Vec::new();
    marks.resize(bound, false);
    let mut i: usize = 0;
    while i < operations.len()
        invariant
            list == indices(operations@),
            forall|i: int| 0 <= i < operations@.len() ==> (#[trigger] operations@[i]) < bound,
            marks@.len() == bound,
            i <= operations@.len(),
            forall|k: int|
                0 <= k < bound ==> #[trigger] marks@[k] == list.take(i as int).contains(k),
        decreases operations.len() - i,
    {
        let ghost before = marks@;
        assert(operations@[i as int] < bound);
        marks.set(operations[i], true);
        proof {
            let shorter = list.take(i as int);
            let longer = list.take(i + 1);
            assert(longer =~= shorter.push(operations@[i as int] as int));
            assert forall|k: int| 0 <= k < bound implies #[trigger] marks@[k] == longer.contains(
                k,
            ) by {
                assert(before[k] == shorter.contains(k));
                if shorter.contains(k) {
                    let j = choose|j: int| 0 <= j < shorter.len() && shorter[j] == k;
                    assert(longer[j] == k);
                }
                if k == operations@[i as int] {
                    assert(longer[i as int] == k);
                }
                if longer.contains(k) && k != operations@[i as int] {
                    let j = choose|j: int| 0 <= j < longer.len() && longer[j] == k;
                    assert(shorter[j] == k);
                }
            }
        }
        i += 1;
    }
    assert(list.take(i as int) =~= list);
    let mut sorted: Vec<usize> = Vec::new();
    let mut k: usize = 0;
    assert(indices(sorted@) =~= ascending(list, 0));
    while k < bound
        invariant
            k <= bound,
            marks@.len() == bound,
            forall|k: int| 0 <= k < bound ==> #[trigger] marks@[k] == list.contains(k),
            indices(sorted@) == ascending(list, k as nat),
        decreases bound - k,
    {
        let ghost before = sorted@;
        assert(marks@[k as int] == list.contains(k as int));
        if marks[k] {
            sorted.push(k);
            assert(indices(sorted@) =~= indices(before).push(k as int));
        }
        k += 1;
    }
    sorted
}

/// Takes a sum apart, through the sums that it absorbs.
#[verifier::rlimit(60)]
fn collect_additive_region(
    module: &WordModule,
    sight: &SightArguments,
    parents: &Vec<Option<usize>>,
    root: usize,
) -> (region: AdditiveRegion)
    requires
        module@.wf(),
        sight.uses@.len() == module@.values.len(),
        parents@.len() == module@.operations.len(),
        forall|i: int|
            0 <= i < parents@.len() ==> option_index(#[trigger] parents@[i]) == absorbed_by(
                module@,
                sight@,
                i,
            ),
        root < module@.operations.len(),
        is_additive(module@.operations[root as int].kind),
    ensures
        region.terms@ == region_of(module@, sight@, root as int).terms,
        indices(region.operations@) == ascending(
            region_of(module@, sight@, root as int).operations,
            module@.operations.len(),
        ),
        forall|i: int|
            0 <= i < region_of(module@, sight@, root as int).operations.len() ==> 0
                <= #[trigger] region_of(module@, sight@, root as int).operations[i]
                < module@.operations.len(),
{
    let ghost view = module@;
    let ghost whole = region_of(view, sight@, root as int);
    let (left, right) = additive_operands(module, root, false);
    let mut pending: Vec<PendingOperand> = Vec::new();
    let mut terms: Vec<ArithmeticTerm> = Vec::new();
    let mut operations: Vec<usize> = Vec::new();
    operations.push(root);
    pending.push(right);
    pending.push(left);
    proof {
        let none: Seq<PendingOperand> = Seq::empty();
        lemma_pushed(view, sight@, none, left, right);
        assert(pending@ =~= none.push(right).push(left));
        assert(indices(operations@) =~= seq![root as int]);
        let rest = stacked(view, sight@, pending@);
        assert(whole.terms =~= terms@ + rest.terms);
        assert(whole.operations =~= indices(operations@) + rest.operations);
    }
    while pending.len() > 0
        invariant
            view == module@,
            view.wf(),
            sight.uses@.len() == view.values.len(),
            parents@.len() == view.operations.len(),
            forall|i: int|
                0 <= i < parents@.len() ==> option_index(#[trigger] parents@[i]) == absorbed_by(
                    view,
                    sight@,
                    i,
                ),
            pending_ok(view, pending@),
            whole.terms == terms@ + stacked(view, sight@, pending@).terms,
            whole.operations == indices(operations@) + stacked(view, sight@, pending@).operations,
            forall|i: int|
                0 <= i < operations@.len() ==> (#[trigger] operations@[i]) < view.operations.len(),
        decreases total_weight(view, sight@, pending@),
    {
        let ghost before = pending@;
        let ghost old_terms = terms@;
        let ghost old_operations = operations@;
        let last: usize = pending.len() - 1;
        let operand = pending[last];
        assert(view.has(before[last as int].value));
        let top = pending.pop();
        let ghost rest = pending@;
        proof {
            assert(before =~= rest.push(operand));
            assert(pending_ok(view, rest)) by {
                assert forall|i: int| 0 <= i < rest.len() implies view.has(
                    (#[trigger] rest[i]).value,
                ) && rest[i].parent < view.operations.len() by {
                    assert(rest[i] == before[i]);
                }
            }
        }
        let child = find_child(module, operand.value);
        let opened = match child {
            Some(place) => match parents[place] {
                Some(parent) => parent == operand.parent,
                None => false,
            },
            None => false,
        };
        proof {
            if child is Some {
                let place = child->0 as int;
                assert(option_index(parents@[place]) == absorbed_by(view, sight@, place));
            }
            assert(opened == opens(view, sight@, operand.value, operand.parent as int));
        }
        if opened {
            if let Some(place) = child {
                operations.push(place);
                let (left, right) = additive_operands(module, place, operand.negative);
                pending.push(right);
                pending.push(left);
                proof {
                    lemma_opened(view, sight@, rest, operand, left, right);
                    assert(pending@ =~= rest.push(right).push(left));
                    let after = stacked(view, sight@, pending@);
                    assert(indices(operations@) =~= indices(old_operations).push(place as int));
                    assert(indices(old_operations) + (seq![place as int] + after.operations)
                        =~= indices(operations@) + after.operations);
                }
            }
        } else {
            let (term, product) = make_term(module, sight, operand);
            terms.push(term);
            if let Some(place) = product {
                operations.push(place);
                assert(indices(operations@) =~= indices(old_operations).push(place as int));
            }
            proof {
                lemma_closed(view, sight@, rest, operand);
                let below = stacked(view, sight@, rest);
                assert(old_terms + (seq![term] + below.terms) =~= terms@ + below.terms);
                assert(whole.operations =~= indices(operations@) + below.operations);
            }
        }
    }
    proof {
        assert(whole.terms =~= terms@);
        assert(whole.operations =~= indices(operations@));
    }
    let sorted = sort_operations(&operations, module.operations.len());
    AdditiveRegion { terms, operations: sorted }
}

fn terms_have_product(terms: &Vec<ArithmeticTerm>) -> (found: bool)
    ensures
        found == has_product(terms@),
{
    let mut i: usize = 0;
    while i < terms.len()
        invariant
            i <= terms@.len(),
            forall|k: int| 0 <= k < i ==> !((#[trigger] terms@[k]) is Product),
        decreases terms.len() - i,
    {
        if terms[i].is_product() {
            assert(terms@[i as int] is Product);
            return true;
        }
        i += 1;
    }
    false
}

pub proof fn lemma_ascending(list: Seq<int>, bound: nat)
    ensures
        forall|k: int|
            0 <= k < bound ==> (#[trigger] ascending(list, bound).contains(k) == list.contains(k)),
        forall|i: int|
            0 <= i < ascending(list, bound).len() ==> 0 <= #[trigger] ascending(list, bound)[i]
                < bound,
    decreases bound,
{
    if bound > 0 {
        lemma_ascending(list, (bound - 1) as nat);
        let below = ascending(list, (bound - 1) as nat);
        let all = ascending(list, bound);
        assert forall|k: int| 0 <= k < bound implies (#[trigger] all.contains(k) == list.contains(
            k,
        )) by {
            if k < bound - 1 {
                assert(below.contains(k) == list.contains(k));
                if below.contains(k) {
                    let j = choose|j: int| 0 <= j < below.len() && below[j] == k;
                    assert(all[j] == k);
                }
                if all.contains(k) {
                    let j = choose|j: int| 0 <= j < all.len() && all[j] == k;
                    assert(below[j] == k);
                }
            } else if list.contains(k) {
                assert(all[all.len() - 1] == k);
            } else if all.contains(k) {
                let j = choose|j: int| 0 <= j < all.len() && all[j] == k;
                assert(below[j] == k);
            }
        }
    }
}

/// The sums of a module that are implemented as one, and what they absorb.
#[verifier::rlimit(60)]
pub fn additive_regions(module: &WordModule, sight: &SightArguments) -> (regions: AdditiveRegions)
    requires
        module@.wf(),
        sight.uses@.len() == module@.values.len(),
    ensures
        regions.describes(module@, sight@),
{
    let ghost view = module@;
    let parents = find_absorbers(module, sight);
    let mut by_root: Vec<Option<AdditiveRegion>> = Vec::new();
    let mut absorbed = IdSet::new();
    let mut root: usize = 0;
    while root < module.operations.len()
        invariant
            view == module@,
            view.wf(),
            sight.uses@.len() == view.values.len(),
            parents@.len() == view.operations.len(),
            forall|i: int|
                0 <= i < parents@.len() ==> option_index(#[trigger] parents@[i]) == absorbed_by(
                    view,
                    sight@,
                    i,
                ),
            root <= view.operations.len(),
            by_root@.len() == root,
            forall|i: int|
                0 <= i < root ==> region_described(view, sight@, i, #[trigger] by_root@[i]),
            forall|i: u64|
                i < view.operations.len() ==> #[trigger] absorbed@.contains(i) == (exists|r: int|
                    r < root && #[trigger] covers(view, sight@, r, i as int)),
        decreases module.operations.len() - root,
    {
        let ghost before = absorbed@;
        let operation = &module.operations[root];
        assert(operation@ == view.operations[root as int]);
        assert(option_index(parents@[root as int]) == absorbed_by(view, sight@, root as int));
        let mut found: Option<AdditiveRegion> = None;
        if sight.fuse && kind_is_additive(&operation.kind) && parents[root].is_none() {
            let region = collect_additive_region(module, sight, &parents, root);
            if region.terms.len() >= 3 || terms_have_product(&region.terms) {
                let ghost list = region_of(view, sight@, root as int).operations;
                proof {
                    lemma_ascending(list, view.operations.len());
                }
                let mut k: usize = 0;
                while k < region.operations.len()
                    invariant
                        k <= region.operations@.len(),
                        forall|i: u64| #[trigger]
                            absorbed@.contains(i) == (before.contains(i) || (i != root && (exists|
                                j: int,
                            | 0 <= j < k && #[trigger] region.operations@[j] == i))),
                    decreases region.operations.len() - k,
                {
                    let ghost now = absorbed@;
                    let index: usize = region.operations[k];
                    if index != root {
                        absorbed.insert(index as u64);
                    }
                    proof {
                        assert forall|i: u64| #[trigger] absorbed@.contains(i) == (
                        before.contains(i) || (i != root && (exists|j: int|
                            0 <= j < k + 1 && #[trigger] region.operations@[j] == i))) by {
                            assert(now.contains(i) == (before.contains(i) || (i != root && (
                            exists|j: int| 0 <= j < k && #[trigger] region.operations@[j] == i))));
                            if i == index {
                                assert(region.operations@[k as int] == i);
                            }
                            if exists|j: int|
                                0 <= j < k && #[trigger] region.operations@[j] == i {
                                let j = choose|j: int|
                                    0 <= j < k && #[trigger] region.operations@[j] == i;
                                assert(0 <= j < k + 1 && region.operations@[j] == i);
                            }
                        }
                    }
                    k += 1;
                }
                proof {
                    let sorted = ascending(list, view.operations.len());
                    assert(indices(region.operations@) == sorted);
                    assert forall|i: u64| i < view.operations.len() implies ((exists|j: int|
                        0 <= j < k && #[trigger] region.operations@[j] == i) == list.contains(
                        i as int,
                    )) by {
                        assert(sorted.contains(i as int) == list.contains(i as int));
                        if exists|j: int| 0 <= j < k && #[trigger] region.operations@[j] == i {
                            let j = choose|j: int|
                                0 <= j < k && #[trigger] region.operations@[j] == i;
                            assert(indices(region.operations@)[j] == i);
                        }
                        if sorted.contains(i as int) {
                            let j = choose|j: int| 0 <= j < sorted.len() && sorted[j] == i;
                            assert(indices(region.operations@)[j] == region.operations@[j]);
                            assert(0 <= j < k && region.operations@[j] == i);
                        }
                    }
                }
                found = Some(region);
            }
        }
        by_root.push(found);
        proof {
            assert(region_described(view, sight@, root as int, by_root@[root as int]));
            assert forall|i: u64| i < view.operations.len() implies #[trigger] absorbed@.contains(i)
                == (exists|r: int|
                r < root + 1 && #[trigger] covers(view, sight@, r, i as int)) by {
                let now = covers(view, sight@, root as int, i as int);
                assert(absorbed@.contains(i) == (before.contains(i) || now));
                if before.contains(i) {
                    let r = choose|r: int|
                        r < root && #[trigger] covers(view, sight@, r, i as int);
                    assert(r < root + 1 && covers(view, sight@, r, i as int));
                }
                if exists|r: int|
                    r < root + 1 && #[trigger] covers(view, sight@, r, i as int) {
                    let r = choose|r: int|
                        r < root + 1 && #[trigger] covers(view, sight@, r, i as int);
                    if r != root {
                        assert(r < root && covers(view, sight@, r, i as int));
                    }
                }
            }
        }
        root += 1;
    }
    proof {
        assert forall|i: u64| i < view.operations.len() implies #[trigger] absorbed@.contains(i)
            == is_absorbed(view, sight@, i as int) by {
            if is_absorbed(view, sight@, i as int) {
                let r = choose|r: int| #[trigger] covers(view, sight@, r, i as int);
                assert(r < root && covers(view, sight@, r, i as int));
            }
        }
    }
    AdditiveRegions { by_root, absorbed }
}


/// A term of values of the module.
pub open spec fn term_ok(module: ModuleView, term: ArithmeticTerm) -> bool {
    match term {
        ArithmeticTerm::Value { value, .. } => module.has(value),
        ArithmeticTerm::Product { left, right, .. } => module.has(left) && module.has(right),
    }
}

pub open spec fn terms_ok(module: ModuleView, terms: Seq<ArithmeticTerm>) -> bool {
    &&& terms.len() > 0
    &&& forall|i: int| 0 <= i < terms.len() ==> term_ok(module, #[trigger] terms[i])
}

proof fn lemma_normalized(module: ModuleView, input: ValueId)
    requires
        module.wf(),
        module.has(input),
    ensures
        module.has(normalized(module, input).0),
{
    if let Some(OpView::Cast { kind, value, target }) = module.op_of(input) {
        assert(module.value_ok(input.raw as int));
        let operation = module.kind(input)->Operation_0;
        assert(module.operation_ok(operation.raw as int));
        assert(op_inputs(module.op_of(input)->0)[0] == value);
    }
}

proof fn lemma_expanded_terms(
    module: ModuleView,
    sight: Sight,
    value: ValueId,
    negative: bool,
    parent: int,
)
    requires
        module.wf(),
        module.has(value),
    ensures
        terms_ok(module, expanded(module, sight, value, negative, parent).terms),
    decreases value.raw,
{
    assert(module.value_ok(value.raw as int));
    if child_of(module, value) is Some {
        let child = child_of(module, value)->0;
        let kind = module.operations[child].kind;
        assert(module.operation_ok(child));
        if kind is Binary {
            assert(op_inputs(kind)[0] == kind->left && op_inputs(kind)[1] == kind->right);
            if opens(module, sight, value, parent) {
                let l = expanded(module, sight, kind->left, negative, child);
                let r = expanded(
                    module,
                    sight,
                    kind->right,
                    negative != (kind->Binary_op is Sub),
                    child,
                );
                lemma_expanded_terms(module, sight, kind->left, negative, child);
                lemma_expanded_terms(
                    module,
                    sight,
                    kind->right,
                    negative != (kind->Binary_op is Sub),
                    child,
                );
                let all = expanded(module, sight, value, negative, parent).terms;
                assert(all == l.terms + r.terms);
                assert forall|i: int| 0 <= i < all.len() implies term_ok(
                    module,
                    #[trigger] all[i],
                ) by {
                    if i < l.terms.len() {
                        assert(all[i] == l.terms[i]);
                    } else {
                        assert(all[i] == r.terms[i - l.terms.len()]);
                    }
                }
            } else {
                lemma_normalized(module, kind->left);
                lemma_normalized(module, kind->right);
            }
        }
    }
}

/// The terms of a region are values of the module.
pub proof fn lemma_region_terms(module: ModuleView, sight: Sight, root: int)
    requires
        module.wf(),
        0 <= root < module.operations.len(),
        is_additive(module.operations[root].kind),
    ensures
        terms_ok(module, region_of(module, sight, root).terms),
{
    let kind = module.operations[root].kind;
    assert(module.operation_ok(root));
    assert(op_inputs(kind)[0] == kind->left && op_inputs(kind)[1] == kind->right);
    lemma_expanded_terms(module, sight, kind->left, false, root);
    lemma_expanded_terms(module, sight, kind->right, kind->Binary_op is Sub, root);
    let l = expanded(module, sight, kind->left, false, root).terms;
    let all = region_of(module, sight, root).terms;
    assert forall|i: int| 0 <= i < all.len() implies term_ok(module, #[trigger] all[i]) by {
        if i < l.len() {
            assert(all[i] == l[i]);
        }
    }
}

} // verus!
