//! What a fused sum absorbs is seen nowhere else, and it absorbs all that it can.

use super::regions::{
    absorbed_by, child_of, consumer, expanded, is_additive, is_multiply, is_product_of, opens,
    plain_term, reads_value, region_of, Sight,
};
use crate::planning::fsm::analysis::counts_uses;
use crate::planning::fsm::invisibility::{lemma_gathered_at, lemma_occurs};
use crate::word::module::ModuleView;
use crate::word::types::{op_inputs, OpView, ValueId};
use crate::word::uses::{gathered, occurrences, operation_values, used_values};
use vstd::prelude::*;

verus! {

/// A value has one use, which is by an operation of a region of its width, and is not
/// observed.
pub open spec fn seen_only_within(
    module: ModuleView,
    sight: Sight,
    region: Seq<int>,
    value: ValueId,
) -> bool {
    &&& sight.uses[value.raw as int] == 1
    &&& !sight.observed.contains(value)
    &&& exists|user: int|
        region.contains(user) && #[trigger] reads_value(module, user, value) && module.ty(
            value,
        ).width == module.ty(module.operations[user].result).width
}

proof fn lemma_consumer_alone(module: ModuleView, uses: Seq<u32>, value: ValueId, count: nat)
    requires
        consumer(module, uses, value, count) is Some,
    ensures
        uses[value.raw as int] == 1,
        0 <= consumer(module, uses, value, count)->0 < count,
        reads_value(module, consumer(module, uses, value, count)->0, value),
    decreases count,
{
    if count > 0 && !(uses[value.raw as int] == 1 && reads_value(module, count - 1, value)) {
        lemma_consumer_alone(module, uses, value, (count - 1) as nat);
    }
}

proof fn lemma_wider(module: ModuleView, sight: Sight, small: Seq<int>, large: Seq<int>, value: ValueId)
    requires
        seen_only_within(module, sight, small, value),
        forall|x: int| small.contains(x) ==> #[trigger] large.contains(x),
    ensures
        seen_only_within(module, sight, large, value),
{
    let user = choose|user: int|
        small.contains(user) && #[trigger] reads_value(module, user, value) && module.ty(
            value,
        ).width == module.ty(module.operations[user].result).width;
    assert(large.contains(user));
}

proof fn lemma_absorbed(
    module: ModuleView,
    sight: Sight,
    value: ValueId,
    negative: bool,
    parent: int,
    child: int,
)
    requires
        module.wf(),
        module.has(value),
        0 <= parent < module.operations.len(),
        reads_value(module, parent, value),
        expanded(module, sight, value, negative, parent).operations.contains(child),
    ensures
        0 <= child < module.operations.len(),
        seen_only_within(
            module,
            sight,
            seq![parent] + expanded(module, sight, value, negative, parent).operations,
            module.operations[child].result,
        ),
    decreases value.raw,
{
    let all = expanded(module, sight, value, negative, parent).operations;
    let region = seq![parent] + all;
    assert(region[0] == parent);
    assert(module.value_ok(value.raw as int));
    if opens(module, sight, value, parent) {
        let own = child_of(module, value)->0;
        assert(module.operation_ok(own));
        assert(module.operations[own].result == value);
        if child == own {
            lemma_consumer_alone(module, sight.uses, value, module.operations.len());
            assert(region.contains(parent));
        } else if let OpView::Binary { op, left, right } = module.operations[own].kind {
            let inputs = op_inputs(module.operations[own].kind);
            assert(inputs[0] == left && inputs[1] == right);
            assert(left.raw < value.raw && right.raw < value.raw);
            let l = expanded(module, sight, left, negative, own).operations;
            let r = expanded(module, sight, right, negative != (op is Sub), own).operations;
            assert(all == seq![own] + l + r);
            let i = choose|i: int| 0 <= i < all.len() && all[i] == child;
            if i <= l.len() {
                assert(l[i - 1] == child);
                lemma_absorbed(module, sight, left, negative, own, child);
                assert forall|x: int| (seq![own] + l).contains(x) implies #[trigger] region.contains(
                    x,
                ) by {
                    let j = choose|j: int| 0 <= j < (seq![own] + l).len() && (seq![own] + l)[j] == x;
                    assert(region[j + 1] == x);
                }
                lemma_wider(module, sight, seq![own] + l, region, module.operations[child].result);
            } else {
                assert(r[i - 1 - l.len()] == child);
                lemma_absorbed(module, sight, right, negative != (op is Sub), own, child);
                assert forall|x: int| (seq![own] + r).contains(x) implies #[trigger] region.contains(
                    x,
                ) by {
                    let j = choose|j: int| 0 <= j < (seq![own] + r).len() && (seq![own] + r)[j] == x;
                    if j == 0 {
                        assert(region[1] == x);
                    } else {
                        assert(region[j + 1 + l.len()] == x);
                    }
                }
                lemma_wider(module, sight, seq![own] + r, region, module.operations[child].result);
            }
        }
    } else {
        assert(is_product_of(module, sight, value, parent));
        let own = child_of(module, value)->0;
        assert(all == seq![own]);
        assert(child == own);
        assert(module.operations[own].result == value);
        assert(region.contains(parent));
    }
}

/// Whatever a fused sum absorbs is seen within it only: it is not observed, and its one use is
/// by an operation of the sum.
pub proof fn absorbed_results_are_seen_nowhere_else(
    module: ModuleView,
    sight: Sight,
    root: int,
    child: int,
)
    requires
        module.wf(),
        0 <= root < module.operations.len(),
        is_additive(module.operations[root].kind),
        region_of(module, sight, root).operations.contains(child),
        child != root,
    ensures
        0 <= child < module.operations.len(),
        seen_only_within(
            module,
            sight,
            region_of(module, sight, root).operations,
            module.operations[child].result,
        ),
{
    let kind = module.operations[root].kind;
    let left = kind->left;
    let right = kind->right;
    let inputs = op_inputs(kind);
    assert(module.operation_ok(root));
    assert(inputs[0] == left && inputs[1] == right);
    let minus = kind->Binary_op is Sub;
    let l = expanded(module, sight, left, false, root).operations;
    let r = expanded(module, sight, right, minus, root).operations;
    let all = region_of(module, sight, root).operations;
    assert(all == seq![root] + l + r);
    let i = choose|i: int| 0 <= i < all.len() && all[i] == child;
    if i <= l.len() {
        assert(l[i - 1] == child);
        lemma_absorbed(module, sight, left, false, root, child);
        assert forall|x: int| (seq![root] + l).contains(x) implies #[trigger] all.contains(x) by {
            let j = choose|j: int| 0 <= j < (seq![root] + l).len() && (seq![root] + l)[j] == x;
            assert(all[j] == x);
        }
        lemma_wider(module, sight, seq![root] + l, all, module.operations[child].result);
    } else {
        assert(r[i - 1 - l.len()] == child);
        lemma_absorbed(module, sight, right, minus, root, child);
        assert forall|x: int| (seq![root] + r).contains(x) implies #[trigger] all.contains(x) by {
            let j = choose|j: int| 0 <= j < (seq![root] + r).len() && (seq![root] + r)[j] == x;
            if j == 0 {
                assert(all[0] == x);
            } else {
                assert(all[j + l.len()] == x);
            }
        }
        lemma_wider(module, sight, seq![root] + r, all, module.operations[child].result);
    }
}

/// A value that is used once is used by the operation that has it as an operand.
proof fn lemma_consumed(
    module: ModuleView,
    uses: Seq<u32>,
    value: ValueId,
    parent: int,
    count: nat,
)
    requires
        module.wf(),
        counts_uses(module, uses),
        module.has(value),
        uses[value.raw as int] == 1,
        0 <= parent < count <= module.operations.len(),
        reads_value(module, parent, value),
    ensures
        consumer(module, uses, value, count) == Some(parent),
    decreases count,
{
    if reads_value(module, count - 1, value) && count - 1 != parent {
        let all = used_values(module);
        let operations = |i: int| operation_values(module, i);
        let last = gathered(operations, module.operations.len());
        let first = op_inputs(module.operations[parent].kind);
        let other = op_inputs(module.operations[count - 1].kind);
        let i = choose|i: int| 0 <= i < first.len() && first[i] == value;
        let j = choose|j: int| 0 <= j < other.len() && other[j] == value;
        let a = lemma_gathered_at(operations, module.operations.len(), parent, i);
        let b = lemma_gathered_at(operations, module.operations.len(), count - 1, j);
        lemma_lengths(operations, parent, count - 1);
        let shift = all.len() - last.len();
        assert(all[shift + a] == value && all[shift + b] == value);
        lemma_occurs(all, value, shift + a);
        assert(ValueId { raw: value.raw as int as u32 } == value);
        assert(occurrences(all, value) >= 2);
    } else if count - 1 != parent {
        lemma_consumed(module, uses, value, parent, (count - 1) as nat);
    }
}

/// Rows that come later are put further back.
proof fn lemma_lengths(row: spec_fn(int) -> Seq<ValueId>, i: int, j: int)
    requires
        0 <= i < j,
    ensures
        gathered(row, i as nat).len() + row(i).len() <= gathered(row, j as nat).len(),
    decreases j,
{
    if i < j - 1 {
        lemma_lengths(row, i, j - 1);
    }
}

/// A value could be a part of a sum: it is a sum or a product of the width of the sum, it is
/// used once and not observed.
pub open spec fn absorbable(module: ModuleView, sight: Sight, value: ValueId, width: u32) -> bool {
    &&& child_of(module, value) matches Some(child) && (is_additive(module.operations[child].kind)
        || is_multiply(module.operations[child].kind))
    &&& sight.uses[value.raw as int] == 1
    &&& !sight.observed.contains(value)
    &&& module.ty(value).width == width
}

proof fn lemma_taken_apart(
    module: ModuleView,
    sight: Sight,
    value: ValueId,
    negative: bool,
    parent: int,
    i: int,
)
    requires
        module.wf(),
        counts_uses(module, sight.uses),
        module.has(value),
        0 <= parent < module.operations.len(),
        is_additive(module.operations[parent].kind),
        reads_value(module, parent, value),
        0 <= i < expanded(module, sight, value, negative, parent).terms.len(),
        expanded(module, sight, value, negative, parent).terms[i] is Value,
    ensures
        !absorbable(
            module,
            sight,
            expanded(module, sight, value, negative, parent).terms[i]->Value_value,
            module.ty(module.operations[parent].result).width,
        ),
    decreases value.raw,
{
    let all = expanded(module, sight, value, negative, parent).terms;
    assert(module.value_ok(value.raw as int));
    if opens(module, sight, value, parent) {
        let own = child_of(module, value)->0;
        assert(module.operation_ok(own));
        assert(module.operations[own].result == value);
        if let OpView::Binary { op, left, right } = module.operations[own].kind {
            let inputs = op_inputs(module.operations[own].kind);
            assert(inputs[0] == left && inputs[1] == right);
            assert(left.raw < value.raw && right.raw < value.raw);
            let l = expanded(module, sight, left, negative, own).terms;
            let r = expanded(module, sight, right, negative != (op is Sub), own).terms;
            assert(all == l + r);
            if i < l.len() {
                assert(all[i] == l[i]);
                lemma_taken_apart(module, sight, left, negative, own, i);
            } else {
                assert(all[i] == r[i - l.len()]);
                lemma_taken_apart(module, sight, right, negative != (op is Sub), own, i - l.len());
            }
        }
    } else {
        assert(all == seq![plain_term(module, sight, value, negative, parent)]);
        let width = module.ty(module.operations[parent].result).width;
        if absorbable(module, sight, value, width) {
            let own = child_of(module, value)->0;
            assert(module.operations[own].result == value);
            lemma_consumed(module, sight.uses, value, parent, module.operations.len());
            assert(absorbed_by(module, sight, own) == (if is_additive(module.operations[own].kind) {
                Some(parent)
            } else {
                None::<int>
            }));
        }
    }
}

/// A fused sum takes apart all that it can: no term that is left whole could be a part of it.
pub proof fn sums_are_taken_apart_as_far_as_they_can_be(
    module: ModuleView,
    sight: Sight,
    root: int,
    i: int,
)
    requires
        module.wf(),
        counts_uses(module, sight.uses),
        0 <= root < module.operations.len(),
        is_additive(module.operations[root].kind),
        0 <= i < region_of(module, sight, root).terms.len(),
        region_of(module, sight, root).terms[i] is Value,
    ensures
        !absorbable(
            module,
            sight,
            region_of(module, sight, root).terms[i]->Value_value,
            module.ty(module.operations[root].result).width,
        ),
{
    let kind = module.operations[root].kind;
    let inputs = op_inputs(kind);
    let minus = kind->Binary_op is Sub;
    assert(module.operation_ok(root));
    assert(inputs[0] == kind->left && inputs[1] == kind->right);
    let l = expanded(module, sight, kind->left, false, root).terms;
    let r = expanded(module, sight, kind->right, minus, root).terms;
    let all = region_of(module, sight, root).terms;
    assert(all == l + r);
    if i < l.len() {
        assert(all[i] == l[i]);
        lemma_taken_apart(module, sight, kind->left, false, root, i);
    } else {
        assert(all[i] == r[i - l.len()]);
        lemma_taken_apart(module, sight, kind->right, minus, root, i - l.len());
    }
}

} // verus!
