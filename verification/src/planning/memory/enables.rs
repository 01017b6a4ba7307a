//! Enables that are never active together.

use super::clocks::{same_source, same_sources_agree, same_value};
use super::pieces::{enabled, lemma_one_bit, truth};
use crate::word::bits::any_bit;
use crate::word::module::{MemoryWritePort, ModuleView, ValueKind, WordModule};
use crate::planning::fsm::transition::facts_view;
use crate::word::semantics::{
    binary_bits, lemma_eval_operation, lemma_eval_width, resize_bits, word_of, Env,
};
use crate::word::types::{
    bit_lsb, op_inputs, BinaryOp, BitVal, ConstBits, Enable, OpKind, OpView, UnaryOp, ValueId,
    WordType,
};
use vstd::prelude::*;

verus! {

/// Conditions that hold together: values with what they are, unless they cannot
/// hold together.
pub struct Conjunction {
    pub impossible: bool,
    pub literals: Seq<(ValueId, bool)>,
}

#[derive(Debug)]
struct EnableConjunction {
    impossible: bool,
    literals: Vec<(ValueId, bool)>,
}

impl View for EnableConjunction {
    type V = Conjunction;

    closed spec fn view(&self) -> Conjunction {
        Conjunction { impossible: self.impossible, literals: self.literals@ }
    }
}

/// What the lowest bit of a known constant says.
pub open spec fn known_truth(facts: Seq<Option<Seq<BitVal>>>, value: ValueId) -> Option<bool> {
    if value.raw < facts.len() && facts[value.raw as int] is Some
        && facts[value.raw as int]->0.len() > 0 {
        Some(bit_lsb(facts[value.raw as int]->0, 0) is One)
    } else {
        None
    }
}

pub open spec fn has_literal(
    module: ModuleView,
    literals: Seq<(ValueId, bool)>,
    value: ValueId,
    high: bool,
) -> bool {
    exists|i: int|
        0 <= i < literals.len() && (#[trigger] literals[i]).1 == high && same_source(
            module,
            literals[i].0,
            value,
        )
}

/// One more condition.
pub open spec fn with_literal(
    module: ModuleView,
    start: Conjunction,
    value: ValueId,
    high: bool,
) -> Conjunction {
    if has_literal(module, start.literals, value, !high) {
        Conjunction { impossible: true, ..start }
    } else if has_literal(module, start.literals, value, high) {
        start
    } else {
        Conjunction { literals: start.literals.push((value, high)), ..start }
    }
}

/// The conditions under which a value is as wanted, beside others.
pub open spec fn conjunction(
    module: ModuleView,
    facts: Seq<Option<Seq<BitVal>>>,
    value: ValueId,
    high: bool,
    start: Conjunction,
) -> Conjunction
    decreases value.raw,
{
    if start.impossible {
        start
    } else {
        match known_truth(facts, value) {
            Some(known) => Conjunction { impossible: known != high, ..start },
            None => match module.op_of(value) {
                Some(OpView::Unary { op: UnaryOp::LogicalNot, arg }) => if arg.raw < value.raw {
                    conjunction(module, facts, arg, !high, start)
                } else {
                    start
                },
                Some(OpView::Binary { op, left, right }) => if (high && (op is LogicalAnd
                    || op is BitAnd)) || (!high && (op is LogicalOr || op is BitOr)) {
                    if left.raw < value.raw && right.raw < value.raw {
                        conjunction(
                            module,
                            facts,
                            right,
                            high,
                            conjunction(module, facts, left, high, start),
                        )
                    } else {
                        start
                    }
                } else {
                    with_literal(module, start, value, high)
                },
                _ => with_literal(module, start, value, high),
            },
        }
    }
}

pub open spec fn no_condition() -> Conjunction {
    Conjunction { impossible: false, literals: seq![] }
}

/// The conditions of an enable.
pub open spec fn enable_conditions(
    module: ModuleView,
    facts: Seq<Option<Seq<BitVal>>>,
    enable: Enable,
) -> Conjunction {
    conjunction(module, facts, enable.value, enable.active_high, no_condition())
}

/// Some condition is the opposite of another one.
pub open spec fn opposed(
    module: ModuleView,
    literals: Seq<(ValueId, bool)>,
    literal: (ValueId, bool),
) -> bool {
    has_literal(module, literals, literal.0, !literal.1)
}

/// Two conjunctions contradict each other.
pub open spec fn contradict(module: ModuleView, left: Conjunction, right: Conjunction) -> bool {
    left.impossible || right.impossible || exists|i: int|
        0 <= i < left.literals.len() && #[trigger] opposed(
            module,
            right.literals,
            left.literals[i],
        )
}

pub open spec fn enables_exclude(
    module: ModuleView,
    facts: Seq<Option<Seq<BitVal>>>,
    left: Option<Enable>,
    right: Option<Enable>,
) -> bool {
    match (left, right) {
        (Some(left), Some(right)) => contradict(
            module,
            enable_conditions(module, facts, left),
            enable_conditions(module, facts, right),
        ),
        _ => false,
    }
}

/// What is known of constants is right: the lowest bit of a known value tells
/// whether it holds, and every constant is known.
pub open spec fn constants_told(
    module: ModuleView,
    facts: Seq<Option<Seq<BitVal>>>,
    env: Env,
) -> bool {
    &&& forall|v: ValueId|
        known_truth(facts, v) is Some ==> #[trigger] truth(module, env, v) == known_truth(
            facts,
            v,
        )->0
    &&& forall|v: ValueId|
        module.has(v) && #[trigger] module.kind(v) is Constant ==> known_truth(facts, v) is Some
}

/// No disjunction of words drops a bit.
pub open spec fn disjunctions_keep_bits(module: ModuleView) -> bool {
    forall|v: ValueId|
        module.has(v) ==> match #[trigger] module.op_of(v) {
            Some(OpView::Binary { op: BinaryOp::BitOr, left, right }) => module.ty(left).width
                <= module.ty(v).width && module.ty(right).width <= module.ty(v).width,
            _ => true,
        }
}

pub open spec fn literals_hold(module: ModuleView, env: Env, literals: Seq<(ValueId, bool)>) -> bool {
    forall|i: int|
        0 <= i < literals.len() ==> module.has((#[trigger] literals[i]).0) && !(module.kind(
            literals[i].0,
        ) is Constant) && truth(module, env, literals[i].0) == literals[i].1
}

proof fn lemma_resized_any(bits: Seq<bool>, source: WordType, target: WordType)
    requires
        any_bit(resize_bits(bits, source, target)),
    ensures
        any_bit(bits),
{
    let wide = resize_bits(bits, source, target);
    let i = choose|i: int| 0 <= i < wide.len() && #[trigger] wide[i];
    if i < bits.len() {
        assert(bits[i]);
    } else {
        assert(bits[bits.len() - 1]);
    }
}

proof fn lemma_kept_any(bits: Seq<bool>, source: WordType, target: WordType)
    requires
        any_bit(bits),
        bits.len() <= target.width,
    ensures
        any_bit(resize_bits(bits, source, target)),
{
    let i = choose|i: int| 0 <= i < bits.len() && #[trigger] bits[i];
    assert(resize_bits(bits, source, target)[i]);
}

/// A condition that holds keeps conditions possible, and what it adds holds.
proof fn lemma_conjunction_holds(
    module: ModuleView,
    facts: Seq<Option<Seq<BitVal>>>,
    env: Env,
    value: ValueId,
    high: bool,
    start: Conjunction,
)
    requires
        module.wf(),
        module.has(value),
        constants_told(module, facts, env),
        disjunctions_keep_bits(module),
        truth(module, env, value) == high,
        !start.impossible,
        literals_hold(module, env, start.literals),
    ensures
        !conjunction(module, facts, value, high, start).impossible,
        literals_hold(module, env, conjunction(module, facts, value, high, start).literals),
    decreases value.raw,
{
    let made = conjunction(module, facts, value, high, start);
    if known_truth(facts, value) is Some {
        assert(truth(module, env, value) == known_truth(facts, value)->0);
    } else {
        assert(module.value_ok(value.raw as int));
        if module.op_of(value) is Some {
            lemma_eval_operation(module, env, value.raw as int);
            let operation = module.kind(value)->Operation_0;
            assert(module.operation_ok(operation.raw as int));
        }
        match module.op_of(value) {
            Some(OpView::Unary { op: UnaryOp::LogicalNot, arg }) => {
                assert(op_inputs(module.op_of(value)->0)[0] == arg);
                lemma_one_bit(word_of(module, env, value));
                lemma_conjunction_holds(module, facts, env, arg, !high, start);
            },
            Some(OpView::Binary { op, left, right }) => {
                let inputs = op_inputs(module.op_of(value)->0);
                assert(inputs[0] == left && inputs[1] == right);
                let ty = module.ty(value);
                let word = word_of(module, env, value);
                let first = word_of(module, env, left);
                let second = word_of(module, env, right);
                assert(word == binary_bits(
                    op,
                    first,
                    module.ty(left),
                    second,
                    module.ty(right),
                    ty,
                ));
                if (high && (op is LogicalAnd || op is BitAnd)) || (!high && (op is LogicalOr
                    || op is BitOr)) {
                    let l = resize_bits(first, module.ty(left), ty);
                    let r = resize_bits(second, module.ty(right), ty);
                    if op is LogicalAnd || op is LogicalOr {
                        lemma_one_bit(word);
                    } else if op is BitAnd {
                        let i = choose|i: int| 0 <= i < word.len() && #[trigger] word[i];
                        assert(l[i] && r[i]);
                        lemma_resized_any(first, module.ty(left), ty);
                        lemma_resized_any(second, module.ty(right), ty);
                    } else {
                        assert(module.op_of(value) is Some);
                        lemma_eval_width(module, env, left.raw as int);
                        lemma_eval_width(module, env, right.raw as int);
                        if any_bit(first) {
                            lemma_kept_any(first, module.ty(left), ty);
                            let i = choose|i: int| 0 <= i < l.len() && #[trigger] l[i];
                            assert(word[i]);
                        }
                        if any_bit(second) {
                            lemma_kept_any(second, module.ty(right), ty);
                            let i = choose|i: int| 0 <= i < r.len() && #[trigger] r[i];
                            assert(word[i]);
                        }
                    }
                    assert(truth(module, env, left) == high);
                    assert(truth(module, env, right) == high);
                    lemma_conjunction_holds(module, facts, env, left, high, start);
                    let middle = conjunction(module, facts, left, high, start);
                    lemma_conjunction_holds(module, facts, env, right, high, middle);
                } else {
                    lemma_with_literal(module, env, start, value, high);
                }
            },
            _ => {
                if module.kind(value) is Constant {
                    assert(false);
                }
                lemma_with_literal(module, env, start, value, high);
            },
        }
    }
}

proof fn lemma_with_literal(
    module: ModuleView,
    env: Env,
    start: Conjunction,
    value: ValueId,
    high: bool,
)
    requires
        module.wf(),
        module.has(value),
        !(module.kind(value) is Constant),
        truth(module, env, value) == high,
        !start.impossible,
        literals_hold(module, env, start.literals),
    ensures
        !with_literal(module, start, value, high).impossible,
        literals_hold(module, env, with_literal(module, start, value, high).literals),
{
    if has_literal(module, start.literals, value, !high) {
        let i = choose|i: int|
            0 <= i < start.literals.len() && (#[trigger] start.literals[i]).1 == !high
                && same_source(module, start.literals[i].0, value);
        same_sources_agree(module, env, start.literals[i].0, value);
        assert(false);
    }
}

/// Enables that exclude each other are never active at once.
pub proof fn exclusive_enables_never_meet(
    module: ModuleView,
    facts: Seq<Option<Seq<BitVal>>>,
    env: Env,
    left: Enable,
    right: Enable,
)
    requires
        module.wf(),
        module.has(left.value),
        module.has(right.value),
        constants_told(module, facts, env),
        disjunctions_keep_bits(module),
        enables_exclude(module, facts, Some(left), Some(right)),
    ensures
        !(enabled(module, env, left) && enabled(module, env, right)),
{
    if enabled(module, env, left) && enabled(module, env, right) {
        lemma_conjunction_holds(
            module,
            facts,
            env,
            left.value,
            left.active_high,
            no_condition(),
        );
        lemma_conjunction_holds(
            module,
            facts,
            env,
            right.value,
            right.active_high,
            no_condition(),
        );
        let first = enable_conditions(module, facts, left);
        let second = enable_conditions(module, facts, right);
        let i = choose|i: int|
            0 <= i < first.literals.len() && #[trigger] opposed(
                module,
                second.literals,
                first.literals[i],
            );
        let literal = first.literals[i];
        let j = choose|j: int|
            0 <= j < second.literals.len() && (#[trigger] second.literals[j]).1 == !literal.1
                && same_source(module, second.literals[j].0, literal.0);
        same_sources_agree(module, env, second.literals[j].0, literal.0);
        assert(false);
    }
}

fn find_literal(
    module: &WordModule,
    literals: &Vec<(ValueId, bool)>,
    value: ValueId,
    high: bool,
) -> (found: bool)
    ensures
        found == has_literal(module@, literals@, value, high),
{
    let mut i: usize = 0;
    while i < literals.len()
        invariant
            i <= literals@.len(),
            forall|k: int|
                0 <= k < i ==> !((#[trigger] literals@[k]).1 == high && same_source(
                    module@,
                    literals@[k].0,
                    value,
                )),
        decreases literals.len() - i,
    {
        if literals[i].1 == high && same_value(module, literals[i].0, value) {
            assert(literals@[i as int].1 == high);
            return true;
        }
        i += 1;
    }
    false
}

fn push_literal(
    module: &WordModule,
    value: ValueId,
    high: bool,
    result: &mut EnableConjunction,
)
    ensures
        final(result)@ == with_literal(module@, old(result)@, value, high),
{
    if find_literal(module, &result.literals, value, !high) {
        result.impossible = true;
    } else if !find_literal(module, &result.literals, value, high) {
        result.literals.push((value, high));
    }
}

fn collect_enable_conjunction(
    module: &WordModule,
    facts: &Vec<Option<ConstBits>>,
    value: ValueId,
    high: bool,
    result: &mut EnableConjunction,
)
    requires
        module@.wf(),
        module@.has(value),
    ensures
        final(result)@ == conjunction(module@, facts_view(facts@), value, high, old(result)@),
    decreases value.raw,
{
    if result.impossible {
        return;
    }
    if (value.raw as usize) < facts.len() {
        if let Some(constant) = &facts[value.raw as usize] {
            if let Some(bit) = constant.bit_lsb(0) {
                result.impossible = match bit {
                    BitVal::One => !high,
                    _ => high,
                };
                return;
            }
        }
    }
    assert(known_truth(facts_view(facts@), value) is None);
    assert(module@.value_ok(value.raw as int));
    match &module.values[value.raw as usize].kind {
        ValueKind::Operation(operation) => {
            proof {
                assert(module@.operation_ok(operation.raw as int));
            }
            match &module.operations[operation.raw as usize].kind {
                OpKind::Unary { op: UnaryOp::LogicalNot, arg } => {
                    assert(op_inputs(module@.op_of(value)->0)[0] == arg);
                    collect_enable_conjunction(module, facts, *arg, !high, result);
                },
                OpKind::Binary { op, left, right } => {
                    proof {
                        let inputs = op_inputs(module@.op_of(value)->0);
                        assert(inputs[0] == left && inputs[1] == right);
                    }
                    let joined: bool = match op {
                        BinaryOp::LogicalAnd | BinaryOp::BitAnd => high,
                        BinaryOp::LogicalOr | BinaryOp::BitOr => !high,
                        _ => false,
                    };
                    if joined {
                        collect_enable_conjunction(module, facts, *left, high, result);
                        collect_enable_conjunction(module, facts, *right, high, result);
                    } else {
                        push_literal(module, value, high, result);
                    }
                },
                _ => push_literal(module, value, high, result),
            }
        },
        _ => push_literal(module, value, high, result),
    }
}

fn enable_conjunction(module: &WordModule, facts: &Vec<Option<ConstBits>>, enable: Enable)
    -> (result: EnableConjunction)
    requires
        module@.wf(),
        module@.has(enable.value),
    ensures
        result@ == enable_conditions(module@, facts_view(facts@), enable),
{
    let mut result = EnableConjunction { impossible: false, literals: Vec::new() };
    assert(result@.literals =~= seq![]);
    collect_enable_conjunction(module, facts, enable.value, enable.active_high, &mut result);
    result
}

/// Whether two writes are never active at once, as far as their enables show.
pub fn write_enables_are_mutually_exclusive(
    module: &WordModule,
    facts: &Vec<Option<ConstBits>>,
    left: &MemoryWritePort,
    right: &MemoryWritePort,
) -> (exclusive: bool)
    requires
        module@.wf(),
        left.enable is Some ==> module@.has(left.enable->0.value),
        right.enable is Some ==> module@.has(right.enable->0.value),
    ensures
        exclusive == enables_exclude(module@, facts_view(facts@), left.enable, right.enable),
{
    let (first, second) = match (left.enable, right.enable) {
        (Some(first), Some(second)) => (first, second),
        _ => return false,
    };
    let first = enable_conjunction(module, facts, first);
    let second = enable_conjunction(module, facts, second);
    if first.impossible || second.impossible {
        return true;
    }
    let mut i: usize = 0;
    while i < first.literals.len()
        invariant
            i <= first.literals@.len(),
            forall|k: int|
                0 <= k < i ==> !#[trigger] opposed(
                    module@,
                    second.literals@,
                    first.literals@[k],
                ),
            left.enable is Some,
            right.enable is Some,
            first@ == enable_conditions(module@, facts_view(facts@), left.enable->0),
            second@ == enable_conditions(module@, facts_view(facts@), right.enable->0),
            !first.impossible,
            !second.impossible,
        decreases first.literals.len() - i,
    {
        let (value, high) = first.literals[i];
        if find_literal(module, &second.literals, value, !high) {
            assert(opposed(module@, second@.literals, first@.literals[i as int]));
            return true;
        }
        i += 1;
    }
    false
}

} // verus!
