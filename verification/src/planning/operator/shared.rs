//! One sum or difference in the place of several that exclude each other.

use super::sharing::{
    contradictory, exclusive_activations_never_meet, indexed, literals_hold, module_uses, way_up,
    Activation, Literal, UseIndex,
};
use crate::error::{Invariant, SynthError};
use crate::planning::regional::operation_provenance::OperationRewrite;
use crate::word::emit::{lemma_stable, lemma_stable_trans, ran_out, stable};
use crate::word::module::{
    binary_type, joined_type, KindView, ModuleView, ValueKind, WordModule,
};
use crate::word::semantics::{
    cast_bits, lemma_eval_operation, lemma_eval_width, resize_bits, word_of, zip_bits, Env,
};
use crate::word::types::{
    op_inputs, operation_inputs, BinaryOp, CastKind, OpId, OpKind, OpView, SourceSpan, UnaryOp,
    ValueId, WordType,
};
use super::redirect::{redirect_uses, uses_redirected};
use crate::word::resources::{kept, lemma_kept};
use vstd::prelude::*;

verus! {

#[derive(Clone, Copy, PartialEq, Eq, Structural, Debug)]
pub enum ArithmeticKind {
    Add,
    Subtract,
}

impl ArithmeticKind {
    pub open spec fn operator(self) -> BinaryOp {
        match self {
            ArithmeticKind::Add => BinaryOp::Add,
            ArithmeticKind::Subtract => BinaryOp::Sub,
        }
    }

    pub fn binary(self) -> (op: BinaryOp)
        ensures
            op == self.operator(),
    {
        match self {
            ArithmeticKind::Add => BinaryOp::Add,
            ArithmeticKind::Subtract => BinaryOp::Sub,
        }
    }
}

/// A sum or difference with the conditions under which it is needed.
#[derive(Debug)]
pub struct ShareCandidate {
    pub operation: OpId,
    pub result: ValueId,
    pub left: ValueId,
    pub right: ValueId,
    pub kind: ArithmeticKind,
    pub activation: Activation,
}

/// A candidate is an operation of a module, and its conditions are single bits.
pub open spec fn candidate_ok(module: ModuleView, candidate: ShareCandidate) -> bool {
    &&& candidate.operation.raw < module.operations.len()
    &&& module.operations[candidate.operation.raw as int].result == candidate.result
    &&& module.has(candidate.result)
    &&& module.op_of(candidate.result) == Some(
        OpView::Binary {
            op: candidate.kind.operator(),
            left: candidate.left,
            right: candidate.right,
        },
    )
    &&& module.has(candidate.left)
    &&& module.has(candidate.right)
    &&& module.ty(candidate.result) == joined_type(
        module.ty(candidate.left),
        module.ty(candidate.right),
    )
    &&& candidate.activation.literals@.len() > 0
    &&& forall|i: int|
        0 <= i < candidate.activation.literals@.len() ==> module.has(
            (#[trigger] candidate.activation.literals@[i]).condition,
        ) && module.ty(candidate.activation.literals@[i].condition).width == 1
}

pub open spec fn needed(module: ModuleView, env: Env, candidate: ShareCandidate) -> bool {
    literals_hold(module, env, candidate.activation.literals@)
}

/// Candidates that can share: of one kind and type, and never needed at once.
pub open spec fn can_share(module: ModuleView, left: ShareCandidate, right: ShareCandidate) -> bool {
    &&& left.kind == right.kind
    &&& module.ty(left.result) == module.ty(right.result)
    &&& contradictory(left.activation.literals@, right.activation.literals@)
}

pub open spec fn group_ok(module: ModuleView, group: Seq<ShareCandidate>) -> bool {
    &&& group.len() >= 2
    &&& forall|i: int| 0 <= i < group.len() ==> candidate_ok(module, #[trigger] group[i])
    &&& forall|i: int, j: int|
        0 <= i < j < group.len() ==> can_share(module, #[trigger] group[i], #[trigger] group[j])
}

/// A value goes into another.
pub open spec fn goes_into(module: ModuleView, source: ValueId, value: ValueId) -> bool
    decreases value.raw,
{
    value == source || match module.op_of(value) {
        Some(kind) => exists|i: int|
            0 <= i < op_inputs(kind).len() && op_inputs(kind)[i].raw < value.raw && goes_into(
                module,
                source,
                #[trigger] op_inputs(kind)[i],
            ),
        None => false,
    }
}

/// Which values something goes into.
fn mark_dependents(module: &WordModule, source: ValueId) -> (marked: Vec<bool>)
    requires
        module@.wf(),
    ensures
        marked@.len() == module@.values.len(),
        forall|v: int|
            0 <= v < marked@.len() ==> #[trigger] marked@[v] == goes_into(
                module@,
                source,
                ValueId { raw: v as u32 },
            ),
{
    let mut marked: Vec<bool> = Vec::new();
    let mut v: usize = 0;
    while v < module.values.len()
        invariant
            module@.wf(),
            v <= module@.values.len(),
            marked@.len() == v,
            forall|k: int|
                0 <= k < v ==> #[trigger] marked@[k] == goes_into(
                    module@,
                    source,
                    ValueId { raw: k as u32 },
                ),
        decreases module.values.len() - v,
    {
        let ghost id = ValueId { raw: v as u32 };
        let mut found: bool = source.raw as usize == v;
        assert(module@.value_ok(v as int));
        if let ValueKind::Operation(operation) = &module.values[v].kind {
            proof {
                assert(module@.operation_ok(operation.raw as int));
                assert(module@.operations[operation.raw as int].kind
                    == module.operations@[operation.raw as int].kind@);
            }
            let inputs = operation_inputs(&module.operations[operation.raw as usize].kind);
            let ghost kind = module@.op_of(id)->0;
            assert(inputs@ == op_inputs(kind));
            let mut i: usize = 0;
            while i < inputs.len()
                invariant
                    v < module@.values.len(),
                    module@.values.len() <= u32::MAX,
                    id == (ValueId { raw: v as u32 }),
                    module@.op_of(id) == Some(kind),
                    inputs@ == op_inputs(kind),
                    marked@.len() == v,
                    forall|k: int|
                        0 <= k < v ==> #[trigger] marked@[k] == goes_into(
                            module@,
                            source,
                            ValueId { raw: k as u32 },
                        ),
                    forall|k: int| 0 <= k < inputs@.len() ==> (#[trigger] inputs@[k]).raw < v,
                    i <= inputs@.len(),
                    found ==> goes_into(module@, source, id),
                    !found ==> id != source && forall|k: int|
                        0 <= k < i ==> !goes_into(module@, source, #[trigger] op_inputs(kind)[k]),
                decreases inputs.len() - i,
            {
                let input = inputs[i];
                assert(inputs@[i as int].raw < v);
                assert(marked@[input.raw as int] == goes_into(module@, source, input));
                if marked[input.raw as usize] {
                    found = true;
                    assert(goes_into(module@, source, op_inputs(kind)[i as int]));
                }
                i += 1;
            }
        }
        marked.push(found);
        v += 1;
    }
    marked
}

/// Whether a condition of a group depends on a result of it.
pub open spec fn guards_depend(module: ModuleView, group: Seq<ShareCandidate>) -> bool {
    exists|c: int, l: int, m: int|
        0 <= c < group.len() && 0 <= l < group[c].activation.literals@.len() && 0 <= m
            < group.len() && #[trigger] guard_depends(module, group, c, l, m)
}

pub open spec fn guard_depends(
    module: ModuleView,
    group: Seq<ShareCandidate>,
    candidate: int,
    literal: int,
    member: int,
) -> bool {
    goes_into(
        module,
        group[member].result,
        group[candidate].activation.literals@[literal].condition,
    )
}

fn guard_depends_on_group(module: &WordModule, group: &Vec<ShareCandidate>) -> (depends: bool)
    requires
        module@.wf(),
        forall|i: int| 0 <= i < group@.len() ==> candidate_ok(module@, #[trigger] group@[i]),
    ensures
        depends == guards_depend(module@, group@),
{
    let mut m: usize = 0;
    while m < group.len()
        invariant
            module@.wf(),
            forall|i: int| 0 <= i < group@.len() ==> candidate_ok(module@, #[trigger] group@[i]),
            m <= group@.len(),
            forall|c: int, l: int, k: int|
                0 <= c < group@.len() && 0 <= l < group@[c].activation.literals@.len() && 0 <= k < m
                    ==> !#[trigger] guard_depends(module@, group@, c, l, k),
        decreases group.len() - m,
    {
        let marked = mark_dependents(module, group[m].result);
        let mut c: usize = 0;
        while c < group.len()
            invariant
                m < group@.len(),
                forall|i: int|
                    0 <= i < group@.len() ==> candidate_ok(module@, #[trigger] group@[i]),
                marked@.len() == module@.values.len(),
                forall|v: int|
                    0 <= v < marked@.len() ==> #[trigger] marked@[v] == goes_into(
                        module@,
                        group@[m as int].result,
                        ValueId { raw: v as u32 },
                    ),
                c <= group@.len(),
                forall|k: int, l: int|
                    0 <= k < c && 0 <= l < group@[k].activation.literals@.len()
                        ==> !#[trigger] guard_depends(module@, group@, k, l, m as int),
            decreases group.len() - c,
        {
            let literals = &group[c].activation.literals;
            assert(candidate_ok(module@, group@[c as int]));
            let mut l: usize = 0;
            while l < literals.len()
                invariant
                    m < group@.len(),
                    c < group@.len(),
                    candidate_ok(module@, group@[c as int]),
                    literals@ == group@[c as int].activation.literals@,
                    marked@.len() == module@.values.len(),
                    forall|v: int|
                        0 <= v < marked@.len() ==> #[trigger] marked@[v] == goes_into(
                            module@,
                            group@[m as int].result,
                            ValueId { raw: v as u32 },
                        ),
                    l <= literals@.len(),
                    forall|k: int|
                        0 <= k < l ==> !#[trigger] guard_depends(
                            module@,
                            group@,
                            c as int,
                            k,
                            m as int,
                        ),
                decreases literals.len() - l,
            {
                let condition = literals[l].condition;
                assert(module@.has(group@[c as int].activation.literals@[l as int].condition));
                assert(marked@[condition.raw as int] == goes_into(
                    module@,
                    group@[m as int].result,
                    condition,
                ));
                if marked[condition.raw as usize] {
                    assert(guard_depends(module@, group@, c as int, l as int, m as int));
                    return true;
                }
                assert(!guard_depends(module@, group@, c as int, l as int, m as int));
                l += 1;
            }
            c += 1;
        }
        m += 1;
    }
    false
}

/// A word of another type, as an operand of that type has it.
fn resize_operand(module: &mut WordModule, value: ValueId, target: WordType, source: SourceSpan)
    -> (result: Result<ValueId, SynthError>)
    requires
        old(module)@.wf(),
        old(module)@.has(value),
        target.width >= 1,
        target.signed ==> old(module)@.ty(value).signed,
    ensures
        stable(old(module)@, final(module)@),
        result matches Err(error) ==> ran_out(final(module)@, error),
        result matches Ok(changed) ==> {
            &&& final(module)@.has(changed)
            &&& final(module)@.ty(changed) == target
            &&& forall|env: Env| #[trigger]
                word_of(final(module)@, env, changed) == resize_bits(
                    word_of(old(module)@, env, value),
                    old(module)@.ty(value),
                    target,
                )
        },
{
    let ghost start = module@;
    proof {
        lemma_stable(start, start);
    }
    let ty = module.values[value.raw as usize].ty;
    if ty == target {
        proof {
            assert forall|env: Env| #[trigger] word_of(start, env, value) == resize_bits(
                word_of(start, env, value),
                ty,
                target,
            ) by {
                lemma_eval_width(start, env, value.raw as int);
                assert(word_of(start, env, value) =~= resize_bits(
                    word_of(start, env, value),
                    ty,
                    target,
                ));
            }
        }
        return Ok(value);
    }
    let kind: CastKind = if ty.width < target.width {
        if target.signed {
            CastKind::SignExtend
        } else {
            CastKind::ZeroExtend
        }
    } else {
        CastKind::Truncate
    };
    let changed = module.emit_cast(kind, value, target, source);
    proof {
        if changed is Ok {
            assert forall|env: Env| #[trigger] word_of(module@, env, changed->Ok_0) == resize_bits(
                word_of(start, env, value),
                ty,
                target,
            ) by {
                lemma_eval_width(start, env, value.raw as int);
                assert(cast_bits(kind, word_of(start, env, value), target) =~= resize_bits(
                    word_of(start, env, value),
                    ty,
                    target,
                ));
            }
        }
    }
    changed
}

/// A condition that an activation holds.
#[verifier::rlimit(30)]
fn materialize_activation(module: &mut WordModule, activation: &Activation, source: SourceSpan)
    -> (result: Result<ValueId, SynthError>)
    requires
        old(module)@.wf(),
        activation.literals@.len() > 0,
        forall|i: int|
            0 <= i < activation.literals@.len() ==> old(module)@.has(
                (#[trigger] activation.literals@[i]).condition,
            ) && old(module)@.ty(activation.literals@[i].condition).width == 1,
    ensures
        stable(old(module)@, final(module)@),
        result matches Err(error) ==> ran_out(final(module)@, error),
        result matches Ok(value) ==> {
            &&& final(module)@.has(value)
            &&& final(module)@.ty(value).width == 1
            &&& forall|env: Env| #[trigger]
                word_of(final(module)@, env, value) == seq![
                    literals_hold(old(module)@, env, activation.literals@),
                ]
        },
{
    let ghost start = module@;
    let ghost all = activation.literals@;
    proof {
        lemma_stable(start, start);
    }
    let mut held: Option<ValueId> = None;
    let mut i: usize = 0;
    while i < activation.literals.len()
        invariant
            start == old(module)@,
            all == activation.literals@,
            stable(start, module@),
            forall|i: int|
                0 <= i < all.len() ==> start.has((#[trigger] all[i]).condition) && start.ty(
                    all[i].condition,
                ).width == 1,
            i <= all.len(),
            held is Some <==> i > 0,
            held matches Some(value) ==> {
                &&& module@.has(value)
                &&& module@.ty(value).width == 1
                &&& forall|env: Env| #[trigger]
                    word_of(module@, env, value) == seq![
                        literals_hold(start, env, all.take(i as int)),
                    ]
            },
        decreases activation.literals.len() - i,
    {
        let ghost before = module@;
        let literal = activation.literals[i];
        assert(start.has(all[i as int].condition));
        let term = if literal.positive {
            literal.condition
        } else {
            match module.emit_unary(UnaryOp::BitNot, literal.condition, source) {
                Ok(term) => term,
                Err(error) => {
                    proof {
                        lemma_stable_trans(start, before, module@);
                    }
                    return Err(error);
                },
            }
        };
        let ghost middle = module@;
        proof {
            if literal.positive {
                lemma_stable(before, middle);
            }
            lemma_stable_trans(start, before, middle);
            assert forall|env: Env| #[trigger] word_of(middle, env, term) == seq![
                word_of(start, env, literal.condition)[0] == literal.positive,
            ] by {
                lemma_eval_width(start, env, literal.condition.raw as int);
                assert(word_of(before, env, literal.condition) == word_of(
                    start,
                    env,
                    literal.condition,
                ));
                let word = word_of(start, env, literal.condition);
                assert(word_of(middle, env, term) =~= seq![word[0] == literal.positive]);
            }
        }
        match held {
            None => {
                held = Some(term);
                proof {
                    assert forall|env: Env| #[trigger] word_of(middle, env, term) == seq![
                        literals_hold(start, env, all.take(i + 1)),
                    ] by {
                        assert(all.take(i + 1)[0] == literal);
                        assert(literals_hold(start, env, all.take(i + 1)) == (word_of(
                            start,
                            env,
                            literal.condition,
                        )[0] == literal.positive));
                    }
                }
            },
            Some(past) => {
                proof {
                    assert(middle.ty(past) == before.ty(past));
                }
                let both = match module.emit_binary(BinaryOp::BitAnd, past, term, source) {
                    Ok(both) => both,
                    Err(error) => {
                        proof {
                            lemma_stable_trans(start, middle, module@);
                        }
                        return Err(error);
                    },
                };
                held = Some(both);
                proof {
                    lemma_stable_trans(start, middle, module@);
                    assert forall|env: Env| #[trigger] word_of(module@, env, both) == seq![
                        literals_hold(start, env, all.take(i + 1)),
                    ] by {
                        assert(word_of(middle, env, past) == word_of(before, env, past));
                        let a = literals_hold(start, env, all.take(i as int));
                        let b = word_of(start, env, literal.condition)[0] == literal.positive;
                        assert(word_of(middle, env, past) == seq![a]);
                        assert(word_of(middle, env, term) == seq![b]);
                        let ty = binary_type(BinaryOp::BitAnd, middle.ty(past), middle.ty(term));
                        assert(resize_bits(seq![a], middle.ty(past), ty) =~= seq![a]);
                        assert(resize_bits(seq![b], middle.ty(term), ty) =~= seq![b]);
                        assert(zip_bits(seq![a], seq![b], |x: bool, y: bool| x && y) =~= seq![
                            a && b,
                        ]);
                        let more = all.take(i + 1);
                        let fewer = all.take(i as int);
                        assert(more[i as int] == literal);
                        assert forall|k: int| 0 <= k < i implies #[trigger] fewer[k] == more[k] by {}
                        if a && b {
                            assert forall|k: int| 0 <= k < more.len() implies word_of(
                                start,
                                env,
                                (#[trigger] more[k]).condition,
                            )[0] == more[k].positive by {
                                if k < i {
                                    assert(fewer[k] == more[k]);
                                }
                            }
                        }
                        if literals_hold(start, env, more) {
                            assert forall|k: int| 0 <= k < fewer.len() implies word_of(
                                start,
                                env,
                                (#[trigger] fewer[k]).condition,
                            )[0] == fewer[k].positive by {
                                assert(fewer[k] == more[k]);
                            }
                        }
                    }
                }
            },
        }
        i += 1;
    }
    assert(all.take(i as int) =~= all);
    match held {
        Some(value) => Ok(value),
        None => Err(SynthError::Invariant(Invariant::NoCandidate)),
    }
}

/// The only member of a group that is needed.
pub open spec fn only_needed(
    module: ModuleView,
    env: Env,
    group: Seq<ShareCandidate>,
    index: int,
) -> bool {
    &&& 0 <= index < group.len()
    &&& needed(module, env, group[index])
    &&& forall|j: int|
        0 <= j < group.len() && j != index ==> !needed(module, env, #[trigger] group[j])
}

/// In a group, a member that is needed is the only one.
pub proof fn one_member_is_needed(
    module: ModuleView,
    env: Env,
    group: Seq<ShareCandidate>,
    index: int,
)
    requires
        group_ok(module, group),
        0 <= index < group.len(),
        needed(module, env, group[index]),
    ensures
        only_needed(module, env, group, index),
{
    assert forall|j: int| 0 <= j < group.len() && j != index implies !needed(
        module,
        env,
        #[trigger] group[j],
    ) by {
        let (a, b) = if j < index {
            (j, index)
        } else {
            (index, j)
        };
        assert(can_share(module, group[a], group[b]));
        exclusive_activations_never_meet(
            module,
            env,
            group[a].activation.literals@,
            group[b].activation.literals@,
        );
    }
}

/// A value stands for an operand of whichever of the members from one on is
/// needed.
spec fn selects_operand(
    start: ModuleView,
    module: ModuleView,
    group: Seq<ShareCandidate>,
    from: int,
    left: bool,
    ty: WordType,
    value: ValueId,
) -> bool {
    forall|env: Env, k: int|
        from <= k < group.len() && #[trigger] only_needed(start, env, group, k) ==> word_of(
            module,
            env,
            value,
        ) == resize_bits(
            word_of(start, env, operand(group[k], left)),
            start.ty(operand(group[k], left)),
            ty,
        )
}

spec fn operand(candidate: ShareCandidate, left: bool) -> ValueId {
    if left {
        candidate.left
    } else {
        candidate.right
    }
}

/// Chooses the operand of a member where it is needed.
#[verifier::rlimit(30)]
fn choose_operand(
    module: &mut WordModule,
    guard: ValueId,
    value: ValueId,
    selected: ValueId,
    ty: WordType,
    source: SourceSpan,
    Ghost(start): Ghost<ModuleView>,
    Ghost(group): Ghost<Seq<ShareCandidate>>,
    Ghost(index): Ghost<int>,
    Ghost(left): Ghost<bool>,
) -> (result: Result<ValueId, SynthError>)
    requires
        stable(start, old(module)@),
        ty.width >= 1,
        0 <= index < group.len(),
        start.has(value),
        value == operand(group[index], left),
        ty.signed ==> start.ty(value).signed,
        old(module)@.has(guard),
        old(module)@.ty(guard).width == 1,
        forall|env: Env| #[trigger]
            word_of(old(module)@, env, guard) == seq![needed(start, env, group[index])],
        old(module)@.has(selected),
        old(module)@.ty(selected) == ty,
        selects_operand(start, old(module)@, group, index + 1, left, ty, selected),
    ensures
        stable(old(module)@, final(module)@),
        result matches Err(error) ==> ran_out(final(module)@, error),
        result matches Ok(made) ==> {
            &&& final(module)@.has(made)
            &&& final(module)@.ty(made) == ty
            &&& selects_operand(start, final(module)@, group, index, left, ty, made)
        },
{
    let ghost before = module@;
    let resized = match resize_operand(module, value, ty, source) {
        Ok(resized) => resized,
        Err(error) => return Err(error),
    };
    let ghost middle = module@;
    proof {
        assert(middle.ty(guard) == before.ty(guard));
        assert(middle.ty(selected) == before.ty(selected));
    }
    let made = module.emit_mux(guard, resized, selected, source);
    proof {
        lemma_stable_trans(before, middle, module@);
        if made is Ok {
            assert forall|env: Env, k: int|
                index <= k < group.len() && #[trigger] only_needed(start, env, group, k) implies word_of(
                module@,
                env,
                made->Ok_0,
            ) == resize_bits(
                word_of(start, env, operand(group[k], left)),
                start.ty(operand(group[k], left)),
                ty,
            ) by {
                assert(word_of(middle, env, guard) == word_of(before, env, guard));
                assert(word_of(middle, env, selected) == word_of(before, env, selected));
                assert(word_of(before, env, value) == word_of(start, env, value));
                assert(before.ty(value) == start.ty(value));
                if k > index {
                    assert(!needed(start, env, group[index]));
                }
            }
        }
    }
    made
}

/// One operation for a whole group: it gives the result of the member that is
/// needed.
#[verifier::rlimit(60)]
#[verifier::spinoff_prover]
fn materialize_group(module: &mut WordModule, group: &Vec<ShareCandidate>) -> (result: Result<
    ValueId,
    SynthError,
>)
    requires
        old(module)@.wf(),
        group_ok(old(module)@, group@),
    ensures
        stable(old(module)@, final(module)@),
        result matches Err(error) ==> ran_out(final(module)@, error),
        result matches Ok(shared) ==> {
            &&& final(module)@.has(shared)
            &&& shared_value(old(module)@, final(module)@, group@, shared)
        },
{
    let ghost start = module@;
    let last = group.len() - 1;
    proof {
        lemma_stable(start, start);
        assert forall|i: int| 0 <= i < group@.len() implies group@[i].kind == group@[last as int].kind
            && start.ty(group@[i].result) == start.ty(group@[last as int].result) by {
            if i < last {
                assert(can_share(start, group@[i], group@[last as int]));
            }
        }
        assert(candidate_ok(start, group@[last as int]));
        assert(candidate_ok(start, group@[0]));
    }
    let ty = module.values[group[last].result.raw as usize].ty;
    assert(start.value_ok(group@[last as int].result.raw as int));
    let source = module.operations[group[0].operation.raw as usize].source;
    let mut left = match resize_operand(module, group[last].left, ty, source) {
        Ok(left) => left,
        Err(error) => return Err(error),
    };
    let ghost first = module@;
    let mut right = match resize_operand(module, group[last].right, ty, source) {
        Ok(right) => right,
        Err(error) => {
            proof {
                lemma_stable_trans(start, first, module@);
            }
            return Err(error);
        },
    };
    proof {
        lemma_stable_trans(start, first, module@);
        assert(module@.ty(left) == first.ty(left));
        assert(selects_operand(start, module@, group@, last as int, true, ty, left)) by {
            assert forall|env: Env, k: int|
                last <= k < group@.len() && #[trigger] only_needed(start, env, group@, k) implies word_of(
                module@,
                env,
                left,
            ) == resize_bits(
                word_of(start, env, operand(group@[k], true)),
                start.ty(operand(group@[k], true)),
                ty,
            ) by {
                assert(word_of(module@, env, left) == word_of(first, env, left));
            }
        }
        assert(selects_operand(start, module@, group@, last as int, false, ty, right)) by {
            assert forall|env: Env, k: int|
                last <= k < group@.len() && #[trigger] only_needed(start, env, group@, k) implies word_of(
                module@,
                env,
                right,
            ) == resize_bits(
                word_of(start, env, operand(group@[k], false)),
                start.ty(operand(group@[k], false)),
                ty,
            ) by {
                let value = group@[last as int].right;
                assert(word_of(first, env, value) == word_of(start, env, value));
                assert(first.ty(value) == start.ty(value));
            }
        }
    }
    let mut i: usize = last;
    while i > 0
        invariant
            start == old(module)@,
            stable(start, module@),
            group_ok(start, group@),
            ty.width >= 1,
            forall|k: int|
                0 <= k < group@.len() ==> start.ty((#[trigger] group@[k]).result) == ty,
            i < group@.len(),
            module@.has(left),
            module@.ty(left) == ty,
            module@.has(right),
            module@.ty(right) == ty,
            selects_operand(start, module@, group@, i as int, true, ty, left),
            selects_operand(start, module@, group@, i as int, false, ty, right),
        decreases i,
    {
        i -= 1;
        let ghost before = module@;
        let candidate = &group[i];
        proof {
            assert(candidate_ok(start, group@[i as int]));
            assert(start.ty(group@[i as int].result) == ty);
            assert forall|k: int| 0 <= k < candidate.activation.literals@.len() implies before.has(
                (#[trigger] candidate.activation.literals@[k]).condition,
            ) && before.ty(candidate.activation.literals@[k].condition).width == 1 by {
                assert(start.has(candidate.activation.literals@[k].condition));
            }
        }
        let guard = match materialize_activation(module, &candidate.activation, source) {
            Ok(guard) => guard,
            Err(error) => {
                proof {
                    lemma_stable_trans(start, before, module@);
                }
                return Err(error);
            },
        };
        let ghost guarded = module@;
        proof {
            lemma_stable_trans(start, before, guarded);
            assert forall|env: Env| #[trigger] word_of(guarded, env, guard) == seq![
                needed(start, env, group@[i as int]),
            ] by {
                lemma_needed_stable(start, before, env, *candidate);
            }
            assert(guarded.ty(left) == before.ty(left) && guarded.ty(right) == before.ty(right));
            lemma_selects_stable(start, before, guarded, group@, i + 1, true, ty, left);
            lemma_selects_stable(start, before, guarded, group@, i + 1, false, ty, right);
        }
        left = match choose_operand(
            module,
            guard,
            candidate.left,
            left,
            ty,
            source,
            Ghost(start),
            Ghost(group@),
            Ghost(i as int),
            Ghost(true),
        ) {
            Ok(left) => left,
            Err(error) => {
                proof {
                    lemma_stable_trans(start, guarded, module@);
                }
                return Err(error);
            },
        };
        let ghost half = module@;
        proof {
            lemma_stable_trans(start, guarded, half);
            assert(half.ty(guard) == guarded.ty(guard));
            assert(half.ty(right) == guarded.ty(right));
            lemma_selects_stable(start, guarded, half, group@, i + 1, false, ty, right);
            assert forall|env: Env| #[trigger] word_of(half, env, guard) == seq![
                needed(start, env, group@[i as int]),
            ] by {
                assert(word_of(half, env, guard) == word_of(guarded, env, guard));
            }
        }
        right = match choose_operand(
            module,
            guard,
            candidate.right,
            right,
            ty,
            source,
            Ghost(start),
            Ghost(group@),
            Ghost(i as int),
            Ghost(false),
        ) {
            Ok(right) => right,
            Err(error) => {
                proof {
                    lemma_stable_trans(start, half, module@);
                }
                return Err(error);
            },
        };
        proof {
            lemma_stable_trans(start, half, module@);
            assert(module@.ty(left) == half.ty(left));
            lemma_selects_stable(start, half, module@, group@, i as int, true, ty, left);
        }
    }
    let ghost chosen = module@;
    let op = group[last].kind.binary();
    let shared = module.emit_binary(op, left, right, source);
    proof {
        lemma_stable_trans(start, chosen, module@);
        if shared is Ok {
            assert forall|env: Env, k: int| #[trigger] only_needed(start, env, group@, k) implies word_of(
                module@,
                env,
                shared->Ok_0,
            ) == word_of(start, env, group@[k].result) by {
                let member = group@[k];
                assert(candidate_ok(start, member));
                lemma_eval_operation(start, env, member.result.raw as int);
                let l = resize_bits(
                    word_of(start, env, member.left),
                    start.ty(member.left),
                    ty,
                );
                let r = resize_bits(
                    word_of(start, env, member.right),
                    start.ty(member.right),
                    ty,
                );
                assert(word_of(chosen, env, left) == l);
                assert(word_of(chosen, env, right) == r);
                assert(binary_type(op, ty, ty) == ty);
                assert(resize_bits(l, ty, ty) =~= l);
                assert(resize_bits(r, ty, ty) =~= r);
                assert(start.ty(member.result) == ty);
            }
        }
    }
    shared
}

/// A value gives the result of the member of a group that is needed.
pub open spec fn shared_value(
    start: ModuleView,
    module: ModuleView,
    group: Seq<ShareCandidate>,
    shared: ValueId,
) -> bool {
    forall|env: Env, k: int| #[trigger]
        only_needed(start, env, group, k) ==> word_of(module, env, shared) == word_of(
            start,
            env,
            group[k].result,
        )
}

proof fn lemma_needed_stable(
    before: ModuleView,
    after: ModuleView,
    env: Env,
    candidate: ShareCandidate,
)
    requires
        stable(before, after),
        candidate_ok(before, candidate),
    ensures
        needed(after, env, candidate) == needed(before, env, candidate),
{
    let literals = candidate.activation.literals@;
    assert forall|i: int| 0 <= i < literals.len() implies word_of(
        after,
        env,
        (#[trigger] literals[i]).condition,
    ) == word_of(before, env, literals[i].condition) by {
        assert(before.has(literals[i].condition));
    }
}

proof fn lemma_selects_stable(
    start: ModuleView,
    before: ModuleView,
    after: ModuleView,
    group: Seq<ShareCandidate>,
    from: int,
    left: bool,
    ty: WordType,
    value: ValueId,
)
    requires
        stable(before, after),
        before.has(value),
        selects_operand(start, before, group, from, left, ty, value),
    ensures
        selects_operand(start, after, group, from, left, ty, value),
{
    assert forall|env: Env, k: int|
        from <= k < group.len() && #[trigger] only_needed(start, env, group, k) implies word_of(
        after,
        env,
        value,
    ) == resize_bits(
        word_of(start, env, operand(group[k], left)),
        start.ty(operand(group[k], left)),
        ty,
    ) by {
        assert(word_of(after, env, value) == word_of(before, env, value));
    }
}

impl ShareCandidate {
    fn copy(&self) -> (copied: Self)
        ensures
            copied.operation == self.operation,
            copied.result == self.result,
            copied.left == self.left,
            copied.right == self.right,
            copied.kind == self.kind,
            copied.activation.literals@ == self.activation.literals@,
    {
        ShareCandidate {
            operation: self.operation,
            result: self.result,
            left: self.left,
            right: self.right,
            kind: self.kind,
            activation: self.activation.copy(),
        }
    }
}

/// Whether an operation with an activation can be a candidate.
fn make_candidate(module: &WordModule, operation: OpId, activation: Activation) -> (candidate: Option<
    ShareCandidate,
>)
    requires
        module@.wf(),
        operation.raw < module@.operations.len(),
        activation.literals@.len() > 0,
    ensures
        candidate matches Some(made) ==> candidate_ok(module@, made) && made.operation == operation
            && made.activation == activation,
        candidate is Some <==> is_arithmetic(module@, operation.raw as int) && conditions_known(
            module@,
            activation.literals@,
        ),
{
    proof {
        assert(module@.operation_ok(operation.raw as int));
        assert(module@.operations[operation.raw as int].kind
            == module.operations@[operation.raw as int].kind@);
    }
    let stored = &module.operations[operation.raw as usize];
    let ghost kind_view = stored.kind@;
    let result = stored.result;
    let (kind, left, right) = match &stored.kind {
        OpKind::Binary { op: BinaryOp::Add, left, right } => (ArithmeticKind::Add, *left, *right),
        OpKind::Binary { op: BinaryOp::Sub, left, right } => {
            (ArithmeticKind::Subtract, *left, *right)
        },
        _ => return None,
    };
    proof {
        let inputs = op_inputs(kind_view);
        assert(inputs[0] == left && inputs[1] == right);
        assert(module@.value_ok(result.raw as int));
    }
    let own: bool = match &module.values[result.raw as usize].kind {
        ValueKind::Operation(held) => held.raw == operation.raw,
        _ => false,
    };
    if !own {
        return None;
    }
    assert(module@.op_of(result) == Some(kind_view));
    let first = module.values[left.raw as usize].ty;
    let second = module.values[right.raw as usize].ty;
    let ty = module.values[result.raw as usize].ty;
    let state = match first.state {
        crate::word::types::LogicStateKind::FourState => first.state,
        _ => second.state,
    };
    let width: u32 = if first.width >= second.width {
        first.width
    } else {
        second.width
    };
    if ty.width != width || ty.signed != (first.signed && second.signed) || ty.state != state {
        return None;
    }
    let mut i: usize = 0;
    while i < activation.literals.len()
        invariant
            i <= activation.literals@.len(),
            forall|k: int|
                0 <= k < i ==> module@.has((#[trigger] activation.literals@[k]).condition)
                    && module@.ty(activation.literals@[k].condition).width == 1,
        decreases activation.literals.len() - i,
    {
        let condition = activation.literals[i].condition;
        if condition.raw as usize >= module.values.len() || module.values[
            condition.raw as usize].ty.width != 1 {
            assert(!(module@.has(activation.literals@[i as int].condition) && module@.ty(
                activation.literals@[i as int].condition,
            ).width == 1));
            return None;
        }
        i += 1;
    }
    Some(ShareCandidate { operation, result, left, right, kind, activation })
}

pub open spec fn candidates_ok(module: ModuleView, candidates: Seq<ShareCandidate>) -> bool {
    &&& forall|i: int| 0 <= i < candidates.len() ==> candidate_ok(module, #[trigger] candidates[i])
    &&& forall|i: int, j: int|
        0 <= i < j < candidates.len() ==> (#[trigger] candidates[i]).operation.raw < (
        #[trigger] candidates[j]).operation.raw
}

/// An operation is a sum or a difference that nothing else stands for, of the type
/// that its operands give it.
pub open spec fn is_arithmetic(module: ModuleView, i: int) -> bool {
    let operation = module.operations[i];
    &&& operation.kind matches OpView::Binary { op, left, right }
    &&& op is Add || op is Sub
    &&& module.values[operation.result.raw as int].kind == KindView::Operation(
        OpId { raw: i as u32 },
    )
    &&& module.ty(operation.result) == joined_type(module.ty(left), module.ty(right))
}

/// Conditions are single bits of the module.
pub open spec fn conditions_known(module: ModuleView, literals: Seq<Literal>) -> bool {
    forall|k: int|
        0 <= k < literals.len() ==> module.has((#[trigger] literals[k]).condition) && module.ty(
            literals[k].condition,
        ).width == 1
}

/// The conditions under which the result of an operation is needed.
pub open spec fn way_of(module: ModuleView, uses: UseIndex, i: int) -> Option<Seq<Literal>> {
    way_up(uses.rows@, module.operations[i].result, uses.rows@.len())
}

/// A sum or difference that is needed under conditions only.
pub open spec fn qualifies(module: ModuleView, uses: UseIndex, i: int) -> bool {
    &&& is_arithmetic(module, i)
    &&& way_of(module, uses, i) matches Some(literals)
    &&& literals.len() > 0
    &&& !contradictory(literals, literals)
    &&& conditions_known(module, literals)
}

/// The activation of a candidate holds the conditions on its way.
pub open spec fn activated(module: ModuleView, uses: UseIndex, candidate: ShareCandidate) -> bool {
    &&& way_of(module, uses, candidate.operation.raw as int) matches Some(literals)
    &&& forall|literal: Literal| #[trigger]
        candidate.activation.literals@.contains(literal) <==> literals.contains(literal)
}

/// Candidates in order, up to an operation: all that qualify, and no others.
pub open spec fn lists_candidates(
    module: ModuleView,
    uses: UseIndex,
    candidates: Seq<ShareCandidate>,
    count: int,
) -> bool {
    &&& candidates_ok(module, candidates)
    &&& forall|k: int|
        0 <= k < candidates.len() ==> (#[trigger] candidates[k]).operation.raw < count && activated(
            module,
            uses,
            candidates[k],
        )
    &&& forall|i: int|
        0 <= i < count ==> (#[trigger] qualifies(module, uses, i) <==> has_candidate(candidates, i))
}

pub open spec fn has_candidate(candidates: Seq<ShareCandidate>, i: int) -> bool {
    exists|k: int| 0 <= k < candidates.len() && (#[trigger] candidates[k]).operation.raw == i
}

/// Two lists of conditions with the same members are known together.
proof fn lemma_same_conditions(module: ModuleView, left: Seq<Literal>, right: Seq<Literal>)
    requires
        forall|literal: Literal| #[trigger] left.contains(literal) <==> right.contains(literal),
    ensures
        conditions_known(module, left) == conditions_known(module, right),
{
    if conditions_known(module, left) {
        assert forall|k: int| 0 <= k < right.len() implies module.has(
            (#[trigger] right[k]).condition,
        ) && module.ty(right[k].condition).width == 1 by {
            assert(right.contains(right[k]));
            assert(left.contains(right[k]));
            let j = choose|j: int| 0 <= j < left.len() && left[j] == right[k];
            assert(module.has(left[j].condition));
        }
    }
    if conditions_known(module, right) {
        assert forall|k: int| 0 <= k < left.len() implies module.has(
            (#[trigger] left[k]).condition,
        ) && module.ty(left[k].condition).width == 1 by {
            assert(left.contains(left[k]));
            assert(right.contains(left[k]));
            let j = choose|j: int| 0 <= j < right.len() && right[j] == left[k];
            assert(module.has(right[j].condition));
        }
    }
}

/// The sums and differences that are needed under conditions only.
fn find_candidates(module: &WordModule, uses: &UseIndex) -> (candidates: Vec<ShareCandidate>)
    requires
        module@.wf(),
    ensures
        lists_candidates(
            module@,
            *uses,
            candidates@,
            module@.operations.len() as int,
        ),
{
    let mut candidates: Vec<ShareCandidate> = Vec::new();
    let mut i: usize = 0;
    while i < module.operations.len()
        invariant
            module@.wf(),
            i <= module@.operations.len(),
            lists_candidates(module@, *uses, candidates@, i as int),
        decreases module.operations.len() - i,
    {
        let ghost before = candidates@;
        assert(module@.operation_ok(i as int));
        assert(module@.operations[i as int].result == module.operations@[i as int].result);
        let result = module.operations[i].result;
        match uses.activation(result) {
            Some(activation) => {
                proof {
                    lemma_same_conditions(
                        module@,
                        activation.literals@,
                        way_of(module@, *uses, i as int)->0,
                    );
                    let literals = way_of(module@, *uses, i as int)->0;
                    assert(activation.literals@.contains(activation.literals@[0]));
                    assert(literals.len() > 0);
                }
                if let Some(candidate) = make_candidate(
                    module,
                    OpId { raw: i as u32 },
                    activation,
                ) {
                    candidates.push(candidate);
                    assert(candidates@[before.len() as int].operation.raw == i);
                    assert(has_candidate(candidates@, i as int));
                    assert(qualifies(module@, *uses, i as int));
                } else {
                    assert(!qualifies(module@, *uses, i as int));
                }
            },
            None => {
                assert(!qualifies(module@, *uses, i as int));
            },
        }
        proof {
            assert forall|j: int| 0 <= j < i + 1 implies (#[trigger] qualifies(module@, *uses, j)
                <==> has_candidate(candidates@, j)) by {
                if j < i {
                    assert(qualifies(module@, *uses, j) <==> has_candidate(before, j));
                    if has_candidate(before, j) {
                        let k = choose|k: int|
                            0 <= k < before.len() && (#[trigger] before[k]).operation.raw == j;
                        assert(candidates@[k].operation.raw == j);
                    }
                    if has_candidate(candidates@, j) {
                        let k = choose|k: int|
                            0 <= k < candidates@.len() && (
                            #[trigger] candidates@[k]).operation.raw == j;
                        assert(k < before.len());
                        assert(before[k].operation.raw == j);
                    }
                }
            }
        }
        i += 1;
    }
    candidates
}

/// Whether a candidate can share with all members of a group.
fn fits_group(module: &WordModule, group: &Vec<ShareCandidate>, candidate: &ShareCandidate)
    -> (fits: bool)
    requires
        candidate_ok(module@, *candidate),
        forall|i: int| 0 <= i < group@.len() ==> candidate_ok(module@, #[trigger] group@[i]),
    ensures
        fits == forall|i: int|
            0 <= i < group@.len() ==> can_share(module@, #[trigger] group@[i], *candidate),
{
    let mut i: usize = 0;
    while i < group.len()
        invariant
            candidate_ok(module@, *candidate),
            forall|i: int| 0 <= i < group@.len() ==> candidate_ok(module@, #[trigger] group@[i]),
            i <= group@.len(),
            forall|k: int|
                0 <= k < i ==> can_share(module@, #[trigger] group@[k], *candidate),
        decreases group.len() - i,
    {
        assert(candidate_ok(module@, group@[i as int]));
        let same: bool = group[i].kind == candidate.kind && module.values[
            group[i].result.raw as usize].ty == module.values[candidate.result.raw as usize].ty;
        if !same || !group[i].activation.is_exclusive(&candidate.activation) {
            assert(!can_share(module@, group@[i as int], *candidate));
            return false;
        }
        i += 1;
    }
    true
}

/// A group of candidates that share, with the operations that were made for it.
#[derive(Debug)]
pub struct SharedGroup {
    pub members: Vec<ShareCandidate>,
    pub rewrite: OperationRewrite,
}

/// The places of the group that a candidate starts: those of all later ones that
/// no group has and that fit what is there, one by one.
pub open spec fn group_places(
    module: ModuleView,
    candidates: Seq<ShareCandidate>,
    consumed: Set<int>,
    seed: int,
    count: int,
) -> Seq<int>
    decreases count - seed,
{
    if count <= seed + 1 {
        seq![seed]
    } else {
        let before = group_places(module, candidates, consumed, seed, count - 1);
        if !consumed.contains(count - 1) && fits_places(module, candidates, before, count - 1) {
            before.push(count - 1)
        } else {
            before
        }
    }
}

pub open spec fn fits_places(
    module: ModuleView,
    candidates: Seq<ShareCandidate>,
    places: Seq<int>,
    place: int,
) -> bool {
    forall|i: int|
        0 <= i < places.len() ==> can_share(
            module,
            candidates[#[trigger] places[i]],
            candidates[place],
        )
}

/// The candidates at some places.
pub open spec fn picked(candidates: Seq<ShareCandidate>, places: Seq<int>) -> Seq<ShareCandidate> {
    Seq::new(places.len(), |i: int| candidates[places[i]])
}

/// The groups that the first candidates start, and the places that they take. A
/// group of one, or one whose conditions depend on its results, is dropped.
pub open spec fn grouping(module: ModuleView, candidates: Seq<ShareCandidate>, count: nat) -> (
    Seq<Seq<int>>,
    Set<int>,
)
    decreases count,
{
    if count == 0 {
        (seq![], Set::empty())
    } else {
        let (groups, consumed) = grouping(module, candidates, (count - 1) as nat);
        let places = group_places(
            module,
            candidates,
            consumed,
            count - 1,
            candidates.len() as int,
        );
        if !consumed.contains(count - 1) && places.len() >= 2 && !guards_depend(
            module,
            picked(candidates, places),
        ) {
            (groups.push(places), consumed.union(places.to_set()))
        } else {
            (groups, consumed)
        }
    }
}

/// Two candidates say the same.
pub open spec fn same_candidate(left: ShareCandidate, right: ShareCandidate) -> bool {
    &&& left.operation == right.operation
    &&& left.result == right.result
    &&& left.left == right.left
    &&& left.right == right.right
    &&& left.kind == right.kind
    &&& left.activation.literals@ == right.activation.literals@
}

/// The members of a group are the candidates at some places.
pub open spec fn at_places(
    candidates: Seq<ShareCandidate>,
    group: Seq<ShareCandidate>,
    places: Seq<int>,
) -> bool {
    &&& group.len() == places.len()
    &&& forall|i: int|
        0 <= i < places.len() ==> 0 <= (#[trigger] places[i]) < candidates.len()
    &&& forall|i: int|
        0 <= i < group.len() ==> same_candidate(#[trigger] group[i], candidates[places[i]])
}

proof fn lemma_same_guards(
    module: ModuleView,
    candidates: Seq<ShareCandidate>,
    group: Seq<ShareCandidate>,
    places: Seq<int>,
)
    requires
        at_places(candidates, group, places),
    ensures
        guards_depend(module, group) == guards_depend(module, picked(candidates, places)),
{
    let other = picked(candidates, places);
    assert forall|c: int, l: int, m: int|
        0 <= c < group.len() && 0 <= m < group.len() implies (#[trigger] guard_depends(
        module,
        group,
        c,
        l,
        m,
    )) == guard_depends(module, other, c, l, m) by {
        assert(same_candidate(group[c], candidates[places[c]]));
        assert(same_candidate(group[m], candidates[places[m]]));
    }
    if guards_depend(module, group) {
        let (c, l, m) = choose|c: int, l: int, m: int|
            0 <= c < group.len() && 0 <= l < group[c].activation.literals@.len() && 0 <= m
                < group.len() && #[trigger] guard_depends(module, group, c, l, m);
        assert(same_candidate(group[c], candidates[places[c]]));
        assert(guard_depends(module, other, c, l, m));
    }
    if guards_depend(module, other) {
        let (c, l, m) = choose|c: int, l: int, m: int|
            0 <= c < other.len() && 0 <= l < other[c].activation.literals@.len() && 0 <= m
                < other.len() && #[trigger] guard_depends(module, other, c, l, m);
        assert(same_candidate(group[c], candidates[places[c]]));
        assert(guard_depends(module, group, c, l, m));
    }
}

/// Groups are those that candidates form.
pub open spec fn groups_formed(
    candidates: Seq<ShareCandidate>,
    groups: Seq<Vec<ShareCandidate>>,
    places: Seq<Seq<int>>,
) -> bool {
    &&& groups.len() == places.len()
    &&& forall|g: int|
        0 <= g < groups.len() ==> at_places(candidates, (#[trigger] groups[g])@, places[g])
}

/// Marks stand for the places that groups have taken.
pub open spec fn marks_taken(consumed: Seq<bool>, taken: Set<int>) -> bool {
    forall|c: int| 0 <= c < consumed.len() ==> (#[trigger] consumed[c]) == taken.contains(c)
}

/// The group that a candidate starts: all later ones that fit, one by one.
#[verifier::rlimit(30)]
fn group_from(
    module: &WordModule,
    candidates: &Vec<ShareCandidate>,
    consumed: &Vec<bool>,
    seed: usize,
    Ghost(taken): Ghost<Set<int>>,
) -> (group: Vec<ShareCandidate>)
    requires
        module@.wf(),
        candidates_ok(module@, candidates@),
        consumed@.len() == candidates@.len(),
        seed < candidates@.len(),
        marks_taken(consumed@, taken),
    ensures
        at_places(
            candidates@,
            group@,
            group_places(module@, candidates@, taken, seed as int, candidates@.len() as int),
        ),
        group@.len() >= 1,
        group@.len() >= 2 ==> group_ok(module@, group@),
        forall|i: int| 0 <= i < group@.len() ==> candidate_ok(module@, #[trigger] group@[i]),
        forall|i: int|
            0 <= i < group@.len() ==> from_unconsumed(
                candidates@,
                consumed@,
                seed as int,
                (#[trigger] group@[i]).operation,
            ),
{
    let mut group: Vec<ShareCandidate> = Vec::new();
    assert(candidate_ok(module@, candidates@[seed as int]));
    group.push(candidates[seed].copy());
    assert(from_unconsumed(
        candidates@,
        consumed@,
        seed as int,
        candidates@[seed as int].operation,
    ));
    let count: usize = candidates.len();
    let mut i: usize = seed + 1;
    while i < count
        invariant
            module@.wf(),
            candidates_ok(module@, candidates@),
            consumed@.len() == candidates@.len(),
            seed < i <= count,
            count == candidates@.len(),
            marks_taken(consumed@, taken),
            at_places(
                candidates@,
                group@,
                group_places(module@, candidates@, taken, seed as int, i as int),
            ),
            group@.len() >= 1,
            forall|k: int| 0 <= k < group@.len() ==> candidate_ok(module@, #[trigger] group@[k]),
            forall|a: int, b: int|
                0 <= a < b < group@.len() ==> can_share(
                    module@,
                    #[trigger] group@[a],
                    #[trigger] group@[b],
                ),
            forall|k: int|
                0 <= k < group@.len() ==> from_unconsumed(
                    candidates@,
                    consumed@,
                    seed as int,
                    (#[trigger] group@[k]).operation,
                ),
        decreases count - i,
    {
        assert(candidate_ok(module@, candidates@[i as int]));
        let ghost places = group_places(module@, candidates@, taken, seed as int, i as int);
        let ghost held_before = group@;
        proof {
            assert(consumed@[i as int] == taken.contains(i as int));
            assert((forall|k: int|
                0 <= k < group@.len() ==> can_share(
                    module@,
                    #[trigger] group@[k],
                    candidates@[i as int],
                )) == fits_places(module@, candidates@, places, i as int)) by {
                if fits_places(module@, candidates@, places, i as int) {
                    assert forall|k: int| 0 <= k < group@.len() implies can_share(
                        module@,
                        #[trigger] group@[k],
                        candidates@[i as int],
                    ) by {
                        assert(same_candidate(group@[k], candidates@[places[k]]));
                    }
                }
                if forall|k: int|
                    0 <= k < group@.len() ==> can_share(
                        module@,
                        #[trigger] group@[k],
                        candidates@[i as int],
                    ) {
                    assert forall|k: int| 0 <= k < places.len() implies can_share(
                        module@,
                        candidates@[#[trigger] places[k]],
                        candidates@[i as int],
                    ) by {
                        assert(same_candidate(group@[k], candidates@[places[k]]));
                    }
                }
            }
            assert(group_places(module@, candidates@, taken, seed as int, i + 1) == if !taken.contains(
                i as int,
            ) && fits_places(module@, candidates@, places, i as int) {
                places.push(i as int)
            } else {
                places
            });
        }
        if !consumed[i] && fits_group(module, &group, &candidates[i]) {
            let ghost before = group@;
            let made = candidates[i].copy();
            let ghost held = made;
            assert(candidate_ok(module@, held));
            assert(from_unconsumed(candidates@, consumed@, seed as int, held.operation)) by {
                assert(candidates@[i as int].operation == held.operation);
            }
            group.push(made);
            proof {
                assert forall|a: int, b: int| 0 <= a < b < group@.len() implies can_share(
                    module@,
                    #[trigger] group@[a],
                    #[trigger] group@[b],
                ) by {
                    if b < before.len() {
                        assert(can_share(module@, before[a], before[b]));
                    } else {
                        assert(can_share(module@, before[a], candidates@[i as int]));
                    }
                }
            }
        }
        let ghost now = group_places(module@, candidates@, taken, seed as int, i + 1);
        proof {
            assert forall|k: int| 0 <= k < now.len() implies 0 <= (#[trigger] now[k])
                < candidates@.len() by {
                if k < places.len() {
                    assert(now[k] == places[k]);
                }
            }
            assert forall|k: int| 0 <= k < group@.len() implies same_candidate(
                #[trigger] group@[k],
                candidates@[now[k]],
            ) by {
                if k < held_before.len() {
                    assert(group@[k] == held_before[k]);
                    assert(now[k] == places[k]);
                    assert(same_candidate(held_before[k], candidates@[places[k]]));
                } else {
                    assert(now[k] == i);
                }
            }
            assert(group@.len() == now.len());
            assert(at_places(candidates@, group@, now));
        }
        i += 1;
        assert(group_places(module@, candidates@, taken, seed as int, i as int) == now);
    }
    group
}

/// A member of a group is a candidate that no group has yet.
pub open spec fn from_unconsumed(
    candidates: Seq<ShareCandidate>,
    consumed: Seq<bool>,
    seed: int,
    operation: OpId,
) -> bool {
    exists|c: int|
        seed <= c < candidates.len() && (c == seed || !consumed[c]) && (
        #[trigger] candidates[c]).operation == operation
}

pub open spec fn groups_ok(module: ModuleView, groups: Seq<Vec<ShareCandidate>>) -> bool {
    forall|g: int|
        0 <= g < groups.len() ==> group_ok(module, (#[trigger] groups[g])@) && !guards_depend(
            module,
            groups[g]@,
        )
}

fn is_member(group: &Vec<ShareCandidate>, operation: OpId) -> (member: bool)
    ensures
        member == exists|i: int|
            0 <= i < group@.len() && (#[trigger] group@[i]).operation == operation,
{
    let mut i: usize = 0;
    while i < group.len()
        invariant
            i <= group@.len(),
            forall|k: int| 0 <= k < i ==> (#[trigger] group@[k]).operation != operation,
        decreases group.len() - i,
    {
        if group[i].operation.raw == operation.raw {
            assert(group@[i as int].operation == operation);
            return true;
        }
        i += 1;
    }
    false
}

/// Candidates at different places are different operations.
proof fn lemma_one_place(
    module: ModuleView,
    candidates: Seq<ShareCandidate>,
    left: int,
    right: int,
)
    requires
        candidates_ok(module, candidates),
        0 <= left < candidates.len(),
        0 <= right < candidates.len(),
        candidates[left].operation == candidates[right].operation,
    ensures
        left == right,
{
    if left < right {
        assert(candidates[left].operation.raw < candidates[right].operation.raw);
    } else if right < left {
        assert(candidates[right].operation.raw < candidates[left].operation.raw);
    }
}

/// Groups candidates that exclude each other and whose conditions do not depend
/// on their results.
fn exclusive_groups(module: &WordModule, candidates: &Vec<ShareCandidate>) -> (groups: Vec<
    Vec<ShareCandidate>,
>)
    requires
        module@.wf(),
        candidates_ok(module@, candidates@),
    ensures
        groups_ok(module@, groups@),
        groups_formed(
            candidates@,
            groups@,
            grouping(module@, candidates@, candidates@.len()).0,
        ),
{
    let mut consumed: Vec<bool> = Vec::new();
    consumed.resize(candidates.len(), false);
    let mut groups: Vec<Vec<ShareCandidate>> = Vec::new();
    let mut seed: usize = 0;
    while seed < candidates.len()
        invariant
            module@.wf(),
            candidates_ok(module@, candidates@),
            consumed@.len() == candidates@.len(),
            seed <= candidates@.len(),
            groups_ok(module@, groups@),
            groups_formed(
                candidates@,
                groups@,
                grouping(module@, candidates@, seed as nat).0,
            ),
            marks_taken(consumed@, grouping(module@, candidates@, seed as nat).1),
        decreases candidates.len() - seed,
    {
        let ghost taken = grouping(module@, candidates@, seed as nat).1;
        let ghost formed = grouping(module@, candidates@, seed as nat).0;
        let ghost places = group_places(
            module@,
            candidates@,
            taken,
            seed as int,
            candidates@.len() as int,
        );
        assert(consumed@[seed as int] == taken.contains(seed as int));
        if !consumed[seed] {
            let group = group_from(module, candidates, &consumed, seed, Ghost(taken));
            proof {
                lemma_same_guards(module@, candidates@, group@, places);
            }
            if group.len() >= 2 && !guard_depends_on_group(module, &group) {
                let mut i: usize = 0;
                while i < candidates.len()
                    invariant
                        candidates_ok(module@, candidates@),
                        at_places(candidates@, group@, places),
                        consumed@.len() == candidates@.len(),
                        i <= candidates@.len(),
                        forall|c: int|
                            0 <= c < consumed@.len() ==> (#[trigger] consumed@[c]) == (
                            taken.contains(c) || c < i && places.to_set().contains(c)),
                    decreases candidates.len() - i,
                {
                    let member = is_member(&group, candidates[i].operation);
                    proof {
                        if member {
                            let k = choose|k: int|
                                0 <= k < group@.len() && (#[trigger] group@[k]).operation
                                    == candidates@[i as int].operation;
                            assert(same_candidate(group@[k], candidates@[places[k]]));
                            lemma_one_place(module@, candidates@, places[k], i as int);
                            assert(places.contains(i as int));
                        }
                        if places.contains(i as int) {
                            let k = choose|k: int| 0 <= k < places.len() && places[k] == i;
                            assert(same_candidate(group@[k], candidates@[places[k]]));
                            assert(group@[k].operation == candidates@[i as int].operation);
                        }
                    }
                    if member {
                        consumed.set(i, true);
                    }
                    i += 1;
                }
                groups.push(group);
                proof {
                    assert(grouping(module@, candidates@, (seed + 1) as nat) == (
                        formed.push(places),
                        taken.union(places.to_set()),
                    ));
                }
            }
        }
        seed += 1;
    }
    groups
}

/// A group was made into one operation.
pub open spec fn group_shared(start: ModuleView, module: ModuleView, group: SharedGroup) -> bool {
    &&& group_ok(start, group.members@)
    &&& !guards_depend(start, group.members@)
    &&& module.has(group.rewrite.replacement)
    &&& shared_value(start, module, group.members@, group.rewrite.replacement)
    &&& group.rewrite.created.0 <= group.rewrite.created.1 <= module.operations.len()
    &&& start.operations.len() <= group.rewrite.created.0
    &&& group.rewrite.replaced@ == Seq::new(
        group.members@.len(),
        |i: int| group.members@[i].operation,
    )
}

pub open spec fn all_shared(
    start: ModuleView,
    module: ModuleView,
    groups: Seq<SharedGroup>,
) -> bool {
    forall|g: int| 0 <= g < groups.len() ==> group_shared(start, module, #[trigger] groups[g])
}

proof fn lemma_group_later(start: ModuleView, now: ModuleView, group: Seq<ShareCandidate>)
    requires
        stable(start, now),
        group_ok(start, group),
    ensures
        group_ok(now, group),
        forall|env: Env, k: int| #[trigger]
            only_needed(start, env, group, k) ==> only_needed(now, env, group, k),
{
    assert forall|i: int| 0 <= i < group.len() implies candidate_ok(now, #[trigger] group[i]) by {
        assert(candidate_ok(start, group[i]));
        assert(start.value_ok(group[i].result.raw as int));
        assert(now.op_of(group[i].result) == start.op_of(group[i].result));
        let literals = group[i].activation.literals@;
        assert forall|k: int| 0 <= k < literals.len() implies now.has(
            (#[trigger] literals[k]).condition,
        ) && now.ty(literals[k].condition).width == 1 by {
            assert(start.has(literals[k].condition));
        }
    }
    assert forall|i: int, j: int| 0 <= i < j < group.len() implies can_share(
        now,
        #[trigger] group[i],
        #[trigger] group[j],
    ) by {
        assert(can_share(start, group[i], group[j]));
        assert(candidate_ok(start, group[i]) && candidate_ok(start, group[j]));
    }
    assert forall|env: Env, k: int| #[trigger] only_needed(start, env, group, k) implies only_needed(
        now,
        env,
        group,
        k,
    ) by {
        assert(candidate_ok(start, group[k]));
        lemma_needed_stable(start, now, env, group[k]);
        assert forall|j: int| 0 <= j < group.len() && j != k implies !needed(
            now,
            env,
            #[trigger] group[j],
        ) by {
            assert(candidate_ok(start, group[j]));
            lemma_needed_stable(start, now, env, group[j]);
        }
    }
}

/// The groups that were made are exactly those that the candidates of a module
/// form.
pub open spec fn shares_all(
    module: ModuleView,
    observed: Seq<bool>,
    root_connects: Seq<bool>,
    roots: Seq<ValueId>,
    uses: UseIndex,
    candidates: Seq<ShareCandidate>,
    groups: Seq<SharedGroup>,
) -> bool {
    let places = grouping(module, candidates, candidates.len()).0;
    &&& uses.rows@.len() == module.values.len()
    &&& indexed(uses.rows@, module_uses(module, observed, root_connects, roots))
    &&& lists_candidates(module, uses, candidates, module.operations.len() as int)
    &&& groups.len() == places.len()
    &&& forall|g: int|
        0 <= g < groups.len() ==> at_places(candidates, (#[trigger] groups[g]).members@, places[g])
}

/// Every member of a group is replaced by what was made for a group that has it.
pub open spec fn replaces_members(
    start: ModuleView,
    groups: Seq<SharedGroup>,
    replacements: Seq<Option<ValueId>>,
) -> bool {
    &&& replacements.len() == start.values.len()
    &&& forall|v: int|
        0 <= v < replacements.len() && (#[trigger] replacements[v]) is Some ==> exists|g: int, k: int|
            #[trigger] replaced_in(groups, g, k, v) && groups[g].rewrite.replacement
                == replacements[v]->0
    &&& forall|g: int, k: int, v: int|
        0 <= v < replacements.len() && #[trigger] replaced_in(groups, g, k, v)
            ==> replacements[v] is Some
}

/// A value is a member of a group.
pub open spec fn replaced_in(groups: Seq<SharedGroup>, g: int, k: int, v: int) -> bool {
    &&& 0 <= g < groups.len()
    &&& 0 <= k < groups[g].members@.len()
    &&& groups[g].members@[k].result.raw == v
}

fn member_replacements(
    count: usize,
    groups: &Vec<SharedGroup>,
    Ghost(start): Ghost<ModuleView>,
    Ghost(module): Ghost<ModuleView>,
) -> (replacements: Vec<Option<ValueId>>)
    requires
        count == start.values.len(),
        all_shared(start, module, groups@),
    ensures
        replaces_members(start, groups@, replacements@),
        forall|v: int|
            0 <= v < replacements@.len() && (#[trigger] replacements@[v]) is Some ==> module.has(
                replacements@[v]->0,
            ),
{
    let mut replacements: Vec<Option<ValueId>> = Vec::new();
    replacements.resize(count, None);
    let mut g: usize = 0;
    while g < groups.len()
        invariant
            count == start.values.len(),
            all_shared(start, module, groups@),
            replacements@.len() == count,
            g <= groups@.len(),
            forall|v: int|
                0 <= v < count && (#[trigger] replacements@[v]) is Some ==> module.has(
                    replacements@[v]->0,
                ) && exists|h: int, k: int| #[trigger]
                    replaced_in(groups@, h, k, v) && groups@[h].rewrite.replacement
                        == replacements@[v]->0,
            forall|h: int, k: int, v: int|
                0 <= h < g && 0 <= v < count && #[trigger] replaced_in(groups@, h, k, v)
                    ==> replacements@[v] is Some,
        decreases groups.len() - g,
    {
        assert(group_shared(start, module, groups@[g as int]));
        let to = groups[g].rewrite.replacement;
        let mut k: usize = 0;
        while k < groups[g].members.len()
            invariant
                count == start.values.len(),
                replacements@.len() == count,
                g < groups@.len(),
                to == groups@[g as int].rewrite.replacement,
                module.has(to),
                k <= groups@[g as int].members@.len(),
                forall|v: int|
                    0 <= v < count && (#[trigger] replacements@[v]) is Some ==> module.has(
                        replacements@[v]->0,
                    ) && exists|h: int, k: int| #[trigger]
                        replaced_in(groups@, h, k, v) && groups@[h].rewrite.replacement
                            == replacements@[v]->0,
                forall|h: int, j: int, v: int|
                    (0 <= h < g || h == g && j < k) && 0 <= v < count && #[trigger] replaced_in(
                        groups@,
                        h,
                        j,
                        v,
                    ) ==> replacements@[v] is Some,
            decreases groups@[g as int].members@.len() - k,
        {
            let place: usize = groups[g].members[k].result.raw as usize;
            let ghost was = replacements@;
            if place < count {
                replacements.set(place, Some(to));
                proof {
                    assert(replaced_in(groups@, g as int, k as int, place as int));
                    assert forall|v: int|
                        0 <= v < count && (#[trigger] replacements@[v]) is Some implies module.has(
                        replacements@[v]->0,
                    ) && exists|h: int, k: int| #[trigger]
                        replaced_in(groups@, h, k, v) && groups@[h].rewrite.replacement
                            == replacements@[v]->0 by {
                        if v != place {
                            assert(was[v] is Some);
                        }
                    }
                }
            }
            k += 1;
        }
        g += 1;
    }
    replacements
}

/// Finds sums and differences that exclude each other, and makes one operation
/// for each group of them. Whatever used a member uses the operation in its place,
/// apart from operations with state.
#[verifier::rlimit(60)]
pub fn share_muxed_arithmetic(
    module: &mut WordModule,
    observed: &Vec<bool>,
    root_connects: &Vec<bool>,
    roots: &Vec<ValueId>,
) -> (result: Result<Vec<SharedGroup>, SynthError>)
    requires
        old(module)@.wf(),
    ensures
        kept(old(module)@, final(module)@),
        result matches Ok(groups) ==> exists|replacements: Seq<Option<ValueId>>, renamed: Seq<ValueId>|
            #[trigger] uses_redirected(old(module)@, final(module)@, replacements, renamed)
                && replaces_members(old(module)@, groups@, replacements),
        result matches Ok(groups) ==> all_shared(old(module)@, final(module)@, groups@)
            && exists|uses: UseIndex, candidates: Seq<ShareCandidate>| #[trigger]
            shares_all(
                old(module)@,
                observed@,
                root_connects@,
                roots@,
                uses,
                candidates,
                groups@,
            ),
        result matches Err(error) ==> ran_out(final(module)@, error) || (error
            == SynthError::Invariant(Invariant::UnknownValue) && final(module)@ == old(module)@ && (
        observed@.len() != old(module)@.values.len() || root_connects@.len()
            != old(module)@.connects.len() || exists|i: int|
            0 <= i < roots@.len() && !old(module)@.has(#[trigger] roots@[i]))),
{
    let ghost start = module@;
    let count: usize = module.values.len();
    proof {
        lemma_stable(start, start);
        lemma_kept(start, start);
    }
    let uses = match UseIndex::build(module, observed, root_connects, roots) {
        Ok(uses) => uses,
        Err(error) => return Err(error),
    };
    let candidates = find_candidates(module, &uses);
    let mut groups = exclusive_groups(module, &candidates);
    let mut shared: Vec<SharedGroup> = Vec::new();
    let ghost total = groups@;
    let ghost places = grouping(start, candidates@, candidates@.len()).0;
    while groups.len() > 0
        invariant
            groups_formed(candidates@, total, places),
            groups@.len() + shared@.len() == total.len(),
            forall|g: int|
                0 <= g < groups@.len() ==> #[trigger] groups@[g] == total[shared@.len() + g],
            forall|g: int|
                0 <= g < shared@.len() ==> at_places(
                    candidates@,
                    (#[trigger] shared@[g]).members@,
                    places[g],
                ),
            start == old(module)@,
            stable(start, module@),
            groups_ok(start, groups@),
            all_shared(start, module@, shared@),
        decreases groups.len(),
    {
        let ghost before = module@;
        let ghost rest = groups@;
        let members = groups.remove(0);
        proof {
            assert(rest[0] == total[shared@.len() as int]);
            assert(at_places(
                candidates@,
                total[shared@.len() as int]@,
                places[shared@.len() as int],
            ));
            assert forall|g: int| 0 <= g < groups@.len() implies #[trigger] groups@[g]
                == total[shared@.len() + 1 + g] by {
                assert(groups@[g] == rest[g + 1]);
            }
            assert(members@ == rest[0]@);
            assert(group_ok(start, rest[0]@));
            lemma_group_later(start, before, members@);
            assert forall|g: int| 0 <= g < groups@.len() implies group_ok(
                start,
                (#[trigger] groups@[g])@,
            ) && !guards_depend(start, groups@[g]@) by {
                assert(groups@[g] == rest[g + 1]);
            }
        }
        let first: usize = module.operations.len();
        let replacement = match materialize_group(module, &members) {
            Ok(replacement) => replacement,
            Err(error) => {
                proof {
                    lemma_stable_trans(start, before, module@);
                    lemma_kept(start, module@);
                }
                return Err(error);
            },
        };
        let mut replaced: Vec<OpId> = Vec::new();
        let mut i: usize = 0;
        while i < members.len()
            invariant
                i <= members@.len(),
                replaced@ =~= Seq::new(i as nat, |k: int| members@[k].operation),
            decreases members.len() - i,
        {
            replaced.push(members[i].operation);
            i += 1;
        }
        let ghost held = shared@;
        let group = SharedGroup {
            members,
            rewrite: OperationRewrite {
                created: (first, module.operations.len()),
                replaced,
                replacement,
            },
        };
        let ghost made = group;
        shared.push(group);
        proof {
            let after = module@;
            lemma_stable_trans(start, before, after);
            assert(made.rewrite.replaced@ =~= Seq::new(
                made.members@.len(),
                |i: int| made.members@[i].operation,
            ));
            assert(shared_value(start, after, made.members@, replacement)) by {
                assert forall|env: Env, k: int| #[trigger]
                    only_needed(start, env, made.members@, k) implies word_of(
                    after,
                    env,
                    replacement,
                ) == word_of(start, env, made.members@[k].result) by {
                    assert(only_needed(before, env, made.members@, k));
                    assert(candidate_ok(start, made.members@[k]));
                    assert(word_of(before, env, made.members@[k].result) == word_of(
                        start,
                        env,
                        made.members@[k].result,
                    ));
                }
            }
            assert forall|g: int| 0 <= g < shared@.len() implies group_shared(
                start,
                after,
                #[trigger] shared@[g],
            ) by {
                if g < held.len() {
                    assert(group_shared(start, before, held[g]));
                    assert forall|env: Env, k: int| #[trigger]
                        only_needed(start, env, held[g].members@, k) implies word_of(
                        after,
                        env,
                        held[g].rewrite.replacement,
                    ) == word_of(start, env, held[g].members@[k].result) by {
                        let place = held[g].rewrite.replacement;
                        assert(word_of(after, env, place) == word_of(before, env, place));
                    }
                }
            }
        }
    }
    let ghost middle = module@;
    let replacements = member_replacements(count, &shared, Ghost(start), Ghost(middle));
    let renamed = match redirect_uses(module, &replacements, Ghost(start)) {
        Ok(renamed) => renamed,
        Err(error) => {
            proof {
                lemma_kept(start, module@);
            }
            return Err(error);
        },
    };
    proof {
        lemma_kept(start, module@);
        assert(uses_redirected(start, module@, replacements@, renamed@));
        assert forall|g: int| 0 <= g < shared@.len() implies group_shared(
            start,
            module@,
            #[trigger] shared@[g],
        ) by {
            assert(group_shared(start, middle, shared@[g]));
            let place = shared@[g].rewrite.replacement;
            assert forall|env: Env, k: int| #[trigger]
                only_needed(start, env, shared@[g].members@, k) implies word_of(
                module@,
                env,
                place,
            ) == word_of(start, env, shared@[g].members@[k].result) by {
                assert(word_of(module@, env, place) == word_of(middle, env, place));
            }
        }
        assert(shares_all(
            start,
            observed@,
            root_connects@,
            roots@,
            uses,
            candidates@,
            shared@,
        ));
    }
    Ok(shared)
}

} // verus!
