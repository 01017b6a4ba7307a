//! What recognized operators compute: the words of the operations that they stand for.

use super::recognition::{recognized, single_operator, Knowledge};
use super::regions::{
    child_of, expanded, is_additive, is_multiply, is_product_of, is_root, normalized, opens,
    plain_term, region_of, AdditiveRegions, Sight,
};
use crate::planning::architecture::{ArithmeticTerm, OperatorKind, SemanticOperator};
use crate::word::bits::{bits_of, lemma_bits_of_residue, lemma_nat_of_bits, nat_of};
use crate::word::module::{KindView, ModuleView};
use crate::word::semantics::{
    cast_bits, divide_bits, dynamic_extract_bits, lemma_eval_operation, lemma_eval_width,
    resize_bits, result_bits, word_of, Env,
};
use crate::word::types::{op_inputs, OpId, OpView, ValueId, WordType};
use vstd::arithmetic::power2::{lemma_pow2_pos, pow2};
use vstd::prelude::*;

verus! {

/// A word at a width: cut off, or extended by its sign where it has one.
pub open spec fn widened(word: Seq<bool>, signed: bool, width: nat) -> Seq<bool> {
    Seq::new(
        width,
        |i: int|
            if i < word.len() {
                word[i]
            } else {
                signed && word.len() > 0 && word.last()
            },
    )
}

/// The number that a term stands for, without its sign.
pub open spec fn term_number(
    module: ModuleView,
    env: Env,
    term: ArithmeticTerm,
    width: nat,
) -> int {
    match term {
        ArithmeticTerm::Value { value, ty, negative } => nat_of(
            widened(word_of(module, env, value), ty.signed, width),
        ) as int,
        ArithmeticTerm::Product {
            left,
            right,
            left_type,
            right_type,
            ty,
            negative,
            constant_input,
        } => (nat_of(widened(word_of(module, env, left), left_type.signed, width)) * nat_of(
            widened(word_of(module, env, right), right_type.signed, width),
        )) as int,
    }
}

/// What terms come to: each is added, or subtracted where it is negative.
pub open spec fn terms_total(
    module: ModuleView,
    env: Env,
    terms: Seq<ArithmeticTerm>,
    width: nat,
) -> int
    decreases terms.len(),
{
    if terms.len() == 0 {
        0
    } else {
        let number = term_number(module, env, terms.last(), width);
        let negative = match terms.last() {
            ArithmeticTerm::Value { negative, .. } => negative,
            ArithmeticTerm::Product { negative, .. } => negative,
        };
        terms_total(module, env, terms.drop_last(), width) + (if negative {
            -number
        } else {
            number
        })
    }
}

proof fn lemma_total_joined(
    module: ModuleView,
    env: Env,
    left: Seq<ArithmeticTerm>,
    right: Seq<ArithmeticTerm>,
    width: nat,
)
    ensures
        terms_total(module, env, left + right, width) == terms_total(module, env, left, width)
            + terms_total(module, env, right, width),
    decreases right.len(),
{
    if right.len() == 0 {
        assert(left + right =~= left);
    } else {
        lemma_total_joined(module, env, left, right.drop_last(), width);
        assert((left + right).drop_last() =~= left + right.drop_last());
        assert((left + right).last() == right.last());
    }
}

/// A factor of a product is widened as its type says: it is as wide as the product, or its
/// sign counts in the product where it counts in the factor.
pub open spec fn widens_plainly(module: ModuleView, factor: ValueId, product: WordType) -> bool {
    module.ty(factor).width >= product.width || (normalized(module, factor).1.signed
        ==> product.signed && module.ty(factor).signed)
}

/// The factors of all products are widened as their types say.
pub open spec fn products_plain(module: ModuleView) -> bool {
    forall|i: int|
        0 <= i < module.operations.len() && is_multiply((#[trigger] module.operations[i]).kind)
            ==> widens_plainly(
            module,
            module.operations[i].kind->left,
            module.ty(module.operations[i].result),
        ) && widens_plainly(
            module,
            module.operations[i].kind->right,
            module.ty(module.operations[i].result),
        )
}

proof fn lemma_factor(module: ModuleView, env: Env, factor: ValueId, product: WordType)
    requires
        module.wf(),
        module.has(factor),
        widens_plainly(module, factor, product),
    ensures
        resize_bits(word_of(module, env, factor), module.ty(factor), product) == widened(
            word_of(module, env, normalized(module, factor).0),
            normalized(module, factor).1.signed,
            product.width as nat,
        ),
{
    let word = word_of(module, env, factor);
    let resized = resize_bits(word, module.ty(factor), product);
    let (inner, ty) = normalized(module, factor);
    let wide = widened(word_of(module, env, inner), ty.signed, product.width as nat);
    assert(module.value_ok(factor.raw as int));
    lemma_eval_width(module, env, factor.raw as int);
    if inner != factor {
        let operation = module.kind(factor)->Operation_0;
        assert(module.operation_ok(operation.raw as int));
        let kind = module.operations[operation.raw as int].kind;
        assert(op_inputs(kind)[0] == inner);
        lemma_eval_operation(module, env, factor.raw as int);
        lemma_eval_width(module, env, inner.raw as int);
        assert(word == cast_bits(kind->Cast_kind, word_of(module, env, inner), kind->target));
        assert forall|i: int| 0 <= i < product.width implies #[trigger] resized[i] == wide[i] by {
            if i >= word.len() {
                assert(word.last() == word[word.len() - 1]);
            }
        }
        assert(resized =~= wide);
    } else {
        if let Some(OpView::Cast { kind, value, target }) = module.op_of(factor) {
            let operation = module.kind(factor)->Operation_0;
            assert(module.operation_ok(operation.raw as int));
            assert(op_inputs(module.op_of(factor)->0)[0] == value);
            assert(value != factor);
        }
        assert(resized =~= wide);
    }
}

proof fn lemma_added(a: int, b: int, x: int, y: int, p: int)
    requires
        p > 0,
        a % p == x % p,
        b % p == y % p,
    ensures
        (a + b) % p == (x + y) % p,
        (a - b) % p == (x - y) % p,
        (-a) % p == (-x) % p,
        (-a - b) % p == (-x - y) % p,
        (-a + b) % p == (-x + y) % p,
{
    vstd::arithmetic::div_mod::lemma_add_mod_noop(a, b, p);
    vstd::arithmetic::div_mod::lemma_add_mod_noop(x, y, p);
    vstd::arithmetic::div_mod::lemma_sub_mod_noop(a, b, p);
    vstd::arithmetic::div_mod::lemma_sub_mod_noop(x, y, p);
    vstd::arithmetic::div_mod::lemma_sub_mod_noop(0, a, p);
    vstd::arithmetic::div_mod::lemma_sub_mod_noop(0, x, p);
    vstd::arithmetic::div_mod::lemma_sub_mod_noop(-a, b, p);
    vstd::arithmetic::div_mod::lemma_sub_mod_noop(-x, y, p);
    vstd::arithmetic::div_mod::lemma_add_mod_noop(-a, b, p);
    vstd::arithmetic::div_mod::lemma_add_mod_noop(-x, y, p);
}

/// What a term that is not taken apart comes to.
proof fn lemma_plain_number(
    module: ModuleView,
    sight: Sight,
    env: Env,
    value: ValueId,
    negative: bool,
    parent: int,
)
    requires
        module.wf(),
        products_plain(module),
        module.has(value),
        0 <= parent < module.operations.len(),
    ensures
        ({
            let ty = module.ty(module.operations[parent].result);
            term_number(
                module,
                env,
                plain_term(module, sight, value, negative, parent),
                ty.width as nat,
            ) % pow2(ty.width as nat) as int == nat_of(
                resize_bits(word_of(module, env, value), module.ty(value), ty),
            ) as int % pow2(ty.width as nat) as int
        }),
{
    let ty = module.ty(module.operations[parent].result);
    let width = ty.width as nat;
    let word = word_of(module, env, value);
    lemma_eval_width(module, env, value.raw as int);
    let operand = resize_bits(word, module.ty(value), ty);
    if is_product_of(module, sight, value, parent) {
        assert(module.value_ok(value.raw as int));
        let child = child_of(module, value)->0;
        assert(module.operation_ok(child));
        let kind = module.operations[child].kind;
        assert(op_inputs(kind)[0] == kind->left && op_inputs(kind)[1] == kind->right);
        lemma_eval_operation(module, env, value.raw as int);
        let own = module.ty(value);
        lemma_factor(module, env, kind->left, own);
        lemma_factor(module, env, kind->right, own);
        let l = resize_bits(word_of(module, env, kind->left), module.ty(kind->left), own);
        let r = resize_bits(word_of(module, env, kind->right), module.ty(kind->right), own);
        assert(word == bits_of((nat_of(l) * nat_of(r)) as int, own.width as nat));
        assert(operand =~= word);
        lemma_nat_of_bits((nat_of(l) * nat_of(r)) as int, width);
        lemma_pow2_pos(width);
        vstd::arithmetic::div_mod::lemma_mod_twice(
            (nat_of(l) * nat_of(r)) as int,
            pow2(width) as int,
        );
    } else {
        let signed = module.ty(value).signed && ty.signed;
        assert(widened(word, signed, width) =~= operand);
    }
}

/// What an operand expands to comes to the operand.
#[verifier::rlimit(40)]
proof fn lemma_expanded_total(
    module: ModuleView,
    sight: Sight,
    env: Env,
    value: ValueId,
    negative: bool,
    parent: int,
)
    requires
        module.wf(),
        products_plain(module),
        module.has(value),
        0 <= parent < module.operations.len(),
    ensures
        ({
            let ty = module.ty(module.operations[parent].result);
            let number = nat_of(resize_bits(word_of(module, env, value), module.ty(value), ty)) as int;
            terms_total(
                module,
                env,
                expanded(module, sight, value, negative, parent).terms,
                ty.width as nat,
            ) % pow2(ty.width as nat) as int == (if negative {
                -number
            } else {
                number
            }) % pow2(ty.width as nat) as int
        }),
    decreases value.raw,
{
    let ty = module.ty(module.operations[parent].result);
    let width = ty.width as nat;
    let p = pow2(width) as int;
    lemma_pow2_pos(width);
    let word = word_of(module, env, value);
    lemma_eval_width(module, env, value.raw as int);
    let operand = resize_bits(word, module.ty(value), ty);
    let terms = expanded(module, sight, value, negative, parent).terms;
    assert(module.value_ok(value.raw as int));
    if opens(module, sight, value, parent) {
        let child = child_of(module, value)->0;
        assert(module.operation_ok(child));
        let kind = module.operations[child].kind;
        assert(op_inputs(kind)[0] == kind->left && op_inputs(kind)[1] == kind->right);
        let own = module.ty(value);
        assert(module.operations[child].result == value);
        assert(own.width == ty.width);
        let subtracts = kind->Binary_op is Sub;
        let l_terms = expanded(module, sight, kind->left, negative, child).terms;
        let r_terms = expanded(module, sight, kind->right, negative != subtracts, child).terms;
        lemma_expanded_total(module, sight, env, kind->left, negative, child);
        lemma_expanded_total(module, sight, env, kind->right, negative != subtracts, child);
        assert(terms == l_terms + r_terms);
        lemma_total_joined(module, env, l_terms, r_terms, width);
        let l = nat_of(
            resize_bits(word_of(module, env, kind->left), module.ty(kind->left), own),
        ) as int;
        let r = nat_of(
            resize_bits(word_of(module, env, kind->right), module.ty(kind->right), own),
        ) as int;
        lemma_eval_operation(module, env, value.raw as int);
        assert(operand =~= word);
        let sum = if subtracts {
            l - r
        } else {
            l + r
        };
        assert(word == bits_of(sum, width));
        lemma_nat_of_bits(sum, width);
        vstd::arithmetic::div_mod::lemma_mod_twice(sum, p);
        lemma_added(nat_of(word) as int, 0, sum, 0, p);
        let lt = terms_total(module, env, l_terms, width);
        let rt = terms_total(module, env, r_terms, width);
        let ls = if negative {
            -l
        } else {
            l
        };
        let rs = if negative != subtracts {
            -r
        } else {
            r
        };
        lemma_added(lt, rt, ls, rs, p);
        assert(ls + rs == (if negative {
            -sum
        } else {
            sum
        }));
    } else {
        let term = plain_term(module, sight, value, negative, parent);
        lemma_plain_number(module, sight, env, value, negative, parent);
        assert(terms =~= seq![term]);
        assert(terms.drop_last().len() == 0);
        assert(terms_total(module, env, terms.drop_last(), width) == 0);
        let number = term_number(module, env, term, width);
        lemma_added(number, 0, nat_of(operand) as int, 0, p);
        assert(term.subtracts() == negative);
    }
}

/// The terms of a fused region mean its root: added up, each subtracted where it is
/// negative, they come to the word of the sum that they stand for.
pub proof fn fused_terms_mean_their_root(module: ModuleView, sight: Sight, env: Env, root: int)
    requires
        module.wf(),
        products_plain(module),
        0 <= root < module.operations.len(),
        is_additive(module.operations[root].kind),
    ensures
        ({
            let result = module.operations[root].result;
            let total = terms_total(
                module,
                env,
                region_of(module, sight, root).terms,
                module.ty(result).width as nat,
            );
            &&& result_bits(
                module,
                env,
                result.raw as int,
                module.operations[root].kind,
                module.ty(result),
            ) == bits_of(total, module.ty(result).width as nat)
            &&& module.kind(result) == KindView::Operation(OpId { raw: root as u32 }) ==> word_of(
                module,
                env,
                result,
            ) == bits_of(total, module.ty(result).width as nat)
        }),
{
    assert(module.operation_ok(root));
    let result = module.operations[root].result;
    let ty = module.ty(result);
    let width = ty.width as nat;
    let kind = module.operations[root].kind;
    assert(op_inputs(kind)[0] == kind->left && op_inputs(kind)[1] == kind->right);
    let subtracts = kind->Binary_op is Sub;
    lemma_expanded_total(module, sight, env, kind->left, false, root);
    lemma_expanded_total(module, sight, env, kind->right, subtracts, root);
    let l_terms = expanded(module, sight, kind->left, false, root).terms;
    let r_terms = expanded(module, sight, kind->right, subtracts, root).terms;
    lemma_total_joined(module, env, l_terms, r_terms, width);
    let l = nat_of(
        resize_bits(word_of(module, env, kind->left), module.ty(kind->left), ty),
    ) as int;
    let r = nat_of(
        resize_bits(word_of(module, env, kind->right), module.ty(kind->right), ty),
    ) as int;
    let rs = if subtracts {
        -r
    } else {
        r
    };
    lemma_pow2_pos(width);
    let lt = terms_total(module, env, l_terms, width);
    let rt = terms_total(module, env, r_terms, width);
    lemma_added(lt, rt, l, rs, pow2(width) as int);
    lemma_bits_of_residue(lt + rt, l + rs, width);
    if module.kind(result) == KindView::Operation(OpId { raw: root as u32 }) {
        lemma_eval_operation(module, env, result.raw as int);
    }
}

/// The regions that were found mean their roots.
pub proof fn found_regions_mean_their_roots(
    regions: AdditiveRegions,
    module: ModuleView,
    sight: Sight,
    env: Env,
    root: int,
)
    requires
        module.wf(),
        products_plain(module),
        regions.describes(module, sight),
        0 <= root < regions.by_root@.len(),
        regions.by_root@[root] is Some,
        module.kind(module.operations[root].result) == KindView::Operation(
            OpId { raw: root as u32 },
        ),
    ensures
        word_of(module, env, module.operations[root].result) == bits_of(
            terms_total(
                module,
                env,
                regions.by_root@[root]->0.terms@,
                module.ty(module.operations[root].result).width as nat,
            ),
            module.ty(module.operations[root].result).width as nat,
        ),
{
    assert(super::regions::region_described(module, sight, root, regions.by_root@[root]));
    fused_terms_mean_their_root(module, sight, env, root);
}

/// The word that an operator computes from its operands, or from its terms.
pub open spec fn operator_word(
    module: ModuleView,
    env: Env,
    operator: SemanticOperator,
    terms: Seq<ArithmeticTerm>,
) -> Seq<bool> {
    let width = operator.semantic_width as nat;
    let ty = WordType {
        width: operator.semantic_width,
        signed: operator.signed,
        state: operator.left_type.state,
    };
    let left = word_of(module, env, operator.left);
    let right = word_of(module, env, operator.right);
    let l = resize_bits(left, operator.left_type, ty);
    let r = resize_bits(right, operator.right_type, ty);
    match operator.class {
        OperatorKind::Sum => bits_of(terms_total(module, env, terms, width), width),
        OperatorKind::Add | OperatorKind::Increment => bits_of(
            (nat_of(l) + nat_of(r)) as int,
            width,
        ),
        OperatorKind::Subtract | OperatorKind::Decrement => bits_of(nat_of(l) - nat_of(r), width),
        OperatorKind::Multiply => bits_of(
            (nat_of(widened(left, operator.left_type.signed, width)) * nat_of(
                widened(right, operator.right_type.signed, width),
            )) as int,
            width,
        ),
        OperatorKind::Divide => divide_bits(l, r, operator.signed, false),
        OperatorKind::Modulo => divide_bits(l, r, operator.signed, true),
        OperatorKind::DynamicExtract => dynamic_extract_bits(left, nat_of(right), width),
    }
}

/// An operator computes the word of its output, which has its width.
pub open spec fn computes_output(
    module: ModuleView,
    env: Env,
    operator: SemanticOperator,
    terms: Seq<ArithmeticTerm>,
) -> bool {
    &&& operator.semantic_width == module.ty(operator.output).width
    &&& module.kind(operator.output) == KindView::Operation(operator.operation) ==> operator_word(
        module,
        env,
        operator,
        terms,
    ) == word_of(module, env, operator.output)
}

proof fn lemma_single_operator(
    module: ModuleView,
    knowledge: Knowledge,
    env: Env,
    index: int,
    id: u32,
)
    requires
        module.wf(),
        products_plain(module),
        0 <= index < module.operations.len(),
    ensures
        single_operator(module, knowledge, index, id) matches Ok(Some(operator))
            ==> computes_output(module, env, operator, seq![]),
{
    assert(module.operation_ok(index));
    let operation = module.operations[index];
    let result = operation.result;
    if let Ok(Some(operator)) = single_operator(module, knowledge, index, id) {
        if module.kind(result) == KindView::Operation(OpId { raw: index as u32 }) {
            lemma_eval_operation(module, env, result.raw as int);
            match operation.kind {
                OpView::Binary { op, left, right } => {
                    assert(op_inputs(operation.kind)[0] == left && op_inputs(operation.kind)[1]
                        == right);
                    let ty = module.ty(result);
                    let own = WordType {
                        width: operator.semantic_width,
                        signed: operator.signed,
                        state: operator.left_type.state,
                    };
                    assert(resize_bits(word_of(module, env, left), module.ty(left), ty)
                        =~= resize_bits(word_of(module, env, left), module.ty(left), own));
                    assert(resize_bits(word_of(module, env, right), module.ty(right), ty)
                        =~= resize_bits(word_of(module, env, right), module.ty(right), own));
                    if op is Mul {
                        lemma_factor(module, env, left, ty);
                        lemma_factor(module, env, right, ty);
                    }
                },
                _ => {},
            }
        }
    }
}

/// Recognized operators compute the words of the operations that they stand for.
pub proof fn recognized_operators_compute_their_outputs(
    module: ModuleView,
    knowledge: Knowledge,
    env: Env,
    count: nat,
)
    requires
        module.wf(),
        products_plain(module),
        count <= module.operations.len(),
    ensures
        recognized(module, knowledge, count) matches Ok(view) ==> view.terms.len()
            == view.operators.len() && forall|k: int|
            0 <= k < view.operators.len() ==> computes_output(
                module,
                env,
                #[trigger] view.operators[k],
                view.terms[k],
            ),
    decreases count,
{
    if count > 0 {
        let index = count - 1;
        recognized_operators_compute_their_outputs(module, knowledge, env, index as nat);
        if let Ok(view) = recognized(module, knowledge, count) {
            let below = recognized(module, knowledge, index as nat)->Ok_0;
            assert(module.operation_ok(index));
            if is_root(module, knowledge.sight, index) {
                fused_terms_mean_their_root(module, knowledge.sight, env, index);
            } else {
                lemma_single_operator(
                    module,
                    knowledge,
                    env,
                    index,
                    below.operators.len() as u32,
                );
            }
            assert forall|k: int| 0 <= k < view.operators.len() implies computes_output(
                module,
                env,
                #[trigger] view.operators[k],
                view.terms[k],
            ) by {
                if k < below.operators.len() {
                    assert(view.operators[k] == below.operators[k]);
                    assert(view.terms[k] == below.terms[k]);
                }
            }
        }
    }
}

} // verus!
