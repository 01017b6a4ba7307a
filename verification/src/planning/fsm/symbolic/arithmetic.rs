//! Adders, multipliers, dividers, comparators and shifters.

use super::gates::{
    exhausted, lemma_constant_value, lemma_resize, lemma_share, resize, SymbolicError,
    SymbolicLogic,
};
use crate::logic::{
    constant_row, keeps_values, lemma_keeps_values, lemma_lits_keep, lit_value, lits_ok, lits_value,
    simple_select, Inputs, Lit, LogicNode,
};
use crate::word::bits::{
    bit_nat, bits_of, int_of, inverse_bits, lemma2, lemma_any_bit, lemma_bits_are,
    lemma_bits_of_nat, lemma_bits_of_residue, lemma_mod_is, lemma_nat_bound, lemma_nat_first,
    lemma_nat_injective, lemma_nat_inverse, lemma_nat_of_bits, lemma_nat_skip, lemma_nat_split,
    lemma_nat_take, lemma_nat_top, lemma_nat_zero, nat_of, weight,
};
use crate::word::semantics::{
    binary_bits, compare_bits, compare_type, divide_bits, less_than, shift_bits, shift_left,
};
use crate::word::types::{BinaryOp, WordType};
use vstd::arithmetic::power2::{lemma_pow2_adds, lemma_pow2_pos, lemma_pow2_unfold, pow2};
use vstd::prelude::*;

verus! {

/// The most nodes that a product of words of a width takes.
pub open spec fn product_cost(width: nat) -> nat {
    width * (10 * width)
}

/// The most nodes that a quotient or remainder of words of a width takes.
pub open spec fn division_cost(width: nat) -> nat {
    12 * (width * (width + 1)) + 25 * width + 3
}

/// The most nodes that moving a word of a width by an amount of some bits takes.
pub open spec fn shift_cost(width: nat, amount: nat) -> nat {
    amount * (3 * width) + amount + 3 * width
}

proof fn lemma_division_cost(width: nat)
    ensures
        width * (12 * (width + 1)) == 12 * (width * (width + 1)),
{
    assert(width * (12 * (width + 1)) == 12 * (width * (width + 1))) by (nonlinear_arith);
}

/// A ripple-carry addition that has reached the length of `sum`.
pub open spec fn rippled(
    left: Seq<bool>,
    right: Seq<bool>,
    carry_in: bool,
    sum: Seq<bool>,
    carry: bool,
) -> bool {
    &&& sum.len() <= left.len()
    &&& left.len() == right.len()
    &&& nat_of(sum) + weight(carry, sum.len()) == nat_of(left.take(sum.len() as int)) + nat_of(
        right.take(sum.len() as int),
    ) + bit_nat(carry_in)
}

proof fn lemma_ripple_start(left: Seq<bool>, right: Seq<bool>, carry_in: bool)
    requires
        left.len() == right.len(),
    ensures
        rippled(left, right, carry_in, seq![], carry_in),
{
    lemma2();
    assert(left.take(0).len() == 0 && right.take(0).len() == 0);
}

proof fn lemma_ripple_step(
    left: Seq<bool>,
    right: Seq<bool>,
    carry_in: bool,
    sum: Seq<bool>,
    carry: bool,
)
    requires
        rippled(left, right, carry_in, sum, carry),
        sum.len() < left.len(),
    ensures
        ({
            let a = left[sum.len() as int];
            let b = right[sum.len() as int];
            rippled(
                left,
                right,
                carry_in,
                sum.push((a != b) != carry),
                (a && b) || ((a != b) && carry),
            )
        }),
{
    let i = sum.len() as int;
    let a = left[i];
    let b = right[i];
    lemma_nat_top(sum, (a != b) != carry);
    lemma_nat_take(left, i);
    lemma_nat_take(right, i);
    lemma_pow2_unfold((i + 1) as nat);
}

/// A finished addition: its sum and its carry.
proof fn lemma_ripple_done(
    left: Seq<bool>,
    right: Seq<bool>,
    carry_in: bool,
    sum: Seq<bool>,
    carry: bool,
)
    requires
        rippled(left, right, carry_in, sum, carry),
        sum.len() == left.len(),
    ensures
        carry == (nat_of(left) + nat_of(right) + bit_nat(carry_in) >= pow2(left.len())),
        nat_of(sum) + weight(carry, left.len()) == nat_of(left) + nat_of(right) + bit_nat(carry_in),
        sum == bits_of((nat_of(left) + nat_of(right) + bit_nat(carry_in)) as int, left.len()),
{
    assert(left.take(left.len() as int) =~= left);
    assert(right.take(left.len() as int) =~= right);
    lemma_nat_bound(sum);
    lemma_nat_bound(left);
    lemma_nat_bound(right);
    let total = (nat_of(left) + nat_of(right) + bit_nat(carry_in)) as int;
    let modulus = pow2(left.len()) as int;
    assert(bit_nat(carry) * modulus == weight(carry, left.len())) by (nonlinear_arith)
        requires
            weight(carry, left.len()) == (if carry {
                modulus
            } else {
                0
            }),
            bit_nat(carry) == (if carry {
                1int
            } else {
                0int
            }),
    ;
    lemma_mod_is(total, modulus, bit_nat(carry) as int, nat_of(sum) as int);
    lemma_bits_are(sum, total);
}

/// Every pair of an addition under construction.
pub open spec fn ripple_state(
    start: Seq<LogicNode>,
    nodes: Seq<LogicNode>,
    left: Seq<Lit>,
    right: Seq<Lit>,
    carry_in: Lit,
    sum: Seq<Lit>,
    carry: Lit,
    inputs: Inputs,
) -> bool {
    rippled(
        lits_value(start, inputs, left),
        lits_value(start, inputs, right),
        lit_value(start, inputs, carry_in),
        lits_value(nodes, inputs, sum),
        lit_value(nodes, inputs, carry),
    )
}

proof fn lemma_state_start(start: Seq<LogicNode>, left: Seq<Lit>, right: Seq<Lit>, carry: Lit)
    requires
        left.len() == right.len(),
    ensures
        forall|inputs: Inputs| #[trigger]
            ripple_state(start, start, left, right, carry, seq![], carry, inputs),
{
    assert forall|inputs: Inputs| #[trigger]
        ripple_state(start, start, left, right, carry, seq![], carry, inputs) by {
        assert(lits_value(start, inputs, seq![]) =~= seq![]);
        lemma_ripple_start(
            lits_value(start, inputs, left),
            lits_value(start, inputs, right),
            lit_value(start, inputs, carry),
        );
    }
}

/// One full adder.
proof fn lemma_state_step(
    start: Seq<LogicNode>,
    before: Seq<LogicNode>,
    after: Seq<LogicNode>,
    left: Seq<Lit>,
    right: Seq<Lit>,
    carry_in: Lit,
    sum: Seq<Lit>,
    carry: Lit,
    bit: Lit,
    next: Lit,
)
    requires
        keeps_values(start, before),
        keeps_values(before, after),
        lits_ok(start, left),
        lits_ok(start, right),
        lits_ok(before, sum),
        sum.len() < left.len(),
        left.len() == right.len(),
        forall|inputs: Inputs| #[trigger]
            ripple_state(start, before, left, right, carry_in, sum, carry, inputs),
        forall|inputs: Inputs| #[trigger]
            lit_value(after, inputs, bit) == ((lit_value(
                before,
                inputs,
                left[sum.len() as int],
            ) != lit_value(before, inputs, right[sum.len() as int])) != lit_value(
                before,
                inputs,
                carry,
            )),
        forall|inputs: Inputs| #[trigger]
            lit_value(after, inputs, next) == ((lit_value(
                before,
                inputs,
                left[sum.len() as int],
            ) && lit_value(before, inputs, right[sum.len() as int])) || ((lit_value(
                before,
                inputs,
                left[sum.len() as int],
            ) != lit_value(before, inputs, right[sum.len() as int])) && lit_value(
                before,
                inputs,
                carry,
            ))),
    ensures
        forall|inputs: Inputs| #[trigger]
            ripple_state(start, after, left, right, carry_in, sum.push(bit), next, inputs),
{
    let i = sum.len() as int;
    assert forall|inputs: Inputs| #[trigger]
        ripple_state(start, after, left, right, carry_in, sum.push(bit), next, inputs) by {
        assert(ripple_state(start, before, left, right, carry_in, sum, carry, inputs));
        let l = lits_value(start, inputs, left);
        let r = lits_value(start, inputs, right);
        let s = lits_value(before, inputs, sum);
        lemma_ripple_step(
            l,
            r,
            lit_value(start, inputs, carry_in),
            s,
            lit_value(before, inputs, carry),
        );
        assert(left[i].node < start.len() && right[i].node < start.len());
        assert(lit_value(before, inputs, left[i]) == l[i]);
        assert(lit_value(before, inputs, right[i]) == r[i]);
        lemma_lits_keep(before, after, sum, inputs);
        assert(lits_value(after, inputs, sum.push(bit)) =~= s.push(lit_value(after, inputs, bit)));
        assert(lit_value(after, inputs, bit) == ((l[i] != r[i]) != lit_value(
            before,
            inputs,
            carry,
        )));
        assert(lit_value(after, inputs, next) == ((l[i] && r[i]) || ((l[i] != r[i]) && lit_value(
            before,
            inputs,
            carry,
        ))));
    }
}

impl SymbolicLogic {
    /// One full adder: the sum bit and the carry.
    fn full_adder(&mut self, left: Lit, right: Lit, carry: Lit) -> (result: Result<
        (Lit, Lit),
        SymbolicError,
    >)
        requires
            old(self).wf(),
            old(self).has(left),
            old(self).has(right),
            old(self).has(carry),
        ensures
            final(self).wf(),
            keeps_values(old(self).nodes(), final(self).nodes()),
            final(self).nodes().len() <= old(self).nodes().len() + 9,
            result matches Ok(pair) ==> (left.node == 0 && right.node == 0 && carry.node == 0 ==> pair.0.node == 0
                && pair.1.node == 0),
            result matches Err(error) ==> exhausted(final(self).nodes(), error),
            result matches Ok((bit, next)) ==> {
                &&& final(self).has(bit)
                &&& final(self).has(next)
                &&& forall|inputs: Inputs| #[trigger]
                    lit_value(final(self).nodes(), inputs, bit) == ((lit_value(
                        old(self).nodes(),
                        inputs,
                        left,
                    ) != lit_value(old(self).nodes(), inputs, right)) != lit_value(
                        old(self).nodes(),
                        inputs,
                        carry,
                    ))
                &&& forall|inputs: Inputs| #[trigger]
                    lit_value(final(self).nodes(), inputs, next) == ((lit_value(
                        old(self).nodes(),
                        inputs,
                        left,
                    ) && lit_value(old(self).nodes(), inputs, right)) || ((lit_value(
                        old(self).nodes(),
                        inputs,
                        left,
                    ) != lit_value(old(self).nodes(), inputs, right)) && lit_value(
                        old(self).nodes(),
                        inputs,
                        carry,
                    )))
            },
    {
        let partial = match self.xor(left, right) {
            Ok(lit) => lit,
            Err(error) => return Err(error),
        };
        let bit = match self.xor(partial, carry) {
            Ok(lit) => lit,
            Err(error) => return Err(error),
        };
        let generate = match self.and(left, right) {
            Ok(lit) => lit,
            Err(error) => return Err(error),
        };
        let propagated = match self.and(partial, carry) {
            Ok(lit) => lit,
            Err(error) => return Err(error),
        };
        let next = match self.or(generate, propagated) {
            Ok(lit) => lit,
            Err(error) => return Err(error),
        };
        Ok((bit, next))
    }

    /// The sum of two rows and a carry, and the carry out.
    fn ripple(&mut self, left: &Vec<Lit>, right: &Vec<Lit>, carry_in: Lit) -> (result: Result<
        (Vec<Lit>, Lit),
        SymbolicError,
    >)
        requires
            old(self).wf(),
            lits_ok(old(self).nodes(), left@),
            lits_ok(old(self).nodes(), right@),
            old(self).has(carry_in),
            left@.len() == right@.len(),
        ensures
            final(self).wf(),
            keeps_values(old(self).nodes(), final(self).nodes()),
            final(self).nodes().len() <= old(self).nodes().len() + 9 * left@.len(),
            result matches Ok(pair) ==> (constant_row(left@) && constant_row(right@) && carry_in.node == 0 ==> constant_row(pair.0@)
                && pair.1.node == 0),
            result matches Err(error) ==> exhausted(final(self).nodes(), error),
            result matches Ok((sum, carry)) ==> {
                &&& sum@.len() == left@.len()
                &&& lits_ok(final(self).nodes(), sum@)
                &&& final(self).has(carry)
                &&& forall|inputs: Inputs| #[trigger]
                    ripple_state(
                        old(self).nodes(),
                        final(self).nodes(),
                        left@,
                        right@,
                        carry_in,
                        sum@,
                        carry,
                        inputs,
                    )
            },
    {
        let ghost start = self.nodes();
        let mut carry = carry_in;
        let mut sum: Vec<Lit> = Vec::new();
        let mut index: usize = 0;
        proof {
            lemma_keeps_values(start, start);
            lemma_state_start(start, left@, right@, carry_in);
            assert(sum@ =~= seq![]);
        }
        while index < left.len()
            invariant
                index <= left.len(),
                sum@.len() == index,
                left@.len() == right@.len(),
                start == old(self).nodes(),
                self.wf(),
                self.has(carry),
                keeps_values(start, self.nodes()),
                self.nodes().len() <= start.len() + 9 * index,
                constant_row(left@) && constant_row(right@) && carry_in.node == 0 ==> constant_row(sum@)
                    && carry.node == 0,
                lits_ok(start, left@),
                lits_ok(start, right@),
                lits_ok(self.nodes(), sum@),
                forall|inputs: Inputs| #[trigger]
                    ripple_state(
                        start,
                        self.nodes(),
                        left@,
                        right@,
                        carry_in,
                        sum@,
                        carry,
                        inputs,
                    ),
            decreases left.len() - index,
        {
            let ghost before = self.nodes();
            let ghost previous = sum@;
            let ghost old_carry = carry;
            assert(left@[index as int].node < start.len());
            assert(right@[index as int].node < start.len());
            let (bit, next) = match self.full_adder(left[index], right[index], carry) {
                Ok(pair) => pair,
                Err(error) => return Err(error),
            };
            proof {
                lemma_state_step(
                    start,
                    before,
                    self.nodes(),
                    left@,
                    right@,
                    carry_in,
                    previous,
                    old_carry,
                    bit,
                    next,
                );
            }
            sum.push(bit);
            carry = next;
            index += 1;
        }
        Ok((sum, carry))
    }

    /// The sum or difference of two words in the result's type.
    pub fn add_sub(
        &mut self,
        left: &Vec<Lit>,
        left_ty: WordType,
        right: &Vec<Lit>,
        right_ty: WordType,
        result_ty: WordType,
        subtract: bool,
    ) -> (result: Result<Vec<Lit>, SymbolicError>)
        requires
            old(self).wf(),
            lits_ok(old(self).nodes(), left@),
            lits_ok(old(self).nodes(), right@),
        ensures
            final(self).wf(),
            keeps_values(old(self).nodes(), final(self).nodes()),
            final(self).nodes().len() <= old(self).nodes().len() + 9 * result_ty.width,
            result matches Ok(bits) ==> (constant_row(left@) && constant_row(right@) ==> constant_row(bits@)),
            result matches Err(error) ==> exhausted(final(self).nodes(), error),
            result matches Ok(bits) ==> {
                &&& lits_ok(final(self).nodes(), bits@)
                &&& forall|inputs: Inputs| #[trigger]
                    lits_value(final(self).nodes(), inputs, bits@) == binary_bits(
                        if subtract {
                            BinaryOp::Sub
                        } else {
                            BinaryOp::Add
                        },
                        lits_value(old(self).nodes(), inputs, left@),
                        left_ty,
                        lits_value(old(self).nodes(), inputs, right@),
                        right_ty,
                        result_ty,
                    )
            },
    {
        let ghost start = self.nodes();
        let l = resize(left, left_ty, result_ty);
        let r = resize(right, right_ty, result_ty);
        proof {
            lemma_resize(start, left@, left_ty, result_ty, l@);
            lemma_resize(start, right@, right_ty, result_ty, r@);
        }
        let operand = if subtract {
            invert(&r)
        } else {
            r
        };
        let carry = Lit::constant(subtract);
        let ghost rbits = if subtract { r@ } else { operand@ };
        proof {
            assert forall|i: int| 0 <= i < operand@.len() implies (#[trigger] operand@[i]).node
                < start.len() by {
                assert(rbits[i].node < start.len());
            }
        }
        let (sum, last) = match self.ripple(&l, &operand, carry) {
            Ok(pair) => pair,
            Err(error) => return Err(error),
        };
        proof {
            assert forall|inputs: Inputs| #[trigger]
                lits_value(self.nodes(), inputs, sum@) == binary_bits(
                    if subtract {
                        BinaryOp::Sub
                    } else {
                        BinaryOp::Add
                    },
                    lits_value(start, inputs, left@),
                    left_ty,
                    lits_value(start, inputs, right@),
                    right_ty,
                    result_ty,
                ) by {
                assert(ripple_state(
                    start,
                    self.nodes(),
                    l@,
                    operand@,
                    carry,
                    sum@,
                    last,
                    inputs,
                ));
                let lb = lits_value(start, inputs, l@);
                let ob = lits_value(start, inputs, operand@);
                let rb = lits_value(start, inputs, rbits);
                lemma_constant_value(start, inputs, subtract);
                lemma_ripple_done(
                    lb,
                    ob,
                    subtract,
                    lits_value(self.nodes(), inputs, sum@),
                    lit_value(self.nodes(), inputs, last),
                );
                if subtract {
                    assert(ob =~= inverse_bits(rb));
                    lemma_difference(lb, rb);
                }
            }
        }
        Ok(sum)
    }

    /// The sum of two rows of one width, without its carry.
    fn add_bits(&mut self, left: &Vec<Lit>, right: &Vec<Lit>, carry_in: Lit) -> (result: Result<
        Vec<Lit>,
        SymbolicError,
    >)
        requires
            old(self).wf(),
            lits_ok(old(self).nodes(), left@),
            lits_ok(old(self).nodes(), right@),
            old(self).has(carry_in),
            left@.len() == right@.len(),
        ensures
            final(self).wf(),
            keeps_values(old(self).nodes(), final(self).nodes()),
            final(self).nodes().len() <= old(self).nodes().len() + 9 * left@.len(),
            result matches Ok(sum) ==> (constant_row(left@) && constant_row(right@) && carry_in.node == 0 ==> constant_row(sum@)),
            result matches Err(error) ==> exhausted(final(self).nodes(), error),
            result matches Ok(sum) ==> {
                &&& sum@.len() == left@.len()
                &&& lits_ok(final(self).nodes(), sum@)
                &&& forall|inputs: Inputs| #[trigger]
                    lits_value(final(self).nodes(), inputs, sum@) == bits_of(
                        (nat_of(lits_value(old(self).nodes(), inputs, left@)) + nat_of(
                            lits_value(old(self).nodes(), inputs, right@),
                        ) + bit_nat(lit_value(old(self).nodes(), inputs, carry_in))) as int,
                        left@.len(),
                    )
            },
    {
        let ghost start = self.nodes();
        let mut carry = carry_in;
        let mut sum: Vec<Lit> = Vec::new();
        let mut index: usize = 0;
        let width: usize = left.len();
        // The carry out of the top bit is not built.
        let ghost mut last: spec_fn(Inputs) -> bool = |inputs: Inputs|
            lit_value(start, inputs, carry_in);
        proof {
            lemma_keeps_values(start, start);
            lemma_state_start(start, left@, right@, carry_in);
            assert(sum@ =~= seq![]);
            assert forall|inputs: Inputs| #[trigger]
                rippled(
                    lits_value(start, inputs, left@),
                    lits_value(start, inputs, right@),
                    lit_value(start, inputs, carry_in),
                    lits_value(start, inputs, sum@),
                    last(inputs),
                ) by {
                assert(ripple_state(start, start, left@, right@, carry_in, sum@, carry_in, inputs));
            }
        }
        while index < width
            invariant
                index <= width,
                width == left@.len(),
                sum@.len() == index,
                left@.len() == right@.len(),
                start == old(self).nodes(),
                self.wf(),
                self.has(carry),
                keeps_values(start, self.nodes()),
                self.nodes().len() <= start.len() + 9 * index,
                constant_row(left@) && constant_row(right@) && carry_in.node == 0 ==> constant_row(sum@)
                    && carry.node == 0,
                lits_ok(start, left@),
                lits_ok(start, right@),
                lits_ok(self.nodes(), sum@),
                forall|inputs: Inputs| #[trigger]
                    rippled(
                        lits_value(start, inputs, left@),
                        lits_value(start, inputs, right@),
                        lit_value(start, inputs, carry_in),
                        lits_value(self.nodes(), inputs, sum@),
                        last(inputs),
                    ),
                index < width ==> forall|inputs: Inputs|
                    last(inputs) == #[trigger] lit_value(self.nodes(), inputs, carry),
            decreases width - index,
        {
            let ghost before = self.nodes();
            let ghost previous = sum@;
            let ghost old_carry = carry;
            let l = left[index];
            let r = right[index];
            assert(left@[index as int].node < start.len());
            assert(right@[index as int].node < start.len());
            let partial = match self.xor(l, r) {
                Ok(lit) => lit,
                Err(error) => return Err(error),
            };
            let bit = match self.xor(partial, carry) {
                Ok(lit) => lit,
                Err(error) => return Err(error),
            };
            sum.push(bit);
            if index + 1 != width {
                let generate = match self.and(l, r) {
                    Ok(lit) => lit,
                    Err(error) => return Err(error),
                };
                let propagated = match self.and(partial, carry) {
                    Ok(lit) => lit,
                    Err(error) => return Err(error),
                };
                carry = match self.or(generate, propagated) {
                    Ok(lit) => lit,
                    Err(error) => return Err(error),
                };
            }
            proof {
                let shown = last;
                last = |inputs: Inputs|
                    (lit_value(start, inputs, l) && lit_value(start, inputs, r)) || ((lit_value(
                        start,
                        inputs,
                        l,
                    ) != lit_value(start, inputs, r)) && shown(inputs));
                assert forall|inputs: Inputs| #[trigger]
                    rippled(
                        lits_value(start, inputs, left@),
                        lits_value(start, inputs, right@),
                        lit_value(start, inputs, carry_in),
                        lits_value(self.nodes(), inputs, sum@),
                        last(inputs),
                    ) by {
                    let lb = lits_value(start, inputs, left@);
                    let rb = lits_value(start, inputs, right@);
                    let sb = lits_value(before, inputs, previous);
                    assert(rippled(lb, rb, lit_value(start, inputs, carry_in), sb, shown(inputs)));
                    lemma_ripple_step(
                        lb,
                        rb,
                        lit_value(start, inputs, carry_in),
                        sb,
                        shown(inputs),
                    );
                    assert(shown(inputs) == lit_value(before, inputs, old_carry));
                    lemma_lits_keep(before, self.nodes(), previous, inputs);
                    assert(lits_value(self.nodes(), inputs, sum@) =~= sb.push(
                        lit_value(self.nodes(), inputs, bit),
                    ));
                    assert(lit_value(before, inputs, l) == lb[index as int]);
                    assert(lit_value(before, inputs, r) == rb[index as int]);
                }
                if index + 1 < width {
                    assert forall|inputs: Inputs|
                        last(inputs) == #[trigger] lit_value(self.nodes(), inputs, carry) by {
                        assert(shown(inputs) == lit_value(before, inputs, old_carry));
                    }
                }
            }
            index += 1;
        }
        proof {
            assert forall|inputs: Inputs| #[trigger]
                lits_value(self.nodes(), inputs, sum@) == bits_of(
                    (nat_of(lits_value(start, inputs, left@)) + nat_of(
                        lits_value(start, inputs, right@),
                    ) + bit_nat(lit_value(start, inputs, carry_in))) as int,
                    left@.len(),
                ) by {
                assert(rippled(
                    lits_value(start, inputs, left@),
                    lits_value(start, inputs, right@),
                    lit_value(start, inputs, carry_in),
                    lits_value(self.nodes(), inputs, sum@),
                    last(inputs),
                ));
                lemma_ripple_done(
                    lits_value(start, inputs, left@),
                    lits_value(start, inputs, right@),
                    lit_value(start, inputs, carry_in),
                    lits_value(self.nodes(), inputs, sum@),
                    last(inputs),
                );
            }
        }
        Ok(sum)
    }

    /// The difference of two rows of one width, and whether nothing was
    /// borrowed.
    fn subtract_bits(&mut self, left: &Vec<Lit>, right: &Vec<Lit>) -> (result: Result<
        (Vec<Lit>, Lit),
        SymbolicError,
    >)
        requires
            old(self).wf(),
            lits_ok(old(self).nodes(), left@),
            lits_ok(old(self).nodes(), right@),
            left@.len() == right@.len(),
        ensures
            final(self).wf(),
            keeps_values(old(self).nodes(), final(self).nodes()),
            final(self).nodes().len() <= old(self).nodes().len() + 9 * left@.len(),
            result matches Ok(pair) ==> (constant_row(left@) && constant_row(right@) ==> constant_row(pair.0@)
                && pair.1.node == 0),
            result matches Err(error) ==> exhausted(final(self).nodes(), error),
            result matches Ok((difference, no_borrow)) ==> {
                &&& difference@.len() == left@.len()
                &&& lits_ok(final(self).nodes(), difference@)
                &&& final(self).has(no_borrow)
                &&& forall|inputs: Inputs| #[trigger]
                    lits_value(final(self).nodes(), inputs, difference@) == bits_of(
                        nat_of(lits_value(old(self).nodes(), inputs, left@)) - nat_of(
                            lits_value(old(self).nodes(), inputs, right@),
                        ),
                        left@.len(),
                    )
                &&& forall|inputs: Inputs| #[trigger]
                    lit_value(final(self).nodes(), inputs, no_borrow) == (nat_of(
                        lits_value(old(self).nodes(), inputs, left@),
                    ) >= nat_of(lits_value(old(self).nodes(), inputs, right@)))
            },
    {
        let ghost start = self.nodes();
        let operand = invert(right);
        let one = Lit::constant(true);
        proof {
            assert forall|i: int| 0 <= i < operand@.len() implies (#[trigger] operand@[i]).node
                < start.len() by {
                assert(right@[i].node < start.len());
            }
        }
        let (sum, carry) = match self.ripple(left, &operand, one) {
            Ok(pair) => pair,
            Err(error) => return Err(error),
        };
        proof {
            assert forall|inputs: Inputs|
                ({
                    let lb = lits_value(start, inputs, left@);
                    let rb = lits_value(start, inputs, right@);
                    &&& #[trigger] lits_value(self.nodes(), inputs, sum@) == bits_of(
                        nat_of(lb) - nat_of(rb),
                        left@.len(),
                    )
                    &&& lit_value(self.nodes(), inputs, carry) == (nat_of(lb) >= nat_of(rb))
                }) by {
                assert(ripple_state(start, self.nodes(), left@, operand@, one, sum@, carry, inputs));
                let lb = lits_value(start, inputs, left@);
                let rb = lits_value(start, inputs, right@);
                let ob = lits_value(start, inputs, operand@);
                lemma_constant_value(start, inputs, true);
                lemma_ripple_done(
                    lb,
                    ob,
                    true,
                    lits_value(self.nodes(), inputs, sum@),
                    lit_value(self.nodes(), inputs, carry),
                );
                assert(ob =~= inverse_bits(rb));
                lemma_difference(lb, rb);
            }
            assert forall|inputs: Inputs| #[trigger]
                lit_value(self.nodes(), inputs, carry) == (nat_of(
                    lits_value(start, inputs, left@),
                ) >= nat_of(lits_value(start, inputs, right@))) by {
                let shown = lits_value(self.nodes(), inputs, sum@);
            }
        }
        Ok((sum, carry))
    }
}

pub(super) fn invert(bits: &Vec<Lit>) -> (result: Vec<Lit>)
    ensures
        result@.len() == bits@.len(),
        forall|i: int| 0 <= i < bits@.len() ==> #[trigger] result@[i] == bits@[i].inverse(),
{
    let mut result: Vec<Lit> = Vec::new();
    let mut index: usize = 0;
    while index < bits.len()
        invariant
            index <= bits.len(),
            result@.len() == index,
            forall|i: int| 0 <= i < index ==> #[trigger] result@[i] == bits@[i].inverse(),
        decreases bits.len() - index,
    {
        result.push(bits[index].inverted());
        index += 1;
    }
    result
}

/// Adding a complement and one subtracts.
proof fn lemma_difference(left: Seq<bool>, right: Seq<bool>)
    requires
        left.len() == right.len(),
    ensures
        bits_of((nat_of(left) + nat_of(inverse_bits(right)) + 1) as int, left.len()) == bits_of(
            nat_of(left) - nat_of(right),
            left.len(),
        ),
        (nat_of(left) + nat_of(inverse_bits(right)) + 1 >= pow2(left.len())) == (nat_of(left)
            >= nat_of(right)),
{
    lemma_nat_inverse(right);
    lemma_nat_bound(right);
    let modulus = pow2(left.len()) as int;
    lemma_pow2_pos(left.len());
    vstd::arithmetic::div_mod::lemma_mod_add_multiples_vanish(
        nat_of(left) - nat_of(right),
        modulus,
    );
    lemma_bits_of_residue(
        (nat_of(left) + nat_of(inverse_bits(right)) + 1) as int,
        nat_of(left) - nat_of(right),
        left.len(),
    );
}

/// The two's complement of a word, if asked for.
pub open spec fn negated(bits: Seq<bool>, negative: bool) -> Seq<bool> {
    if negative {
        bits_of(-(nat_of(bits) as int), bits.len())
    } else {
        bits
    }
}

pub open spec fn xored(bits: Seq<bool>, negative: bool) -> Seq<bool> {
    Seq::new(bits.len(), |i: int| bits[i] != negative)
}

pub open spec fn zeros(width: nat) -> Seq<bool> {
    Seq::new(width, |i: int| false)
}

/// A negation under construction.
pub open spec fn negate_state(
    start: Seq<LogicNode>,
    nodes: Seq<LogicNode>,
    value: Seq<Lit>,
    negative: Lit,
    bits: Seq<Lit>,
    carry: Lit,
    inputs: Inputs,
) -> bool {
    rippled(
        xored(lits_value(start, inputs, value), lit_value(start, inputs, negative)),
        zeros(value.len()),
        lit_value(start, inputs, negative),
        lits_value(nodes, inputs, bits),
        lit_value(nodes, inputs, carry),
    )
}

proof fn lemma_negated(bits: Seq<bool>, negative: bool, sum: Seq<bool>, carry: bool)
    requires
        rippled(xored(bits, negative), zeros(bits.len()), negative, sum, carry),
        sum.len() == bits.len(),
    ensures
        sum == negated(bits, negative),
{
    let x = xored(bits, negative);
    let z = zeros(bits.len());
    lemma_ripple_done(x, z, negative, sum, carry);
    lemma_nat_zero(z);
    if negative {
        assert(x =~= inverse_bits(bits));
        lemma_nat_inverse(bits);
        lemma_pow2_pos(bits.len());
        vstd::arithmetic::div_mod::lemma_mod_add_multiples_vanish(
            -(nat_of(bits) as int),
            pow2(bits.len()) as int,
        );
        lemma_bits_of_residue(
            (nat_of(x) + nat_of(z) + 1) as int,
            -(nat_of(bits) as int),
            bits.len(),
        );
    } else {
        assert(x =~= bits);
        lemma_bits_of_nat(bits);
    }
}

/// Partial product `count` of a multiplication.
pub open spec fn product_bits(left: Seq<bool>, right: Seq<bool>, count: int) -> Seq<bool> {
    bits_of((nat_of(left) * nat_of(right.take(count))) as int, left.len())
}

/// A word shifted up stands for its product with a power of two.
proof fn lemma_shift_left_nat(bits: Seq<bool>, amount: nat)
    requires
        amount <= bits.len(),
    ensures
        shift_left(bits, amount) == bits_of((nat_of(bits) * pow2(amount)) as int, bits.len()),
{
    let w = bits.len();
    let shifted = shift_left(bits, amount);
    let low = bits.take(w - amount);
    let high = bits.skip(w - amount);
    lemma_nat_split(shifted, amount as int);
    assert(shifted.skip(amount as int) =~= low);
    assert(forall|i: int| 0 <= i < amount ==> !shifted.take(amount as int)[i]);
    lemma_nat_zero(shifted.take(amount as int));
    lemma_nat_split(bits, w - amount);
    lemma_pow2_adds(amount, (w - amount) as nat);
    lemma_nat_bound(shifted);
    let p = pow2(amount) as int;
    let q = pow2((w - amount) as nat) as int;
    let m = pow2(w) as int;
    let l = nat_of(low) as int;
    let h = nat_of(high) as int;
    assert((l + q * h) * p == h * m + p * l) by (nonlinear_arith)
        requires
            m == p * q,
    ;
    lemma_mod_is((nat_of(bits) * pow2(amount)) as int, m, h, nat_of(shifted) as int);
    lemma_bits_are(shifted, (nat_of(bits) * pow2(amount)) as int);
}

/// One row of a multiplication.
pub open spec fn row_bits(left: Seq<bool>, right: Seq<bool>, index: int) -> Seq<bool> {
    Seq::new(left.len(), |i: int| i >= index && left[i - index] && right[index])
}

proof fn lemma_product_step(left: Seq<bool>, right: Seq<bool>, index: int)
    requires
        left.len() == right.len(),
        0 <= index < right.len(),
    ensures
        bits_of(
            (nat_of(product_bits(left, right, index)) + nat_of(row_bits(left, right, index))) as int,
            left.len(),
        ) == product_bits(left, right, index + 1),
{
    let w = left.len();
    let m = pow2(w) as int;
    lemma_pow2_pos(w);
    let l = nat_of(left) as int;
    let done = nat_of(right.take(index)) as int;
    let p = pow2(index as nat) as int;
    lemma_nat_take(right, index);
    lemma_nat_of_bits(l * done, w);
    let row = row_bits(left, right, index);
    let addend = if right[index] {
        l * p
    } else {
        0
    };
    if right[index] {
        lemma_shift_left_nat(left, index as nat);
        assert(row =~= shift_left(left, index as nat));
        lemma_nat_of_bits(l * p, w);
    } else {
        lemma_nat_zero(row);
        vstd::arithmetic::div_mod::lemma_small_mod(0, m as nat);
    }
    assert(nat_of(row) == addend % m);
    let next = done + weight(right[index], index as nat);
    assert(l * next == l * done + addend) by (nonlinear_arith)
        requires
            next == done + (if addend == l * p && right[index] {
                p
            } else {
                0
            }),
            addend == (if right[index] {
                l * p
            } else {
                0
            }),
    ;
    vstd::arithmetic::div_mod::lemma_add_mod_noop(l * done, addend, m);
    lemma_bits_of_residue(
        (nat_of(product_bits(left, right, index)) + nat_of(row)) as int,
        l * next,
        w,
    );
}

impl SymbolicLogic {
    /// A row and, where `negative` holds, its two's complement.
    fn conditional_negate_bits(&mut self, value: &Vec<Lit>, negative: Lit) -> (result: Result<
        Vec<Lit>,
        SymbolicError,
    >)
        requires
            old(self).wf(),
            lits_ok(old(self).nodes(), value@),
            old(self).has(negative),
        ensures
            final(self).wf(),
            keeps_values(old(self).nodes(), final(self).nodes()),
            final(self).nodes().len() <= old(self).nodes().len() + 7 * value@.len(),
            result matches Ok(bits) ==> (constant_row(value@) && negative.node == 0 ==> constant_row(bits@)),
            result matches Err(error) ==> exhausted(final(self).nodes(), error),
            result matches Ok(bits) ==> {
                &&& bits@.len() == value@.len()
                &&& lits_ok(final(self).nodes(), bits@)
                &&& forall|inputs: Inputs| #[trigger]
                    lits_value(final(self).nodes(), inputs, bits@) == negated(
                        lits_value(old(self).nodes(), inputs, value@),
                        lit_value(old(self).nodes(), inputs, negative),
                    )
            },
    {
        let ghost start = self.nodes();
        let mut carry = negative;
        let mut bits: Vec<Lit> = Vec::new();
        let mut index: usize = 0;
        proof {
            lemma_keeps_values(start, start);
            assert forall|inputs: Inputs| #[trigger]
                negate_state(start, start, value@, negative, bits@, carry, inputs) by {
                assert(lits_value(start, inputs, bits@) =~= seq![]);
                lemma_ripple_start(
                    xored(
                        lits_value(start, inputs, value@),
                        lit_value(start, inputs, negative),
                    ),
                    zeros(value@.len()),
                    lit_value(start, inputs, negative),
                );
            }
        }
        while index < value.len()
            invariant
                index <= value.len(),
                bits@.len() == index,
                start == old(self).nodes(),
                self.wf(),
                self.has(carry),
                negative.node < start.len(),
                keeps_values(start, self.nodes()),
                self.nodes().len() <= start.len() + 7 * index,
                constant_row(value@) && negative.node == 0 ==> constant_row(bits@) && carry.node == 0,
                lits_ok(start, value@),
                lits_ok(self.nodes(), bits@),
                forall|inputs: Inputs| #[trigger]
                    negate_state(start, self.nodes(), value@, negative, bits@, carry, inputs),
            decreases value.len() - index,
        {
            let ghost before = self.nodes();
            let ghost previous = bits@;
            let ghost old_carry = carry;
            assert(value@[index as int].node < start.len());
            let inverted = match self.xor(value[index], negative) {
                Ok(lit) => lit,
                Err(error) => return Err(error),
            };
            let bit = match self.xor(inverted, carry) {
                Ok(lit) => lit,
                Err(error) => return Err(error),
            };
            bits.push(bit);
            carry = match self.and(inverted, carry) {
                Ok(lit) => lit,
                Err(error) => return Err(error),
            };
            proof {
                assert forall|inputs: Inputs| #[trigger]
                    negate_state(start, self.nodes(), value@, negative, bits@, carry, inputs) by {
                    let n = lit_value(start, inputs, negative);
                    let x = xored(lits_value(start, inputs, value@), n);
                    let s = lits_value(before, inputs, previous);
                    let c = lit_value(before, inputs, old_carry);
                    assert(negate_state(
                        start,
                        before,
                        value@,
                        negative,
                        previous,
                        old_carry,
                        inputs,
                    ));
                    lemma_ripple_step(x, zeros(value@.len()), n, s, c);
                    lemma_lits_keep(before, self.nodes(), previous, inputs);
                    assert(lit_value(before, inputs, value@[index as int]) == lit_value(
                        start,
                        inputs,
                        value@[index as int],
                    ));
                    assert(lits_value(self.nodes(), inputs, bits@) =~= s.push(
                        lit_value(self.nodes(), inputs, bit),
                    ));
                    assert(lit_value(self.nodes(), inputs, bit) == (x[index as int] != c));
                    assert(lit_value(self.nodes(), inputs, carry) == (x[index as int] && c));
                }
            }
            index += 1;
        }
        proof {
            assert forall|inputs: Inputs| #[trigger]
                lits_value(self.nodes(), inputs, bits@) == negated(
                    lits_value(start, inputs, value@),
                    lit_value(start, inputs, negative),
                ) by {
                assert(negate_state(start, self.nodes(), value@, negative, bits@, carry, inputs));
                lemma_negated(
                    lits_value(start, inputs, value@),
                    lit_value(start, inputs, negative),
                    lits_value(self.nodes(), inputs, bits@),
                    lit_value(self.nodes(), inputs, carry),
                );
            }
        }
        Ok(bits)
    }

    /// One row of a multiplication.
    fn product_row(&mut self, left: &Vec<Lit>, right_bit: Lit, right_index: usize) -> (result:
        Result<Vec<Lit>, SymbolicError>)
        requires
            old(self).wf(),
            lits_ok(old(self).nodes(), left@),
            old(self).has(right_bit),
        ensures
            final(self).wf(),
            keeps_values(old(self).nodes(), final(self).nodes()),
            final(self).nodes().len() <= old(self).nodes().len() + left@.len(),
            result matches Ok(row) ==> (constant_row(left@) && right_bit.node == 0 ==> constant_row(row@)),
            result matches Err(error) ==> exhausted(final(self).nodes(), error),
            result matches Ok(row) ==> {
                &&& row@.len() == left@.len()
                &&& lits_ok(final(self).nodes(), row@)
                &&& forall|inputs: Inputs, i: int|
                    0 <= i < row@.len() ==> #[trigger] lit_value(
                        final(self).nodes(),
                        inputs,
                        row@[i],
                    ) == (i >= right_index && lit_value(
                        old(self).nodes(),
                        inputs,
                        left@[i - right_index],
                    ) && lit_value(old(self).nodes(), inputs, right_bit))
            },
    {
        let ghost start = self.nodes();
        proof {
            lemma_keeps_values(start, start);
        }
        let mut row: Vec<Lit> = Vec::new();
        let mut index: usize = 0;
        while index < left.len()
            invariant
                index <= left.len(),
                row@.len() == index,
                start == old(self).nodes(),
                self.wf(),
                right_bit.node < start.len(),
                keeps_values(start, self.nodes()),
                self.nodes().len() <= start.len() + index,
                constant_row(left@) && right_bit.node == 0 ==> constant_row(row@),
                lits_ok(start, left@),
                lits_ok(self.nodes(), row@),
                forall|inputs: Inputs, i: int|
                    0 <= i < row@.len() ==> #[trigger] lit_value(self.nodes(), inputs, row@[i]) == (
                    i >= right_index && lit_value(start, inputs, left@[i - right_index])
                        && lit_value(start, inputs, right_bit)),
            decreases left.len() - index,
        {
            let ghost before = self.nodes();
            let ghost previous = row@;
            if index < right_index {
                row.push(Lit::constant(false));
            } else {
                assert(left@[index - right_index].node < start.len());
                let bit = match self.and(left[index - right_index], right_bit) {
                    Ok(lit) => lit,
                    Err(error) => return Err(error),
                };
                row.push(bit);
            }
            proof {
                assert forall|inputs: Inputs, i: int|
                    0 <= i < row@.len() implies #[trigger] lit_value(
                    self.nodes(),
                    inputs,
                    row@[i],
                ) == (i >= right_index && lit_value(start, inputs, left@[i - right_index])
                    && lit_value(start, inputs, right_bit)) by {
                    if i < index {
                        assert(row@[i] == previous[i]);
                        assert(previous[i].node < before.len());
                    }
                }
            }
            index += 1;
        }
        Ok(row)
    }

    /// The product of two words in the result's type.
    pub fn multiply(
        &mut self,
        left: &Vec<Lit>,
        left_ty: WordType,
        right: &Vec<Lit>,
        right_ty: WordType,
        result_ty: WordType,
    ) -> (result: Result<Vec<Lit>, SymbolicError>)
        requires
            old(self).wf(),
            lits_ok(old(self).nodes(), left@),
            lits_ok(old(self).nodes(), right@),
        ensures
            final(self).wf(),
            keeps_values(old(self).nodes(), final(self).nodes()),
            final(self).nodes().len() <= old(self).nodes().len() + product_cost(result_ty.width as nat),
            result matches Ok(bits) ==> (constant_row(left@) && constant_row(right@) ==> constant_row(bits@)),
            result matches Err(error) ==> exhausted(final(self).nodes(), error),
            result matches Ok(bits) ==> {
                &&& lits_ok(final(self).nodes(), bits@)
                &&& forall|inputs: Inputs| #[trigger]
                    lits_value(final(self).nodes(), inputs, bits@) == binary_bits(
                        BinaryOp::Mul,
                        lits_value(old(self).nodes(), inputs, left@),
                        left_ty,
                        lits_value(old(self).nodes(), inputs, right@),
                        right_ty,
                        result_ty,
                    )
            },
    {
        let ghost start = self.nodes();
        let l = resize(left, left_ty, result_ty);
        let r = resize(right, right_ty, result_ty);
        proof {
            lemma_keeps_values(start, start);
            lemma_resize(start, left@, left_ty, result_ty, l@);
            lemma_resize(start, right@, right_ty, result_ty, r@);
        }
        let mut product = clear_row(l.len());
        let mut index: usize = 0;
        proof {
            assert forall|inputs: Inputs| #[trigger]
                lits_value(start, inputs, product@) == product_bits(
                    lits_value(start, inputs, l@),
                    lits_value(start, inputs, r@),
                    0,
                ) by {
                let lb = lits_value(start, inputs, l@);
                let rb = lits_value(start, inputs, r@);
                let pb = lits_value(start, inputs, product@);
                lemma_constant_value(start, inputs, false);
                assert(rb.take(0).len() == 0);
                lemma_nat_zero(pb);
                assert(nat_of(lb) * 0 == 0) by (nonlinear_arith);
                lemma_pow2_pos(lb.len());
                vstd::arithmetic::div_mod::lemma_small_mod(0, pow2(lb.len()));
                lemma_bits_are(pb, 0);
            }
        }
        while index < r.len()
            invariant
                index <= r.len(),
                l@.len() == result_ty.width,
                l@.len() == r@.len(),
                product@.len() == l@.len(),
                start == old(self).nodes(),
                self.wf(),
                keeps_values(start, self.nodes()),
                self.nodes().len() <= start.len() + index * (10 * l@.len()),
                constant_row(l@) && constant_row(r@) ==> constant_row(product@),
                lits_ok(start, l@),
                lits_ok(start, r@),
                lits_ok(self.nodes(), product@),
                forall|inputs: Inputs| #[trigger]
                    lits_value(self.nodes(), inputs, product@) == product_bits(
                        lits_value(start, inputs, l@),
                        lits_value(start, inputs, r@),
                        index as int,
                    ),
            decreases r.len() - index,
        {
            let ghost before = self.nodes();
            let ghost previous = product@;
            proof {
                lemma_share(index as nat, r@.len(), 10 * l@.len());
            }
            assert(r@[index as int].node < start.len());
            proof {
                assert forall|i: int| 0 <= i < l@.len() implies (#[trigger] l@[i]).node
                    < before.len() by {
                    assert(l@[i].node < start.len());
                }
            }
            let row = match self.product_row(&l, r[index], index) {
                Ok(row) => row,
                Err(error) => return Err(error),
            };
            let ghost middle = self.nodes();
            proof {
                assert forall|i: int| 0 <= i < previous.len() implies (#[trigger] previous[i]).node
                    < middle.len() by {
                    assert(previous[i].node < before.len());
                }
            }
            let zero = Lit::constant(false);
            product = match self.add_bits(&product, &row, zero) {
                Ok(sum) => sum,
                Err(error) => return Err(error),
            };
            proof {
                assert forall|inputs: Inputs| #[trigger]
                    lits_value(self.nodes(), inputs, product@) == product_bits(
                        lits_value(start, inputs, l@),
                        lits_value(start, inputs, r@),
                        index + 1,
                    ) by {
                    let lb = lits_value(start, inputs, l@);
                    let rb = lits_value(start, inputs, r@);
                    assert(lits_value(before, inputs, previous) == product_bits(
                        lb,
                        rb,
                        index as int,
                    ));
                    lemma_lits_keep(before, middle, previous, inputs);
                    lemma_constant_value(middle, inputs, false);
                    assert forall|i: int| 0 <= i < row@.len() implies lit_value(
                        middle,
                        inputs,
                        #[trigger] row@[i],
                    ) == row_bits(lb, rb, index as int)[i] by {
                        if i >= index {
                            assert(l@[i - index].node < start.len());
                        }
                        assert(lit_value(middle, inputs, row@[i]) == (i >= index && lit_value(
                            before,
                            inputs,
                            l@[i - index],
                        ) && lit_value(before, inputs, r@[index as int])));
                    }
                    assert(lits_value(middle, inputs, row@) =~= row_bits(lb, rb, index as int));
                    lemma_product_step(lb, rb, index as int);
                }
            }
            index += 1;
        }
        proof {
            assert forall|inputs: Inputs| #[trigger]
                lits_value(self.nodes(), inputs, product@) == binary_bits(
                    BinaryOp::Mul,
                    lits_value(start, inputs, left@),
                    left_ty,
                    lits_value(start, inputs, right@),
                    right_ty,
                    result_ty,
                ) by {
                let rb = lits_value(start, inputs, r@);
                let lb = lits_value(start, inputs, l@);
                assert(rb.take(rb.len() as int) =~= rb);
            }
        }
        Ok(product)
    }
}

pub(super) fn clear_row(width: usize) -> (row: Vec<Lit>)
    ensures
        row@.len() == width,
        forall|i: int| 0 <= i < width ==> #[trigger] row@[i] == Lit::constant_spec(false),
{
    let mut row: Vec<Lit> = Vec::new();
    while row.len() < width
        invariant
            row@.len() <= width,
            forall|i: int| 0 <= i < row@.len() ==> #[trigger] row@[i] == Lit::constant_spec(false),
        decreases width - row.len(),
    {
        row.push(Lit::constant(false));
    }
    row
}

proof fn lemma_divide_digit(top: int, divisor: int, bit: int)
    requires
        divisor > 0,
        0 <= bit <= 1,
    ensures
        ({
            let value = 2 * (top % divisor) + bit;
            &&& value < 2 * divisor
            &&& (2 * top + bit) / divisor == 2 * (top / divisor) + (if value >= divisor {
                1int
            } else {
                0int
            })
            &&& (2 * top + bit) % divisor == (if value >= divisor {
                value - divisor
            } else {
                value
            })
        }),
{
    vstd::arithmetic::div_mod::lemma_fundamental_div_mod(top, divisor);
    let q = top / divisor;
    let r = top % divisor;
    assert(divisor * q == q * divisor) by (nonlinear_arith);
    assert((2 * q) * divisor == 2 * (q * divisor)) by (nonlinear_arith);
    assert((2 * q + 1) * divisor == 2 * (q * divisor) + divisor) by (nonlinear_arith);
    let value = 2 * r + bit;
    if value >= divisor {
        lemma_mod_is(2 * top + bit, divisor, 2 * q + 1, value - divisor);
    } else {
        lemma_mod_is(2 * top + bit, divisor, 2 * q, value);
    }
}

/// A long division whose digits from `index` up are settled.
pub open spec fn divided(
    dividend: Seq<bool>,
    divisor: Seq<bool>,
    partial: Seq<bool>,
    quotient: Seq<bool>,
    index: int,
) -> bool {
    let d = nat_of(divisor) as int;
    let top = nat_of(dividend.skip(index)) as int;
    d > 0 ==> nat_of(partial) == top % d && nat_of(quotient.skip(index)) == top / d
}

pub open spec fn divide_state(
    start: Seq<LogicNode>,
    nodes: Seq<LogicNode>,
    dividend: Seq<Lit>,
    divisor: Seq<Lit>,
    partial: Seq<Lit>,
    quotient: Seq<Lit>,
    index: int,
    inputs: Inputs,
) -> bool {
    divided(
        lits_value(start, inputs, dividend),
        lits_value(start, inputs, divisor),
        lits_value(nodes, inputs, partial),
        lits_value(nodes, inputs, quotient),
        index,
    )
}

proof fn lemma_divide_step(
    dividend: Seq<bool>,
    divisor: Seq<bool>,
    partial: Seq<bool>,
    quotient: Seq<bool>,
    index: int,
    shifted: Seq<bool>,
    difference: Seq<bool>,
    no_borrow: bool,
)
    requires
        0 <= index < dividend.len(),
        divisor.len() == dividend.len(),
        partial.len() == dividend.len() + 1,
        quotient.len() == dividend.len(),
        divided(dividend, divisor, partial, quotient, index + 1),
        shifted == seq![dividend[index]] + partial.take(dividend.len() as int),
        difference == bits_of(nat_of(shifted) - nat_of(divisor), shifted.len()),
        no_borrow == (nat_of(shifted) >= nat_of(divisor)),
    ensures
        divided(
            dividend,
            divisor,
            if no_borrow {
                difference
            } else {
                shifted
            },
            quotient.update(index, no_borrow),
            index,
        ),
{
    let n = dividend.len();
    let d = nat_of(divisor) as int;
    if d > 0 {
        let top = nat_of(dividend.skip(index + 1)) as int;
        let bit = bit_nat(dividend[index]) as int;
        lemma_nat_skip(dividend, index);
        vstd::arithmetic::div_mod::lemma_fundamental_div_mod(top, d);
        lemma_nat_bound(divisor);
        assert(0 <= top % d < d) by {
            vstd::arithmetic::div_mod::lemma_mod_bound(top, d);
        }
        let low = partial.take(n as int);
        assert(partial =~= low.push(partial.last()));
        lemma_nat_top(low, partial.last());
        assert(nat_of(partial) == nat_of(low));
        lemma_nat_first(shifted);
        assert(shifted.skip(1) =~= low);
        lemma_divide_digit(top, d, bit);
        let next = quotient.update(index, no_borrow);
        lemma_nat_skip(next, index);
        assert(next.skip(index + 1) =~= quotient.skip(index + 1));
        if no_borrow {
            lemma_nat_of_bits(nat_of(shifted) - nat_of(divisor), shifted.len());
            lemma_nat_bound(shifted);
            vstd::arithmetic::div_mod::lemma_small_mod(
                (nat_of(shifted) - nat_of(divisor)) as nat,
                pow2(shifted.len()),
            );
        }
    }
}

/// The magnitude of a two's complement word.
proof fn lemma_magnitude(bits: Seq<bool>)
    requires
        bits.len() > 0,
    ensures
        nat_of(negated(bits, bits.last())) == (if int_of(bits) >= 0 {
            int_of(bits)
        } else {
            -int_of(bits)
        }),
        bits.last() == (int_of(bits) < 0),
        (int_of(bits) == 0) == (nat_of(bits) == 0),
{
    lemma_nat_bound(bits);
    lemma_pow2_pos((bits.len() - 1) as nat);
    assert(nat_of(bits) == nat_of(bits.drop_last()) + weight(
        bits.last(),
        (bits.len() - 1) as nat,
    ));
    if bits.last() {
        let n = nat_of(bits) as int;
        let m = pow2(bits.len()) as int;
        lemma_nat_of_bits(-n, bits.len());
        lemma_mod_is(-n, m, -1, m - n);
    }
}

proof fn lemma_signed_division(left: Seq<bool>, right: Seq<bool>, remainder: bool, value: Seq<bool>)
    requires
        left.len() == right.len(),
        left.len() > 0,
        nat_of(right) != 0,
        ({
            let dividend = nat_of(negated(left, left.last())) as int;
            let divisor = nat_of(negated(right, right.last())) as int;
            value == bits_of(
                if remainder {
                    dividend % divisor
                } else {
                    dividend / divisor
                },
                left.len(),
            )
        }),
    ensures
        negated(
            value,
            if remainder {
                left.last()
            } else {
                left.last() != right.last()
            },
        ) == divide_bits(left, right, true, remainder),
{
    lemma_magnitude(left);
    lemma_magnitude(right);
    let dividend = nat_of(negated(left, left.last())) as int;
    let divisor = nat_of(negated(right, right.last())) as int;
    let w = left.len();
    let m = pow2(w) as int;
    lemma_nat_bound(negated(left, left.last()));
    let result = if remainder {
        dividend % divisor
    } else {
        dividend / divisor
    };
    assert(0 <= result <= dividend) by {
        if remainder {
            vstd::arithmetic::div_mod::lemma_mod_bound(dividend, divisor);
            vstd::arithmetic::div_mod::lemma_mod_decreases(dividend as nat, divisor as nat);
        } else {
            vstd::arithmetic::div_mod::lemma_div_pos_is_pos(dividend, divisor);
            vstd::arithmetic::div_mod::lemma_div_nonincreasing(dividend, divisor);
        }
    }
    lemma_nat_of_bits(result, w);
    vstd::arithmetic::div_mod::lemma_small_mod(result as nat, m as nat);
    assert(nat_of(value) == result);
}

impl SymbolicLogic {
    /// Selects between two rows of one width.
    pub fn select_rows(&mut self, condition: Lit, when_true: &Vec<Lit>, when_false: &Vec<Lit>)
        -> (result: Result<Vec<Lit>, SymbolicError>)
        requires
            old(self).wf(),
            old(self).has(condition),
            lits_ok(old(self).nodes(), when_true@),
            lits_ok(old(self).nodes(), when_false@),
            when_true@.len() == when_false@.len(),
        ensures
            final(self).wf(),
            keeps_values(old(self).nodes(), final(self).nodes()),
            result matches Ok(bits) ==> forall|i: int|
                0 <= i < bits@.len() ==> (#[trigger] simple_select(condition, when_true@[i], when_false@[i]) matches Some(
                    simple,
                ) ==> bits@[i] == simple),
            final(self).nodes().len() <= old(self).nodes().len() + 3 * when_true@.len(),
            result matches Ok(bits) ==> (condition.node == 0 ==> bits@ == (if condition.inverted {
                when_true@
            } else {
                when_false@
            })),
            result matches Err(error) ==> exhausted(final(self).nodes(), error),
            result matches Ok(bits) ==> {
                &&& bits@.len() == when_true@.len()
                &&& lits_ok(final(self).nodes(), bits@)
                &&& forall|inputs: Inputs| #[trigger]
                    lits_value(final(self).nodes(), inputs, bits@) == (if lit_value(
                        old(self).nodes(),
                        inputs,
                        condition,
                    ) {
                        lits_value(old(self).nodes(), inputs, when_true@)
                    } else {
                        lits_value(old(self).nodes(), inputs, when_false@)
                    })
            },
    {
        let ghost start = self.nodes();
        proof {
            lemma_keeps_values(start, start);
        }
        let mut bits: Vec<Lit> = Vec::new();
        let mut index: usize = 0;
        while index < when_true.len()
            invariant
                index <= when_true.len(),
                bits@.len() == index,
                when_true@.len() == when_false@.len(),
                start == old(self).nodes(),
                self.wf(),
                condition.node < start.len(),
                keeps_values(start, self.nodes()),
                forall|i: int|
                    0 <= i < index ==> (#[trigger] simple_select(condition, when_true@[i], when_false@[i]) matches Some(
                        simple,
                    ) ==> bits@[i] == simple),
                self.nodes().len() <= start.len() + 3 * index,
                condition.node == 0 ==> forall|i: int|
                    0 <= i < index ==> #[trigger] bits@[i] == (if condition.inverted {
                        when_true@[i]
                    } else {
                        when_false@[i]
                    }),
                lits_ok(start, when_true@),
                lits_ok(start, when_false@),
                lits_ok(self.nodes(), bits@),
                forall|inputs: Inputs, i: int|
                    0 <= i < index ==> #[trigger] lit_value(self.nodes(), inputs, bits@[i]) == (
                    if lit_value(start, inputs, condition) {
                        lit_value(start, inputs, when_true@[i])
                    } else {
                        lit_value(start, inputs, when_false@[i])
                    }),
            decreases when_true.len() - index,
        {
            let ghost before = self.nodes();
            let ghost previous = bits@;
            assert(when_true@[index as int].node < start.len());
            assert(when_false@[index as int].node < start.len());
            let bit = match self.select(condition, when_true[index], when_false[index]) {
                Ok(lit) => lit,
                Err(error) => return Err(error),
            };
            bits.push(bit);
            proof {
                assert forall|inputs: Inputs, i: int|
                    0 <= i < index + 1 implies #[trigger] lit_value(self.nodes(), inputs, bits@[i])
                    == (if lit_value(start, inputs, condition) {
                    lit_value(start, inputs, when_true@[i])
                } else {
                    lit_value(start, inputs, when_false@[i])
                }) by {
                    if i < index {
                        assert(bits@[i] == previous[i]);
                        assert(previous[i].node < before.len());
                    }
                }
            }
            index += 1;
        }
        proof {
            assert forall|inputs: Inputs| #[trigger]
                lits_value(self.nodes(), inputs, bits@) == (if lit_value(start, inputs, condition) {
                    lits_value(start, inputs, when_true@)
                } else {
                    lits_value(start, inputs, when_false@)
                }) by {
                assert(lits_value(self.nodes(), inputs, bits@) =~= (if lit_value(
                    start,
                    inputs,
                    condition,
                ) {
                    lits_value(start, inputs, when_true@)
                } else {
                    lits_value(start, inputs, when_false@)
                }));
            }
        }
        proof {
            if condition.node == 0 {
                assert(bits@ =~= (if condition.inverted {
                    when_true@
                } else {
                    when_false@
                }));
            }
        }
        Ok(bits)
    }

    /// Quotient and remainder of two unsigned rows; nothing is said of a zero
    /// divisor.
    fn unsigned_divide_bits(&mut self, dividend: &Vec<Lit>, divisor: &Vec<Lit>) -> (result: Result<
        (Vec<Lit>, Vec<Lit>),
        SymbolicError,
    >)
        requires
            old(self).wf(),
            lits_ok(old(self).nodes(), dividend@),
            lits_ok(old(self).nodes(), divisor@),
            dividend@.len() == divisor@.len(),
            dividend@.len() < usize::MAX,
        ensures
            final(self).wf(),
            keeps_values(old(self).nodes(), final(self).nodes()),
            final(self).nodes().len() <= old(self).nodes().len() + 12 * (dividend@.len() * (dividend@.len() + 1)),
            result matches Ok(pair) ==> (constant_row(dividend@) && constant_row(divisor@) ==> constant_row(pair.0@)
                && constant_row(pair.1@)),
            result matches Err(error) ==> exhausted(final(self).nodes(), error),
            result matches Ok((quotient, modulus)) ==> {
                &&& quotient@.len() == dividend@.len()
                &&& modulus@.len() == dividend@.len()
                &&& lits_ok(final(self).nodes(), quotient@)
                &&& lits_ok(final(self).nodes(), modulus@)
                &&& forall|inputs: Inputs|
                    nat_of(lits_value(old(self).nodes(), inputs, divisor@)) > 0
                        ==> #[trigger] lits_value(final(self).nodes(), inputs, quotient@)
                        == bits_of(
                        nat_of(lits_value(old(self).nodes(), inputs, dividend@)) as int / nat_of(
                            lits_value(old(self).nodes(), inputs, divisor@),
                        ) as int,
                        dividend@.len(),
                    )
                &&& forall|inputs: Inputs|
                    nat_of(lits_value(old(self).nodes(), inputs, divisor@)) > 0
                        ==> #[trigger] lits_value(final(self).nodes(), inputs, modulus@) == bits_of(
                        nat_of(lits_value(old(self).nodes(), inputs, dividend@)) as int % nat_of(
                            lits_value(old(self).nodes(), inputs, divisor@),
                        ) as int,
                        dividend@.len(),
                    )
            },
    {
        let ghost start = self.nodes();
        let width: usize = dividend.len();
        let mut partial = clear_row(width + 1);
        let mut divisor_extended = clear_row(0);
        let mut filled: usize = 0;
        while filled < width
            invariant
                filled <= width,
                width == divisor@.len(),
                divisor_extended@.len() == filled,
                forall|i: int| 0 <= i < filled ==> #[trigger] divisor_extended@[i] == divisor@[i],
            decreases width - filled,
        {
            divisor_extended.push(divisor[filled]);
            filled += 1;
        }
        divisor_extended.push(Lit::constant(false));
        let mut quotient = clear_row(width);
        let mut index: usize = width;
        proof {
            lemma_keeps_values(start, start);
            assert forall|inputs: Inputs| #[trigger]
                divide_state(
                    start,
                    start,
                    dividend@,
                    divisor@,
                    partial@,
                    quotient@,
                    width as int,
                    inputs,
                ) by {
                lemma_constant_value(start, inputs, false);
                lemma_nat_zero(lits_value(start, inputs, partial@));
                let d = nat_of(lits_value(start, inputs, divisor@));
                assert(lits_value(start, inputs, dividend@).skip(width as int).len() == 0);
                assert(lits_value(start, inputs, quotient@).skip(width as int).len() == 0);
                if d > 0 {
                    vstd::arithmetic::div_mod::lemma_small_mod(0, d);
                    vstd::arithmetic::div_mod::lemma_div_basics(d as int);
                }
            }
        }
        while index > 0
            invariant
                index <= width,
                width == dividend@.len(),
                width == divisor@.len(),
                width < usize::MAX,
                partial@.len() == width + 1,
                quotient@.len() == width,
                divisor_extended@.len() == width + 1,
                forall|i: int| 0 <= i < width ==> #[trigger] divisor_extended@[i] == divisor@[i],
                divisor_extended@[width as int] == Lit::constant_spec(false),
                start == old(self).nodes(),
                self.wf(),
                nodes_start(start),
                keeps_values(start, self.nodes()),
                self.nodes().len() <= start.len() + (width - index) * (12 * (width + 1)),
                constant_row(dividend@) && constant_row(divisor@) ==> constant_row(partial@)
                    && constant_row(quotient@),
                lits_ok(start, dividend@),
                lits_ok(start, divisor@),
                lits_ok(self.nodes(), partial@),
                lits_ok(self.nodes(), quotient@),
                forall|inputs: Inputs| #[trigger]
                    divide_state(
                        start,
                        self.nodes(),
                        dividend@,
                        divisor@,
                        partial@,
                        quotient@,
                        index as int,
                        inputs,
                    ),
            decreases index,
        {
            index -= 1;
            let ghost before = self.nodes();
            let ghost old_partial = partial@;
            let ghost old_quotient = quotient@;
            proof {
                lemma_share((width - 1 - index) as nat, width as nat, (12 * (width + 1)) as nat);
                lemma_division_cost(width as nat);
            }
            let mut shifted: Vec<Lit> = Vec::new();
            shifted.push(dividend[index]);
            while shifted.len() < width + 1
                invariant
                    1 <= shifted@.len() <= width + 1,
                    width < usize::MAX,
                    partial@.len() == width + 1,
                    shifted@[0] == dividend@[index as int],
                    forall|i: int|
                        1 <= i < shifted@.len() ==> #[trigger] shifted@[i] == partial@[i - 1],
                decreases width + 1 - shifted.len(),
            {
                shifted.push(partial[shifted.len() - 1]);
            }
            proof {
                assert forall|i: int| 0 <= i < shifted@.len() implies (#[trigger] shifted@[i]).node
                    < before.len() by {
                    if i == 0 {
                        assert(dividend@[index as int].node < start.len());
                    } else {
                        assert(old_partial[i - 1].node < before.len());
                    }
                }
                assert forall|i: int| 0 <= i < divisor_extended@.len() implies (
                #[trigger] divisor_extended@[i]).node < before.len() by {
                    if i < width {
                        assert(divisor@[i].node < start.len());
                    }
                }
            }
            let (difference, no_borrow) = match self.subtract_bits(&shifted, &divisor_extended) {
                Ok(pair) => pair,
                Err(error) => return Err(error),
            };
            let ghost middle = self.nodes();
            proof {
                assert forall|i: int| 0 <= i < shifted@.len() implies (#[trigger] shifted@[i]).node
                    < middle.len() by {
                    assert(shifted@[i].node < before.len());
                }
            }
            partial = match self.select_rows(no_borrow, &difference, &shifted) {
                Ok(row) => row,
                Err(error) => return Err(error),
            };
            quotient.set(index, no_borrow);
            proof {
                assert forall|i: int| 0 <= i < quotient@.len() implies (
                #[trigger] quotient@[i]).node < self.nodes().len() by {
                    if i != index {
                        assert(old_quotient[i].node < before.len());
                    }
                }
                assert forall|inputs: Inputs| #[trigger]
                    divide_state(
                        start,
                        self.nodes(),
                        dividend@,
                        divisor@,
                        partial@,
                        quotient@,
                        index as int,
                        inputs,
                    ) by {
                    assert(divide_state(
                        start,
                        before,
                        dividend@,
                        divisor@,
                        old_partial,
                        old_quotient,
                        index + 1,
                        inputs,
                    ));
                    let db = lits_value(start, inputs, dividend@);
                    let vb = lits_value(start, inputs, divisor@);
                    let pb = lits_value(before, inputs, old_partial);
                    let qb = lits_value(before, inputs, old_quotient);
                    let sb = lits_value(before, inputs, shifted@);
                    let eb = lits_value(before, inputs, divisor_extended@);
                    let fb = lits_value(middle, inputs, difference@);
                    let nb = lit_value(middle, inputs, no_borrow);
                    lemma_constant_value(before, inputs, false);
                    assert(dividend@[index as int].node < start.len());
                    assert(sb =~= seq![db[index as int]] + pb.take(width as int));
                    assert(eb =~= vb.push(false)) by {
                        assert forall|i: int| 0 <= i < width implies eb[i] == vb[i] by {
                            assert(divisor@[i].node < start.len());
                            assert(divisor_extended@[i] == divisor@[i]);
                        }
                    }
                    lemma_nat_top(vb, false);
                    lemma_lits_keep(before, middle, shifted@, inputs);
                    lemma_divide_step(db, vb, pb, qb, index as int, sb, fb, nb);
                    lemma_lits_keep(before, self.nodes(), old_quotient, inputs);
                    assert(lits_value(self.nodes(), inputs, quotient@) =~= qb.update(
                        index as int,
                        nb,
                    ));
                }
            }
        }
        let ghost full = partial@;
        proof {
            lemma_division_cost(width as nat);
            assert((width - index) * (12 * (width + 1)) == width * (12 * (width + 1)));
        }
        let top = partial.pop();
        proof {
            assert forall|i: int| 0 <= i < partial@.len() implies (#[trigger] partial@[i]).node
                < self.nodes().len() by {
                assert(full[i].node < self.nodes().len());
            }
            assert forall|inputs: Inputs|
                nat_of(lits_value(start, inputs, divisor@)) > 0 implies #[trigger] lits_value(
                self.nodes(),
                inputs,
                quotient@,
            ) == bits_of(
                nat_of(lits_value(start, inputs, dividend@)) as int / nat_of(
                    lits_value(start, inputs, divisor@),
                ) as int,
                width as nat,
            ) by {
                lemma_divide_done(start, self.nodes(), dividend@, divisor@, full, quotient@, inputs);
            }
            assert forall|inputs: Inputs|
                nat_of(lits_value(start, inputs, divisor@)) > 0 implies #[trigger] lits_value(
                self.nodes(),
                inputs,
                partial@,
            ) == bits_of(
                nat_of(lits_value(start, inputs, dividend@)) as int % nat_of(
                    lits_value(start, inputs, divisor@),
                ) as int,
                width as nat,
            ) by {
                lemma_divide_done(start, self.nodes(), dividend@, divisor@, full, quotient@, inputs);
                assert(full.drop_last() =~= partial@);
            }
        }
        Ok((quotient, partial))
    }

    /// The quotient or remainder of two words in the result's type.
    pub fn divide(
        &mut self,
        left: &Vec<Lit>,
        left_ty: WordType,
        right: &Vec<Lit>,
        right_ty: WordType,
        result_ty: WordType,
        remainder: bool,
    ) -> (result: Result<Vec<Lit>, SymbolicError>)
        requires
            old(self).wf(),
            lits_ok(old(self).nodes(), left@),
            lits_ok(old(self).nodes(), right@),
            1 <= result_ty.width < u32::MAX,
        ensures
            final(self).wf(),
            keeps_values(old(self).nodes(), final(self).nodes()),
            final(self).nodes().len() <= old(self).nodes().len() + division_cost(result_ty.width as nat),
            result matches Ok(bits) ==> (constant_row(left@) && constant_row(right@) ==> constant_row(bits@)),
            result matches Err(error) ==> exhausted(final(self).nodes(), error),
            result matches Ok(bits) ==> {
                &&& lits_ok(final(self).nodes(), bits@)
                &&& forall|inputs: Inputs| #[trigger]
                    lits_value(final(self).nodes(), inputs, bits@) == binary_bits(
                        if remainder {
                            BinaryOp::Mod
                        } else {
                            BinaryOp::Div
                        },
                        lits_value(old(self).nodes(), inputs, left@),
                        left_ty,
                        lits_value(old(self).nodes(), inputs, right@),
                        right_ty,
                        result_ty,
                    )
            },
    {
        let ghost start = self.nodes();
        let l = resize(left, left_ty, result_ty);
        let r = resize(right, right_ty, result_ty);
        proof {
            lemma_keeps_values(start, start);
            lemma_resize(start, left@, left_ty, result_ty, l@);
            lemma_resize(start, right@, right_ty, result_ty, r@);
        }
        if !result_ty.signed {
            let (quotient, modulus) = match self.unsigned_divide_bits(&l, &r) {
                Ok(pair) => pair,
                Err(error) => return Err(error),
            };
            let chosen = if remainder {
                modulus
            } else {
                quotient
            };
            let ghost middle = self.nodes();
            proof {
                assert forall|i: int| 0 <= i < r@.len() implies (#[trigger] r@[i]).node
                    < middle.len() by {
                    assert(r@[i].node < start.len());
                }
            }
            let bits = match self.guard_divisor(&r, &chosen) {
                Ok(bits) => bits,
                Err(error) => return Err(error),
            };
            proof {
                assert forall|inputs: Inputs| #[trigger]
                    lits_value(self.nodes(), inputs, bits@) == binary_bits(
                        if remainder {
                            BinaryOp::Mod
                        } else {
                            BinaryOp::Div
                        },
                        lits_value(start, inputs, left@),
                        left_ty,
                        lits_value(start, inputs, right@),
                        right_ty,
                        result_ty,
                    ) by {
                    lemma_lits_keep(start, middle, r@, inputs);
                    let shown = lits_value(middle, inputs, chosen@);
                }
            }
            return Ok(bits);
        }
        let left_sign = l[l.len() - 1];
        let right_sign = r[r.len() - 1];
        assert(l@[l@.len() - 1].node < start.len());
        assert(r@[r@.len() - 1].node < start.len());
        let dividend = match self.conditional_negate_bits(&l, left_sign) {
            Ok(bits) => bits,
            Err(error) => return Err(error),
        };
        let ghost n1 = self.nodes();
        proof {
            assert forall|i: int| 0 <= i < r@.len() implies (#[trigger] r@[i]).node < n1.len() by {
                assert(r@[i].node < start.len());
            }
        }
        let divisor = match self.conditional_negate_bits(&r, right_sign) {
            Ok(bits) => bits,
            Err(error) => return Err(error),
        };
        let ghost n2 = self.nodes();
        let negative = if remainder {
            left_sign
        } else {
            match self.xor(left_sign, right_sign) {
                Ok(lit) => lit,
                Err(error) => return Err(error),
            }
        };
        let ghost n3 = self.nodes();
        proof {
            lemma_keeps_values(start, n3);
            lemma_keeps_values(n1, n3);
            lemma_keeps_values(n2, n3);
            assert forall|i: int| 0 <= i < dividend@.len() implies (#[trigger] dividend@[i]).node
                < n3.len() by {
                assert(dividend@[i].node < n1.len());
            }
            assert forall|i: int| 0 <= i < divisor@.len() implies (#[trigger] divisor@[i]).node
                < n3.len() by {
                assert(divisor@[i].node < n2.len());
            }
        }
        let (quotient, modulus) = match self.unsigned_divide_bits(&dividend, &divisor) {
            Ok(pair) => pair,
            Err(error) => return Err(error),
        };
        let ghost n4 = self.nodes();
        let chosen = if remainder {
            modulus
        } else {
            quotient
        };
        let signed = match self.conditional_negate_bits(&chosen, negative) {
            Ok(bits) => bits,
            Err(error) => return Err(error),
        };
        let ghost n5 = self.nodes();
        proof {
            lemma_keeps_values(n3, n5);
            assert forall|i: int| 0 <= i < divisor@.len() implies (#[trigger] divisor@[i]).node
                < n5.len() by {
                assert(divisor@[i].node < n3.len());
            }
        }
        let bits = match self.guard_divisor(&divisor, &signed) {
            Ok(bits) => bits,
            Err(error) => return Err(error),
        };
        proof {
            assert forall|inputs: Inputs| #[trigger]
                lits_value(self.nodes(), inputs, bits@) == binary_bits(
                    if remainder {
                        BinaryOp::Mod
                    } else {
                        BinaryOp::Div
                    },
                    lits_value(start, inputs, left@),
                    left_ty,
                    lits_value(start, inputs, right@),
                    right_ty,
                    result_ty,
                ) by {
                let lb = lits_value(start, inputs, l@);
                let rb = lits_value(start, inputs, r@);
                assert(lits_value(n1, inputs, dividend@) == negated(lb, lb.last()));
                lemma_lits_keep(start, n1, r@, inputs);
                assert(lit_value(n1, inputs, right_sign) == rb.last());
                assert(lits_value(n2, inputs, divisor@) == negated(rb, rb.last()));
                assert(lits_ok(n1, dividend@));
                lemma_lits_keep(n1, n3, dividend@, inputs);
                lemma_lits_keep(n2, n3, divisor@, inputs);
                assert(lit_value(n3, inputs, negative) == (if remainder {
                    lb.last()
                } else {
                    lb.last() != rb.last()
                })) by {
                    assert(lit_value(n2, inputs, left_sign) == lb.last());
                    assert(lit_value(n2, inputs, right_sign) == rb.last());
                }
                assert(lit_value(n4, inputs, negative) == lit_value(n3, inputs, negative));
                let shown = lits_value(n4, inputs, chosen@);
                assert(lits_value(n5, inputs, signed@) == negated(
                    shown,
                    lit_value(n4, inputs, negative),
                ));
                lemma_lits_keep(n3, n5, divisor@, inputs);
                lemma_magnitude(rb);
                if nat_of(rb) != 0 {
                    lemma_signed_division(lb, rb, remainder, shown);
                }
            }
        }
        Ok(bits)
    }

    /// A row, cleared where the divisor is zero.
    fn guard_divisor(&mut self, divisor: &Vec<Lit>, row: &Vec<Lit>) -> (result: Result<
        Vec<Lit>,
        SymbolicError,
    >)
        requires
            old(self).wf(),
            lits_ok(old(self).nodes(), divisor@),
            lits_ok(old(self).nodes(), row@),
        ensures
            final(self).wf(),
            keeps_values(old(self).nodes(), final(self).nodes()),
            final(self).nodes().len() <= old(self).nodes().len() + divisor@.len() + 3 * row@.len(),
            result matches Ok(bits) ==> (constant_row(divisor@) && constant_row(row@) ==> constant_row(bits@)),
            result matches Err(error) ==> exhausted(final(self).nodes(), error),
            result matches Ok(bits) ==> {
                &&& bits@.len() == row@.len()
                &&& lits_ok(final(self).nodes(), bits@)
                &&& forall|inputs: Inputs| #[trigger]
                    lits_value(final(self).nodes(), inputs, bits@) == (if nat_of(
                        lits_value(old(self).nodes(), inputs, divisor@),
                    ) != 0 {
                        lits_value(old(self).nodes(), inputs, row@)
                    } else {
                        bits_of(0, row@.len())
                    })
            },
    {
        let ghost start = self.nodes();
        let nonzero = match self.reduce_or(divisor) {
            Ok(lit) => lit,
            Err(error) => return Err(error),
        };
        let ghost middle = self.nodes();
        let clear = clear_row(row.len());
        proof {
            assert forall|i: int| 0 <= i < row@.len() implies (#[trigger] row@[i]).node
                < middle.len() by {
                assert(row@[i].node < start.len());
            }
        }
        let bits = match self.select_rows(nonzero, row, &clear) {
            Ok(bits) => bits,
            Err(error) => return Err(error),
        };
        proof {
            assert forall|inputs: Inputs| #[trigger]
                lits_value(self.nodes(), inputs, bits@) == (if nat_of(
                    lits_value(start, inputs, divisor@),
                ) != 0 {
                    lits_value(start, inputs, row@)
                } else {
                    bits_of(0, row@.len())
                }) by {
                lemma_any_bit(lits_value(start, inputs, divisor@));
                lemma_lits_keep(start, middle, row@, inputs);
                lemma_constant_value(middle, inputs, false);
                lemma_clear(lits_value(middle, inputs, clear@));
            }
        }
        Ok(bits)
    }
}

/// A word of clear bits is the word of zero.
pub proof fn lemma_clear(bits: Seq<bool>)
    requires
        forall|i: int| 0 <= i < bits.len() ==> !bits[i],
    ensures
        bits == bits_of(0, bits.len()),
{
    lemma_nat_zero(bits);
    lemma_pow2_pos(bits.len());
    vstd::arithmetic::div_mod::lemma_small_mod(0, pow2(bits.len()));
    lemma_bits_are(bits, 0);
}

pub open spec fn nodes_start(nodes: Seq<LogicNode>) -> bool {
    nodes.len() > 0 && nodes[0] is False
}

proof fn lemma_divide_done(
    start: Seq<LogicNode>,
    nodes: Seq<LogicNode>,
    dividend: Seq<Lit>,
    divisor: Seq<Lit>,
    partial: Seq<Lit>,
    quotient: Seq<Lit>,
    inputs: Inputs,
)
    requires
        divide_state(start, nodes, dividend, divisor, partial, quotient, 0, inputs),
        dividend.len() == divisor.len(),
        partial.len() == dividend.len() + 1,
        quotient.len() == dividend.len(),
        nat_of(lits_value(start, inputs, divisor)) > 0,
    ensures
        lits_value(nodes, inputs, quotient) == bits_of(
            nat_of(lits_value(start, inputs, dividend)) as int / nat_of(
                lits_value(start, inputs, divisor),
            ) as int,
            dividend.len(),
        ),
        lits_value(nodes, inputs, partial.drop_last()) == bits_of(
            nat_of(lits_value(start, inputs, dividend)) as int % nat_of(
                lits_value(start, inputs, divisor),
            ) as int,
            dividend.len(),
        ),
{
    let db = lits_value(start, inputs, dividend);
    let vb = lits_value(start, inputs, divisor);
    let qb = lits_value(nodes, inputs, quotient);
    let pb = lits_value(nodes, inputs, partial);
    let n = dividend.len();
    let d = nat_of(vb) as int;
    assert(db.skip(0) =~= db && qb.skip(0) =~= qb);
    lemma_nat_bound(qb);
    vstd::arithmetic::div_mod::lemma_small_mod(nat_of(qb), pow2(n));
    lemma_bits_are(qb, nat_of(db) as int / d);
    lemma_nat_bound(vb);
    vstd::arithmetic::div_mod::lemma_mod_bound(nat_of(db) as int, d);
    let low = pb.drop_last();
    assert(pb =~= low.push(pb.last()));
    lemma_nat_top(low, pb.last());
    assert(nat_of(low) == nat_of(pb));
    vstd::arithmetic::div_mod::lemma_small_mod(nat_of(low), pow2(n));
    lemma_bits_are(low, nat_of(db) as int % d);
    assert(lits_value(nodes, inputs, partial.drop_last()) =~= low);
}

/// A comparison that has read the bits from `index` up.
pub open spec fn compared(
    left: Seq<bool>,
    right: Seq<bool>,
    equal: bool,
    less: bool,
    index: int,
) -> bool {
    &&& equal == (nat_of(left.skip(index)) == nat_of(right.skip(index)))
    &&& less == (nat_of(left.skip(index)) < nat_of(right.skip(index)))
}

pub open spec fn compare_state(
    start: Seq<LogicNode>,
    nodes: Seq<LogicNode>,
    left: Seq<Lit>,
    right: Seq<Lit>,
    equal: Lit,
    less: Lit,
    index: int,
    inputs: Inputs,
) -> bool {
    compared(
        lits_value(start, inputs, left),
        lits_value(start, inputs, right),
        lit_value(nodes, inputs, equal),
        lit_value(nodes, inputs, less),
        index,
    )
}

/// Signed order from signs and unsigned order.
proof fn lemma_signed_order(left: Seq<bool>, right: Seq<bool>)
    requires
        left.len() == right.len(),
        left.len() > 0,
    ensures
        less_than(left, right, true) == (if left.last() != right.last() {
            left.last()
        } else {
            nat_of(left) < nat_of(right)
        }),
        (int_of(left) == int_of(right)) == (nat_of(left) == nat_of(right)),
{
    lemma_magnitude(left);
    lemma_magnitude(right);
    lemma_nat_bound(left);
    lemma_nat_bound(right);
    if nat_of(left) == nat_of(right) {
        lemma_nat_injective(left, right);
    }
}

pub open spec fn is_comparison(op: BinaryOp) -> bool {
    op is Lt || op is Le || op is Gt || op is Ge
}

/// Moving twice moves by the sum.
pub(super) proof fn lemma_shift_twice(op: BinaryOp, value: Seq<bool>, first: nat, second: nat, signed: bool)
    ensures
        shift_bits(op, shift_bits(op, value, first, signed), second, signed) == shift_bits(
            op,
            value,
            first + second,
            signed,
        ),
        shift_bits(op, value, 0, signed) == value,
        shift_bits(op, value, first, signed).len() == value.len(),
{
    let once = shift_bits(op, value, first, signed);
    assert(shift_bits(op, once, second, signed) =~= shift_bits(op, value, first + second, signed));
    assert(shift_bits(op, value, 0, signed) =~= value);
}

/// The bit that an arithmetic shift brings in.
pub open spec fn shift_fill(op: BinaryOp, value: Seq<bool>, signed: bool) -> bool {
    op is Ashr && signed && value.len() > 0 && value.last()
}

/// Moving by the width or more leaves nothing but fill.
proof fn lemma_shift_out(op: BinaryOp, value: Seq<bool>, amount: nat, signed: bool, part: nat)
    requires
        amount >= value.len(),
        op is Shl || op is Shr || op is Ashr,
    ensures
        shift_bits(op, value, amount, signed) == Seq::new(
            value.len(),
            |i: int| shift_fill(op, value, signed),
        ),
        shift_fill(op, shift_bits(op, value, part, signed), signed) == shift_fill(
            op,
            value,
            signed,
        ),
{
    assert(shift_bits(op, value, amount, signed) =~= Seq::new(
        value.len(),
        |i: int| shift_fill(op, value, signed),
    ));
}

impl SymbolicLogic {
    /// The order of two words.
    pub fn compare(
        &mut self,
        op: BinaryOp,
        left: &Vec<Lit>,
        left_ty: WordType,
        right: &Vec<Lit>,
        right_ty: WordType,
        result_ty: WordType,
    ) -> (result: Result<Vec<Lit>, SymbolicError>)
        requires
            old(self).wf(),
            lits_ok(old(self).nodes(), left@),
            lits_ok(old(self).nodes(), right@),
            is_comparison(op),
            left_ty.width >= 1,
            right_ty.width >= 1,
        ensures
            final(self).wf(),
            keeps_values(old(self).nodes(), final(self).nodes()),
            final(self).nodes().len() <= old(self).nodes().len() + 7 * compare_type(left_ty, right_ty, result_ty).width + 7,
            result matches Ok(bits) ==> (constant_row(left@) && constant_row(right@) ==> constant_row(bits@)),
            result matches Err(error) ==> exhausted(final(self).nodes(), error),
            result matches Ok(bits) ==> {
                &&& lits_ok(final(self).nodes(), bits@)
                &&& forall|inputs: Inputs| #[trigger]
                    lits_value(final(self).nodes(), inputs, bits@) == binary_bits(
                        op,
                        lits_value(old(self).nodes(), inputs, left@),
                        left_ty,
                        lits_value(old(self).nodes(), inputs, right@),
                        right_ty,
                        result_ty,
                    )
            },
    {
        let ghost start = self.nodes();
        let signed: bool = left_ty.signed && right_ty.signed;
        let compare_ty = WordType {
            width: if left_ty.width >= right_ty.width {
                left_ty.width
            } else {
                right_ty.width
            },
            signed,
            state: result_ty.state,
        };
        assert(compare_ty == compare_type(left_ty, right_ty, result_ty));
        let l = resize(left, left_ty, compare_ty);
        let r = resize(right, right_ty, compare_ty);
        proof {
            lemma_keeps_values(start, start);
            lemma_resize(start, left@, left_ty, compare_ty, l@);
            lemma_resize(start, right@, right_ty, compare_ty, r@);
        }
        let mut equal = Lit::constant(true);
        let mut less = Lit::constant(false);
        let mut index: usize = l.len();
        proof {
            assert forall|inputs: Inputs| #[trigger]
                compare_state(start, start, l@, r@, equal, less, index as int, inputs) by {
                lemma_constant_value(start, inputs, true);
                lemma_constant_value(start, inputs, false);
                assert(lits_value(start, inputs, l@).skip(index as int).len() == 0);
                assert(lits_value(start, inputs, r@).skip(index as int).len() == 0);
            }
        }
        while index > 0
            invariant
                index <= l@.len(),
                l@.len() == compare_type(left_ty, right_ty, result_ty).width,
                l@.len() == r@.len(),
                start == old(self).nodes(),
                self.wf(),
                self.has(equal),
                self.has(less),
                keeps_values(start, self.nodes()),
                self.nodes().len() <= start.len() + 7 * (l@.len() - index),
                constant_row(l@) && constant_row(r@) ==> equal.node == 0 && less.node == 0,
                lits_ok(start, l@),
                lits_ok(start, r@),
                forall|inputs: Inputs| #[trigger]
                    compare_state(
                        start,
                        self.nodes(),
                        l@,
                        r@,
                        equal,
                        less,
                        index as int,
                        inputs,
                    ),
            decreases index,
        {
            index -= 1;
            let ghost before = self.nodes();
            let ghost old_equal = equal;
            let ghost old_less = less;
            let left_bit = l[index];
            let right_bit = r[index];
            assert(l@[index as int].node < start.len());
            assert(r@[index as int].node < start.len());
            let different = match self.xor(left_bit, right_bit) {
                Ok(lit) => lit,
                Err(error) => return Err(error),
            };
            let ghost n1 = self.nodes();
            let less_here = match self.and(left_bit.inverted(), right_bit) {
                Ok(lit) => lit,
                Err(error) => return Err(error),
            };
            let ghost n2 = self.nodes();
            let first_difference = match self.and(equal, less_here) {
                Ok(lit) => lit,
                Err(error) => return Err(error),
            };
            let ghost n3 = self.nodes();
            less = match self.or(less, first_difference) {
                Ok(lit) => lit,
                Err(error) => return Err(error),
            };
            let ghost n4 = self.nodes();
            equal = match self.and(equal, different.inverted()) {
                Ok(lit) => lit,
                Err(error) => return Err(error),
            };
            proof {
                assert forall|inputs: Inputs| #[trigger]
                    compare_state(
                        start,
                        self.nodes(),
                        l@,
                        r@,
                        equal,
                        less,
                        index as int,
                        inputs,
                    ) by {
                    assert(compare_state(
                        start,
                        before,
                        l@,
                        r@,
                        old_equal,
                        old_less,
                        index + 1,
                        inputs,
                    ));
                    let lb = lits_value(start, inputs, l@);
                    let rb = lits_value(start, inputs, r@);
                    lemma_nat_skip(lb, index as int);
                    lemma_nat_skip(rb, index as int);
                    assert(lit_value(before, inputs, left_bit) == lb[index as int]);
                    assert(lit_value(before, inputs, right_bit) == rb[index as int]);
                    assert(lit_value(n1, inputs, left_bit.inverse()) == !lb[index as int]);
                    assert(lit_value(n2, inputs, less_here) == (!lb[index as int]
                        && rb[index as int]));
                    assert(lit_value(n4, inputs, different.inverse()) == !(lb[index as int]
                        != rb[index as int])) by {
                        assert(lit_value(n4, inputs, different) == lit_value(
                            n1,
                            inputs,
                            different,
                        ));
                    }
                    assert(lit_value(self.nodes(), inputs, less) == lit_value(n4, inputs, less));
                    assert(lit_value(n4, inputs, less) == (lit_value(n3, inputs, old_less)
                        || lit_value(n3, inputs, first_difference)));
                    assert(lit_value(n3, inputs, old_less) == lit_value(before, inputs, old_less));
                    assert(lit_value(n2, inputs, old_equal) == lit_value(
                        before,
                        inputs,
                        old_equal,
                    ));
                    assert(lit_value(n4, inputs, old_equal) == lit_value(
                        before,
                        inputs,
                        old_equal,
                    ));
                }
            }
        }
        let ghost loop_end = self.nodes();
        let ghost unsigned_less = less;
        if signed {
            let left_sign = l[l.len() - 1];
            let right_sign = r[r.len() - 1];
            assert(l@[l@.len() - 1].node < start.len());
            assert(r@[r@.len() - 1].node < start.len());
            let signs_differ = match self.xor(left_sign, right_sign) {
                Ok(lit) => lit,
                Err(error) => return Err(error),
            };
            less = match self.select(signs_differ, left_sign, less) {
                Ok(lit) => lit,
                Err(error) => return Err(error),
            };
        }
        let ghost n5 = self.nodes();
        proof {
            assert forall|inputs: Inputs|
                ({
                    let lb = lits_value(start, inputs, l@);
                    let rb = lits_value(start, inputs, r@);
                    &&& #[trigger] lit_value(n5, inputs, less) == less_than(lb, rb, signed)
                    &&& lit_value(n5, inputs, equal) == (less_than(lb, rb, signed) == less_than(
                        rb,
                        lb,
                        signed,
                    ))
                }) by {
                let lb = lits_value(start, inputs, l@);
                let rb = lits_value(start, inputs, r@);
                assert(compare_state(
                    start,
                    loop_end,
                    l@,
                    r@,
                    equal,
                    unsigned_less,
                    0,
                    inputs,
                ));
                assert(lb.skip(0) =~= lb && rb.skip(0) =~= rb);
                assert(lit_value(n5, inputs, equal) == lit_value(loop_end, inputs, equal));
                if signed {
                    lemma_signed_order(lb, rb);
                    lemma_signed_order(rb, lb);
                    assert(lit_value(loop_end, inputs, l@[l@.len() - 1]) == lb.last());
                    assert(lit_value(loop_end, inputs, r@[r@.len() - 1]) == rb.last());
                }
            }
            assert forall|inputs: Inputs| #[trigger]
                lit_value(n5, inputs, equal) == (less_than(
                    lits_value(start, inputs, l@),
                    lits_value(start, inputs, r@),
                    signed,
                ) == less_than(
                    lits_value(start, inputs, r@),
                    lits_value(start, inputs, l@),
                    signed,
                )) by {
                let shown = lit_value(n5, inputs, less);
            }
        }
        let answer = match op {
            BinaryOp::Lt => less,
            BinaryOp::Le => match self.or(less, equal) {
                Ok(lit) => lit,
                Err(error) => return Err(error),
            },
            BinaryOp::Gt => match self.or(less, equal) {
                Ok(lit) => lit.inverted(),
                Err(error) => return Err(error),
            },
            _ => less.inverted(),
        };
        let mut bits: Vec<Lit> = Vec::new();
        bits.push(answer);
        proof {
            assert forall|inputs: Inputs| #[trigger]
                lits_value(self.nodes(), inputs, bits@) == binary_bits(
                    op,
                    lits_value(start, inputs, left@),
                    left_ty,
                    lits_value(start, inputs, right@),
                    right_ty,
                    result_ty,
                ) by {
                let lb = lits_value(start, inputs, l@);
                let rb = lits_value(start, inputs, r@);
                let shown = lit_value(n5, inputs, less);
                let same = lit_value(n5, inputs, equal);
                assert(!(less_than(lb, rb, signed) && less_than(rb, lb, signed)));
                if op is Gt {
                    assert(lit_value(self.nodes(), inputs, answer.inverse()) == (shown || same));
                }
                if op is Ge {
                    assert(lit_value(self.nodes(), inputs, answer) == !shown);
                }
                assert(lit_value(self.nodes(), inputs, answer) == compare_bits(
                    op,
                    lb,
                    rb,
                    signed,
                ));
                assert(lits_value(self.nodes(), inputs, bits@) =~= seq![
                    compare_bits(op, lb, rb, signed),
                ]);
            }
        }
        Ok(bits)
    }

    /// One stage of a shifter.
    fn shift_stage(
        &mut self,
        op: BinaryOp,
        current: &Vec<Lit>,
        control: Lit,
        distance: u64,
        signed: bool,
    ) -> (result: Result<Vec<Lit>, SymbolicError>)
        requires
            old(self).wf(),
            lits_ok(old(self).nodes(), current@),
            old(self).has(control),
            op is Shl || op is Shr || op is Ashr,
            0 < distance < current@.len(),
            current@.len() <= u32::MAX,
        ensures
            final(self).wf(),
            keeps_values(old(self).nodes(), final(self).nodes()),
            final(self).nodes().len() <= old(self).nodes().len() + 3 * current@.len(),
            result matches Ok(next) ==> (constant_row(current@) && control.node == 0 ==> constant_row(next@)),
            result matches Err(error) ==> exhausted(final(self).nodes(), error),
            result matches Ok(next) ==> {
                &&& next@.len() == current@.len()
                &&& lits_ok(final(self).nodes(), next@)
                &&& forall|inputs: Inputs| #[trigger]
                    lits_value(final(self).nodes(), inputs, next@) == (if lit_value(
                        old(self).nodes(),
                        inputs,
                        control,
                    ) {
                        shift_bits(
                            op,
                            lits_value(old(self).nodes(), inputs, current@),
                            distance as nat,
                            signed,
                        )
                    } else {
                        lits_value(old(self).nodes(), inputs, current@)
                    })
            },
    {
        let ghost start = self.nodes();
        let fill = if op == BinaryOp::Ashr && signed {
            current[current.len() - 1]
        } else {
            Lit::constant(false)
        };
        let mut shifted: Vec<Lit> = Vec::new();
        let mut index: usize = 0;
        while index < current.len()
            invariant
                index <= current.len(),
                shifted@.len() == index,
                0 < distance < current@.len(),
                current@.len() <= u32::MAX,
                op is Shl || op is Shr || op is Ashr,
                forall|i: int|
                    0 <= i < index ==> #[trigger] shifted@[i] == (if op is Shl {
                        if i >= distance {
                            current@[i - distance]
                        } else {
                            Lit::constant_spec(false)
                        }
                    } else if i + distance < current@.len() {
                        current@[i + distance]
                    } else {
                        fill
                    }),
            decreases current.len() - index,
        {
            let lit = if op == BinaryOp::Shl {
                if index as u64 >= distance {
                    current[index - distance as usize]
                } else {
                    Lit::constant(false)
                }
            } else if (index as u64) + distance < current.len() as u64 {
                current[index + distance as usize]
            } else {
                fill
            };
            shifted.push(lit);
            index += 1;
        }
        proof {
            assert(current@[current@.len() - 1].node < start.len());
            assert forall|i: int| 0 <= i < shifted@.len() implies (#[trigger] shifted@[i]).node
                < start.len() by {
                if op is Shl && i >= distance {
                    assert(current@[i - distance].node < start.len());
                } else if !(op is Shl) && i + distance < current@.len() {
                    assert(current@[i + distance].node < start.len());
                }
            }
        }
        let next = match self.select_rows(control, &shifted, current) {
            Ok(bits) => bits,
            Err(error) => return Err(error),
        };
        proof {
            assert forall|inputs: Inputs| #[trigger]
                lits_value(self.nodes(), inputs, next@) == (if lit_value(start, inputs, control) {
                    shift_bits(
                        op,
                        lits_value(start, inputs, current@),
                        distance as nat,
                        signed,
                    )
                } else {
                    lits_value(start, inputs, current@)
                }) by {
                lemma_constant_value(start, inputs, false);
                assert(lits_value(start, inputs, shifted@) =~= shift_bits(
                    op,
                    lits_value(start, inputs, current@),
                    distance as nat,
                    signed,
                ));
            }
        }
        Ok(next)
    }

    /// A word moved by a computed amount.
    pub fn shift(
        &mut self,
        op: BinaryOp,
        value: &Vec<Lit>,
        value_ty: WordType,
        amount: &Vec<Lit>,
        amount_ty: WordType,
        result_ty: WordType,
    ) -> (result: Result<Vec<Lit>, SymbolicError>)
        requires
            old(self).wf(),
            lits_ok(old(self).nodes(), value@),
            lits_ok(old(self).nodes(), amount@),
            op is Shl || op is Shr || op is Ashr,
            result_ty.width >= 1,
        ensures
            final(self).wf(),
            keeps_values(old(self).nodes(), final(self).nodes()),
            final(self).nodes().len() <= old(self).nodes().len() + shift_cost(result_ty.width as nat, amount@.len()),
            result matches Ok(bits) ==> (constant_row(value@) && constant_row(amount@) ==> constant_row(bits@)),
            result matches Err(error) ==> exhausted(final(self).nodes(), error),
            result matches Ok(bits) ==> {
                &&& lits_ok(final(self).nodes(), bits@)
                &&& forall|inputs: Inputs| #[trigger]
                    lits_value(final(self).nodes(), inputs, bits@) == binary_bits(
                        op,
                        lits_value(old(self).nodes(), inputs, value@),
                        value_ty,
                        lits_value(old(self).nodes(), inputs, amount@),
                        amount_ty,
                        result_ty,
                    )
            },
    {
        let ghost start = self.nodes();
        let resized = resize(value, value_ty, result_ty);
        let ghost first = resized@;
        proof {
            lemma_keeps_values(start, start);
            lemma_resize(start, value@, value_ty, result_ty, first);
        }
        let width: u64 = result_ty.width as u64;
        let signed: bool = result_ty.signed;
        let mut current = resized;
        let mut stage: usize = 0;
        let mut distance: u64 = 1;
        proof {
            lemma2();
            assert forall|inputs: Inputs| #[trigger]
                lits_value(start, inputs, current@) == shift_bits(
                    op,
                    lits_value(start, inputs, first),
                    nat_of(lits_value(start, inputs, amount@).take(0)),
                    signed,
                ) by {
                assert(lits_value(start, inputs, amount@).take(0).len() == 0);
                lemma_shift_twice(op, lits_value(start, inputs, first), 0, 0, signed);
            }
        }
        while stage < amount.len() && distance < width
            invariant
                stage <= amount.len(),
                stage * (3 * width) <= amount@.len() * (3 * width),
                width == result_ty.width,
                signed == result_ty.signed,
                distance == pow2(stage as nat),
                0 < distance,
                distance < 2 * width,
                op is Shl || op is Shr || op is Ashr,
                current@.len() == width,
                first.len() == width,
                start == old(self).nodes(),
                self.wf(),
                keeps_values(start, self.nodes()),
                self.nodes().len() <= start.len() + stage * (3 * width),
                constant_row(first) && constant_row(amount@) ==> constant_row(current@),
                lits_ok(start, first),
                lits_ok(start, amount@),
                lits_ok(self.nodes(), current@),
                forall|inputs: Inputs| #[trigger]
                    lits_value(self.nodes(), inputs, current@) == shift_bits(
                        op,
                        lits_value(start, inputs, first),
                        nat_of(lits_value(start, inputs, amount@).take(stage as int)),
                        signed,
                    ),
            decreases amount.len() - stage,
        {
            let ghost before = self.nodes();
            let ghost previous = current@;
            let control = amount[stage];
            proof {
                lemma_share(stage as nat, amount@.len(), (3 * width) as nat);
            }
            assert(amount@[stage as int].node < start.len());
            current = match self.shift_stage(op, &current, control, distance, signed) {
                Ok(bits) => bits,
                Err(error) => return Err(error),
            };
            proof {
                lemma_pow2_unfold((stage + 1) as nat);
                assert forall|inputs: Inputs| #[trigger]
                    lits_value(self.nodes(), inputs, current@) == shift_bits(
                        op,
                        lits_value(start, inputs, first),
                        nat_of(lits_value(start, inputs, amount@).take(stage + 1)),
                        signed,
                    ) by {
                    let vb = lits_value(start, inputs, first);
                    let ab = lits_value(start, inputs, amount@);
                    assert(lits_value(before, inputs, previous) == shift_bits(
                        op,
                        vb,
                        nat_of(ab.take(stage as int)),
                        signed,
                    ));
                    lemma_nat_take(ab, stage as int);
                    assert(lit_value(before, inputs, control) == ab[stage as int]);
                    lemma_shift_twice(
                        op,
                        vb,
                        nat_of(ab.take(stage as int)),
                        distance as nat,
                        signed,
                    );
                }
            }
            stage += 1;
            distance = distance * 2;
        }
        if stage < amount.len() {
            let rest = tail(amount, stage);
            proof {
                assert forall|i: int| 0 <= i < rest@.len() implies (#[trigger] rest@[i]).node
                    < self.nodes().len() by {
                    assert(amount@[stage + i].node < start.len());
                }
            }
            let ghost middle = self.nodes();
            let ghost previous = current@;
            let overflow = match self.reduce_or(&rest) {
                Ok(lit) => lit,
                Err(error) => return Err(error),
            };
            let ghost late = self.nodes();
            let fill = if op == BinaryOp::Ashr && signed {
                current[current.len() - 1]
            } else {
                Lit::constant(false)
            };
            let filled = fill_row(current.len(), fill);
            proof {
                assert(previous[previous.len() - 1].node < middle.len());
                assert forall|i: int| 0 <= i < current@.len() implies (#[trigger] current@[i]).node
                    < late.len() by {
                    assert(previous[i].node < middle.len());
                }
            }
            let bits = match self.select_rows(overflow, &filled, &current) {
                Ok(bits) => bits,
                Err(error) => return Err(error),
            };
            proof {
                assert forall|inputs: Inputs| #[trigger]
                    lits_value(self.nodes(), inputs, bits@) == binary_bits(
                        op,
                        lits_value(start, inputs, value@),
                        value_ty,
                        lits_value(start, inputs, amount@),
                        amount_ty,
                        result_ty,
                    ) by {
                    let vb = lits_value(start, inputs, first);
                    let ab = lits_value(start, inputs, amount@);
                    let low = nat_of(ab.take(stage as int));
                    assert(lits_value(middle, inputs, previous) == shift_bits(op, vb, low, signed));
                    lemma_lits_keep(middle, late, previous, inputs);
                    lemma_nat_split(ab, stage as int);
                    let rb = lits_value(middle, inputs, rest@);
                    assert(rb =~= ab.skip(stage as int)) by {
                        assert forall|i: int| 0 <= i < rest@.len() implies rb[i] == ab.skip(
                            stage as int,
                        )[i] by {
                            assert(amount@[stage + i].node < start.len());
                        }
                    }
                    lemma_any_bit(rb);
                    let p = pow2(stage as nat) as int;
                    let h = nat_of(rb) as int;
                    if h > 0 {
                        assert(p * h >= p) by (nonlinear_arith)
                            requires
                                h >= 1,
                                p >= 0,
                        ;
                        lemma_shift_out(op, vb, nat_of(ab), signed, low);
                        lemma_constant_value(late, inputs, false);
                        assert(lits_value(late, inputs, filled@) =~= shift_bits(
                            op,
                            vb,
                            nat_of(ab),
                            signed,
                        ));
                    } else {
                        assert(p * 0 == 0) by (nonlinear_arith);
                    }
                }
            }
            return Ok(bits);
        }
        proof {
            assert forall|inputs: Inputs| #[trigger]
                lits_value(self.nodes(), inputs, current@) == binary_bits(
                    op,
                    lits_value(start, inputs, value@),
                    value_ty,
                    lits_value(start, inputs, amount@),
                    amount_ty,
                    result_ty,
                ) by {
                let ab = lits_value(start, inputs, amount@);
                assert(ab.take(stage as int) =~= ab);
            }
        }
        Ok(current)
    }
}

pub(super) fn fill_row(width: usize, fill: Lit) -> (row: Vec<Lit>)
    ensures
        row@.len() == width,
        forall|i: int| 0 <= i < width ==> #[trigger] row@[i] == fill,
{
    let mut row: Vec<Lit> = Vec::new();
    while row.len() < width
        invariant
            row@.len() <= width,
            forall|i: int| 0 <= i < row@.len() ==> #[trigger] row@[i] == fill,
        decreases width - row.len(),
    {
        row.push(fill);
    }
    row
}

pub(super) fn tail(bits: &Vec<Lit>, first: usize) -> (row: Vec<Lit>)
    requires
        first <= bits@.len(),
    ensures
        row@.len() == bits@.len() - first,
        forall|i: int| 0 <= i < row@.len() ==> #[trigger] row@[i] == bits@[first + i],
{
    let mut row: Vec<Lit> = Vec::new();
    let mut index: usize = first;
    while index < bits.len()
        invariant
            first <= index <= bits.len(),
            row@.len() == index - first,
            forall|i: int| 0 <= i < row@.len() ==> #[trigger] row@[i] == bits@[first + i],
        decreases bits.len() - index,
    {
        row.push(bits[index]);
        index += 1;
    }
    row
}

} // verus!
