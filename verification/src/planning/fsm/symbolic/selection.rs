//! Comparisons with constants and selection at computed offsets.

use super::arithmetic::{lemma_clear, lemma_shift_twice, nodes_start, tail};
use super::forms::{simple_choice, word_row};
use super::gates::{exhausted, lemma_constant_value, lemma_share, SymbolicError, SymbolicLogic};
use crate::error::{Invariant, Resource, SynthError};
use crate::logic::{
    conjoins, constant_row, keeps_values, lemma_keeps_values, lemma_lits_keep, lit_value, lits_ok, lits_value,
    simple_and, simple_select, Inputs, Lit, LogicNode,
};
use crate::word::bits::{
    bits_of, lemma2, lemma_nat_of_bits, lemma_nat_skip, lemma_nat_split, lemma_nat_take, nat_of,
};
use crate::word::numbers::{all_known, known_word, number_bits};
use crate::word::semantics::{dynamic_extract_bits, dynamic_insert_bits, extract_bits, shift_left};
use crate::word::types::{bit_lsb, BinaryOp, BitVal, ConstBits};
use vstd::arithmetic::power2::{lemma_pow2_strictly_increases, lemma_pow2_unfold, pow2};
use vstd::prelude::*;

verus! {

/// A bound check that has read the bits from `index` up.
pub open spec fn bound_state(
    start: Seq<LogicNode>,
    nodes: Seq<LogicNode>,
    value: Seq<Lit>,
    maximum: Seq<bool>,
    equal: Lit,
    greater: Lit,
    index: int,
    inputs: Inputs,
) -> bool {
    let v = nat_of(lits_value(start, inputs, value).skip(index));
    let m = nat_of(maximum.skip(index));
    &&& lit_value(nodes, inputs, equal) == (v == m)
    &&& lit_value(nodes, inputs, greater) == (v > m)
}

/// The class of a word: that of the last state equal to it, or the first class.
pub open spec fn class_of(states: Seq<Seq<BitVal>>, classes: Seq<usize>, word: Seq<bool>, count: int)
    -> usize
    decreases count,
{
    if count <= 0 {
        classes[0]
    } else if known_word(states[count - 1]) == word {
        classes[count - 1]
    } else {
        class_of(states, classes, word, count - 1)
    }
}

pub open spec fn states_view(states: Seq<ConstBits>) -> Seq<Seq<BitVal>> {
    states.map_values(|state: ConstBits| state@)
}

/// The literal that holds where a bit of a row is that of a constant.
pub open spec fn matching_lit(value: Seq<Lit>, constant: Seq<BitVal>, index: int) -> Lit {
    if bit_lsb(constant, index) is One {
        value[index]
    } else {
        value[index].inverse()
    }
}

/// Conjunctions of ever more bits of a comparison.
pub open spec fn chained(
    nodes: Seq<LogicNode>,
    value: Seq<Lit>,
    constant: Seq<BitVal>,
    chain: Seq<Lit>,
) -> bool {
    &&& chain.len() >= 1
    &&& chain[0] == Lit::constant_spec(true)
    &&& forall|i: int|
        0 <= i < chain.len() - 1 ==> conjoins(
            nodes,
            #[trigger] chain[i],
            matching_lit(value, constant, i),
            chain[i + 1],
        )
}

/// The literal that a comparison of a row with a constant is built as, bit by bit
/// from the lowest.
pub open spec fn compares(
    nodes: Seq<LogicNode>,
    value: Seq<Lit>,
    constant: Seq<BitVal>,
    lit: Lit,
) -> bool {
    exists|chain: Seq<Lit>| #[trigger]
        chained(nodes, value, constant, chain) && chain.len() == value.len() + 1 && chain.last()
            == lit
}

/// A comparison that needs no gate.
pub open spec fn simple_equal(value: Seq<Lit>, constant: Seq<BitVal>, count: nat) -> Option<Lit>
    decreases count,
{
    if count == 0 {
        Some(Lit::constant_spec(true))
    } else {
        match simple_equal(value, constant, (count - 1) as nat) {
            Some(lit) => simple_and(lit, matching_lit(value, constant, count - 1)),
            None => None,
        }
    }
}

/// The row of a class number that needs no gate.
pub open spec fn class_form(
    value: Seq<Lit>,
    states: Seq<Seq<BitVal>>,
    classes: Seq<usize>,
    width: nat,
    count: nat,
) -> Option<Seq<Lit>>
    decreases count,
{
    if count == 0 {
        Some(word_row(bits_of(classes[0] as int, width)))
    } else {
        match (
            class_form(value, states, classes, width, (count - 1) as nat),
            simple_equal(value, states[count - 1], value.len()),
        ) {
            (Some(held), Some(equal)) => simple_choice(
                equal,
                word_row(bits_of(classes[count - 1] as int, width)),
                held,
            ),
            _ => None,
        }
    }
}

/// A comparison stays what it is while the graph grows.
pub proof fn lemma_compares_later(
    before: Seq<LogicNode>,
    after: Seq<LogicNode>,
    value: Seq<Lit>,
    constant: Seq<BitVal>,
    lit: Lit,
)
    requires
        keeps_values(before, after),
        compares(before, value, constant, lit),
    ensures
        compares(after, value, constant, lit),
{
    let chain = choose|chain: Seq<Lit>| #[trigger]
        chained(before, value, constant, chain) && chain.len() == value.len() + 1 && chain.last()
            == lit;
    assert forall|i: int| 0 <= i < chain.len() - 1 implies conjoins(
        after,
        #[trigger] chain[i],
        matching_lit(value, constant, i),
        chain[i + 1],
    ) by {
        assert(conjoins(before, chain[i], matching_lit(value, constant, i), chain[i + 1]));
    }
    assert(chained(after, value, constant, chain));
}

impl SymbolicLogic {
    /// Whether an unsigned row is at most a constant.
    pub fn unsigned_at_most_constant(&mut self, value: &Vec<Lit>, maximum: u64) -> (result: Result<
        Lit,
        SymbolicError,
    >)
        requires
            old(self).wf(),
            lits_ok(old(self).nodes(), value@),
            maximum < pow2(value@.len()),
        ensures
            final(self).wf(),
            keeps_values(old(self).nodes(), final(self).nodes()),
            final(self).nodes().len() <= old(self).nodes().len() + 3 * value@.len(),
            result matches Ok(lit) ==> (constant_row(value@) ==> lit.node == 0),
            result matches Err(error) ==> exhausted(final(self).nodes(), error),
            result matches Ok(lit) ==> {
                &&& final(self).has(lit)
                &&& forall|inputs: Inputs| #[trigger]
                    lit_value(final(self).nodes(), inputs, lit) == (nat_of(
                        lits_value(old(self).nodes(), inputs, value@),
                    ) <= maximum)
            },
    {
        let ghost start = self.nodes();
        let digits = number_bits(maximum, value.len());
        let mut equal = Lit::constant(true);
        let mut greater = Lit::constant(false);
        let mut index: usize = value.len();
        proof {
            lemma_keeps_values(start, start);
            assert forall|inputs: Inputs| #[trigger]
                bound_state(
                    start,
                    start,
                    value@,
                    digits@,
                    equal,
                    greater,
                    index as int,
                    inputs,
                ) by {
                lemma_constant_value(start, inputs, true);
                lemma_constant_value(start, inputs, false);
                assert(lits_value(start, inputs, value@).skip(index as int).len() == 0);
                assert(digits@.skip(index as int).len() == 0);
            }
        }
        while index > 0
            invariant
                index <= value@.len(),
                digits@.len() == value@.len(),
                start == old(self).nodes(),
                self.wf(),
                self.has(equal),
                self.has(greater),
                keeps_values(start, self.nodes()),
                self.nodes().len() <= start.len() + 3 * (value@.len() - index),
                constant_row(value@) ==> equal.node == 0 && greater.node == 0,
                lits_ok(start, value@),
                forall|inputs: Inputs| #[trigger]
                    bound_state(
                        start,
                        self.nodes(),
                        value@,
                        digits@,
                        equal,
                        greater,
                        index as int,
                        inputs,
                    ),
            decreases index,
        {
            index -= 1;
            let ghost before = self.nodes();
            let ghost old_equal = equal;
            let ghost old_greater = greater;
            let bit = value[index];
            assert(value@[index as int].node < start.len());
            let maximum_bit: bool = digits[index];
            if !maximum_bit {
                let greater_here = match self.and(equal, bit) {
                    Ok(lit) => lit,
                    Err(error) => return Err(error),
                };
                greater = match self.or(greater, greater_here) {
                    Ok(lit) => lit,
                    Err(error) => return Err(error),
                };
            }
            let ghost middle = self.nodes();
            let matching = if maximum_bit {
                bit
            } else {
                bit.inverted()
            };
            equal = match self.and(equal, matching) {
                Ok(lit) => lit,
                Err(error) => return Err(error),
            };
            proof {
                assert forall|inputs: Inputs| #[trigger]
                    bound_state(
                        start,
                        self.nodes(),
                        value@,
                        digits@,
                        equal,
                        greater,
                        index as int,
                        inputs,
                    ) by {
                    assert(bound_state(
                        start,
                        before,
                        value@,
                        digits@,
                        old_equal,
                        old_greater,
                        index + 1,
                        inputs,
                    ));
                    let vb = lits_value(start, inputs, value@);
                    lemma_nat_skip(vb, index as int);
                    lemma_nat_skip(digits@, index as int);
                    assert(lit_value(before, inputs, bit) == vb[index as int]);
                    assert(lit_value(middle, inputs, matching) == (vb[index as int]
                        == maximum_bit)) by {
                        assert(lit_value(middle, inputs, bit) == vb[index as int]);
                    }
                    assert(lit_value(middle, inputs, old_equal) == lit_value(
                        before,
                        inputs,
                        old_equal,
                    ));
                    assert(lit_value(self.nodes(), inputs, greater) == lit_value(
                        middle,
                        inputs,
                        greater,
                    ));
                }
            }
        }
        let answer = greater.inverted();
        proof {
            lemma_nat_of_bits(maximum as int, value@.len());
            vstd::arithmetic::div_mod::lemma_small_mod(maximum as nat, pow2(value@.len()));
            assert forall|inputs: Inputs| #[trigger]
                lit_value(self.nodes(), inputs, answer) == (nat_of(
                    lits_value(start, inputs, value@),
                ) <= maximum) by {
                assert(bound_state(
                    start,
                    self.nodes(),
                    value@,
                    digits@,
                    equal,
                    greater,
                    0,
                    inputs,
                ));
                let vb = lits_value(start, inputs, value@);
                assert(vb.skip(0) =~= vb && digits@.skip(0) =~= digits@);
            }
        }
        Ok(answer)
    }

    /// Whether a row stands for a constant.
    pub fn equals_constant(&mut self, value: &Vec<Lit>, constant: &ConstBits) -> (result: Result<
        Lit,
        SymbolicError,
    >)
        requires
            old(self).wf(),
            lits_ok(old(self).nodes(), value@),
        ensures
            final(self).wf(),
            keeps_values(old(self).nodes(), final(self).nodes()),
            result matches Ok(lit) ==> (simple_equal(value@, constant@, value@.len()) matches Some(simple)
                ==> lit == simple),
            result matches Ok(lit) ==> compares(final(self).nodes(), value@, constant@, lit),
            final(self).nodes().len() <= old(self).nodes().len() + value@.len(),
            result matches Ok(lit) ==> (constant_row(value@) ==> lit.node == 0),
            constant@.len() != value@.len() ==> result == Err::<Lit, SymbolicError>(
                SymbolicError::Synthesis(SynthError::Invariant(Invariant::WidthMismatch)),
            ),
            result matches Err(error) ==> exhausted(final(self).nodes(), error) || constant@.len()
                != value@.len() || (error is Unsupported && !all_known(constant@)),
            result matches Ok(lit) ==> {
                &&& all_known(constant@)
                &&& final(self).has(lit)
                &&& forall|inputs: Inputs| #[trigger]
                    lit_value(final(self).nodes(), inputs, lit) == (lits_value(
                        old(self).nodes(),
                        inputs,
                        value@,
                    ) == known_word(constant@))
            },
    {
        let ghost start = self.nodes();
        proof {
            lemma_keeps_values(start, start);
        }
        if constant.bits.len() != value.len() {
            return Err(SymbolicError::Synthesis(SynthError::Invariant(Invariant::WidthMismatch)));
        }
        let mut equal = Lit::constant(true);
        let mut index: usize = 0;
        let ghost mut chain: Seq<Lit> = seq![equal];
        proof {
            assert forall|inputs: Inputs| #[trigger]
                lit_value(start, inputs, equal) == (lits_value(start, inputs, value@).take(0)
                    == known_word(constant@).take(0)) by {
                lemma_constant_value(start, inputs, true);
                assert(lits_value(start, inputs, value@).take(0) =~= known_word(constant@).take(0));
            }
        }
        while index < value.len()
            invariant
                index <= value@.len(),
                constant@.len() == value@.len(),
                start == old(self).nodes(),
                self.wf(),
                self.has(equal),
                nodes_start(start),
                keeps_values(start, self.nodes()),
                simple_equal(value@, constant@, index as nat) matches Some(simple) ==> equal == simple,
                chained(self.nodes(), value@, constant@, chain),
                chain.len() == index + 1,
                chain.last() == equal,
                self.nodes().len() <= start.len() + index,
                constant_row(value@) ==> equal.node == 0,
                lits_ok(start, value@),
                forall|i: int|
                    0 <= i < index ==> (#[trigger] constant@[constant@.len() - 1 - i]).known(),
                forall|inputs: Inputs| #[trigger]
                    lit_value(self.nodes(), inputs, equal) == (lits_value(
                        start,
                        inputs,
                        value@,
                    ).take(index as int) == known_word(constant@).take(index as int)),
            decreases value.len() - index,
        {
            let ghost before = self.nodes();
            let ghost old_equal = equal;
            let stored = constant.bits[value.len() - 1 - index];
            assert(stored == bit_lsb(constant@, index as int));
            let expected: bool = match stored {
                BitVal::Zero => false,
                BitVal::One => true,
                _ => {
                    assert(!constant@[constant@.len() - 1 - index].known());
                    return Err(SymbolicError::Unsupported);
                },
            };
            assert(value@[index as int].node < start.len());
            let matching = if expected {
                value[index]
            } else {
                value[index].inverted()
            };
            equal = match self.and(equal, matching) {
                Ok(lit) => lit,
                Err(error) => return Err(error),
            };
                        proof {
                let longer = chain.push(equal);
                assert(matching == matching_lit(value@, constant@, index as int));
                assert forall|i: int| 0 <= i < longer.len() - 1 implies conjoins(
                    self.nodes(),
                    #[trigger] longer[i],
                    matching_lit(value@, constant@, i),
                    longer[i + 1],
                ) by {
                    if i < index {
                        assert(longer[i] == chain[i] && longer[i + 1] == chain[i + 1]);
                        assert(conjoins(
                            before,
                            chain[i],
                            matching_lit(value@, constant@, i),
                            chain[i + 1],
                        ));
                    }
                }
                chain = longer;
            }
            proof {
                assert forall|inputs: Inputs| #[trigger]
                    lit_value(self.nodes(), inputs, equal) == (lits_value(
                        start,
                        inputs,
                        value@,
                    ).take(index + 1) == known_word(constant@).take(index + 1)) by {
                    let vb = lits_value(start, inputs, value@);
                    let kb = known_word(constant@);
                    assert(lit_value(before, inputs, old_equal) == (vb.take(index as int)
                        == kb.take(index as int)));
                    assert(vb.take(index + 1) =~= vb.take(index as int).push(vb[index as int]));
                    assert(kb.take(index + 1) =~= kb.take(index as int).push(kb[index as int]));
                    assert(vb.take(index + 1).drop_last() =~= vb.take(index as int));
                    assert(kb.take(index + 1).drop_last() =~= kb.take(index as int));
                    assert(lit_value(before, inputs, value@[index as int]) == vb[index as int]);
                    assert(kb[index as int] == expected);
                    assert(vb.take(index + 1).last() == vb[index as int]);
                    assert(kb.take(index + 1).last() == kb[index as int]);
                }
            }
            index += 1;
        }
        proof {
            assert forall|i: int| 0 <= i < constant@.len() implies (
            #[trigger] constant@[i]).known() by {
                let j = constant@.len() - 1 - i;
                assert(constant@[constant@.len() - 1 - j].known());
            }
            assert forall|inputs: Inputs| #[trigger]
                lit_value(self.nodes(), inputs, equal) == (lits_value(start, inputs, value@)
                    == known_word(constant@)) by {
                let vb = lits_value(start, inputs, value@);
                assert(vb.take(index as int) =~= vb);
                assert(known_word(constant@).take(index as int) =~= known_word(constant@));
            }
        }
        assert(compares(self.nodes(), value@, constant@, equal));
        Ok(equal)
    }

    /// The number of the class that a row belongs to.
    pub fn partition(&mut self, value: &Vec<Lit>, states: &Vec<ConstBits>, classes: &Vec<usize>)
        -> (result: Result<Vec<Lit>, SymbolicError>)
        requires
            old(self).wf(),
            lits_ok(old(self).nodes(), value@),
        ensures
            final(self).wf(),
            keeps_values(old(self).nodes(), final(self).nodes()),
            final(self).nodes().len() <= old(self).nodes().len() + states@.len() * (value@.len() + 192),
            result matches Ok(bits) ==> (constant_row(value@) ==> constant_row(bits@)),
            (states@.len() == 0 || states@.len() != classes@.len()) ==> result == Err::<
                Vec<Lit>,
                SymbolicError,
            >(SymbolicError::Synthesis(SynthError::Invariant(Invariant::WidthMismatch))),
            result matches Err(error) ==> exhausted(final(self).nodes(), error) || states@.len()
                == 0 || states@.len() != classes@.len() || exists|i: int|
                0 <= i < states@.len() && ((#[trigger] states@[i])@.len() != value@.len()
                    || !all_known(states@[i]@)),
            result matches Ok(bits) ==> {
                &&& bits@.len() >= 1
                &&& class_form(
                    value@,
                    states_view(states@),
                    classes@,
                    bits@.len(),
                    states@.len(),
                ) matches Some(row) ==> bits@ == row
                &&& bits@.len() > 1 ==> exists|i: int|
                    0 <= i < classes@.len() && (#[trigger] classes@[i]) >= pow2((bits@.len() - 1) as nat)
                &&& lits_ok(final(self).nodes(), bits@)
                &&& forall|i: int|
                    0 <= i < classes@.len() ==> (#[trigger] classes@[i]) < pow2(bits@.len())
                &&& forall|inputs: Inputs| #[trigger]
                    lits_value(final(self).nodes(), inputs, bits@) == bits_of(
                        class_of(
                            states_view(states@),
                            classes@,
                            lits_value(old(self).nodes(), inputs, value@),
                            states@.len() as int,
                        ) as int,
                        bits@.len(),
                    )
            },
    {
        let ghost start = self.nodes();
        proof {
            lemma_keeps_values(start, start);
        }
        if states.len() == 0 || states.len() != classes.len() {
            return Err(SymbolicError::Synthesis(SynthError::Invariant(Invariant::WidthMismatch)));
        }
        let width: usize = class_width(classes);
        let mut bits = class_row(classes[0], width);
        let mut index: usize = 0;
        proof {
            assert forall|inputs: Inputs| #[trigger]
                lits_value(start, inputs, bits@) == bits_of(
                    class_of(
                        states_view(states@),
                        classes@,
                        lits_value(start, inputs, value@),
                        0,
                    ) as int,
                    width as nat,
                ) by {
                lemma_class_row(start, inputs, bits@, classes@[0], width);
            }
        }
        assert(bits@ =~= word_row(bits_of(classes@[0] as int, width as nat)));
        while index < states.len()
            invariant
                index <= states@.len(),
                states@.len() == classes@.len(),
                bits@.len() == width,
                width <= 64,
                start == old(self).nodes(),
                nodes_start(start),
                self.wf(),
                keeps_values(start, self.nodes()),
                class_form(value@, states_view(states@), classes@, width as nat, index as nat) matches Some(row)
                    ==> bits@ == row,
                self.nodes().len() <= start.len() + index * (value@.len() + 192),
                constant_row(value@) ==> constant_row(bits@),
                lits_ok(start, value@),
                lits_ok(self.nodes(), bits@),
                forall|inputs: Inputs| #[trigger]
                    lits_value(self.nodes(), inputs, bits@) == bits_of(
                        class_of(
                            states_view(states@),
                            classes@,
                            lits_value(start, inputs, value@),
                            index as int,
                        ) as int,
                        width as nat,
                    ),
            decreases states.len() - index,
        {
            let ghost before = self.nodes();
            let ghost previous = bits@;
            proof {
                lemma_share(index as nat, states@.len(), value@.len() + 192);
            }
            proof {
                assert forall|i: int| 0 <= i < value@.len() implies (#[trigger] value@[i]).node
                    < before.len() by {
                    assert(value@[i].node < start.len());
                }
            }
            let selected = match self.equals_constant(value, &states[index]) {
                Ok(lit) => lit,
                Err(error) => {
                    assert(states@[index as int]@ == states[index as int]@);
                    return Err(error);
                },
            };
            let ghost middle = self.nodes();
            let row = class_row(classes[index], width);
            proof {
                assert forall|i: int| 0 <= i < bits@.len() implies (#[trigger] bits@[i]).node
                    < middle.len() by {
                    assert(previous[i].node < before.len());
                }
            }
            bits =
            match self.select_rows(selected, &row, &bits) {
                Ok(bits) => bits,
                Err(error) => return Err(error),
            };
            proof {
                assert(row@ =~= word_row(bits_of(classes@[index as int] as int, width as nat)));
                assert(states_view(states@)[index as int] == states@[index as int]@);
                if let Some(form) = class_form(
                    value@,
                    states_view(states@),
                    classes@,
                    width as nat,
                    (index + 1) as nat,
                ) {
                    assert forall|i: int| 0 <= i < form.len() implies form[i] == bits@[i] by {
                        assert(simple_select(selected, row@[i], previous[i]) is Some);
                    }
                    assert(form =~= bits@);
                }
            }
            proof {
                assert forall|inputs: Inputs| #[trigger]
                    lits_value(self.nodes(), inputs, bits@) == bits_of(
                        class_of(
                            states_view(states@),
                            classes@,
                            lits_value(start, inputs, value@),
                            index + 1,
                        ) as int,
                        width as nat,
                    ) by {
                    lemma_lits_keep(start, before, value@, inputs);
                    lemma_lits_keep(before, middle, previous, inputs);
                    lemma_class_row(middle, inputs, row@, classes@[index as int], width);
                    assert(states_view(states@)[index as int] == states@[index as int]@);
                    let shown = lits_value(before, inputs, previous);
                    assert(lit_value(middle, inputs, selected) == (lits_value(
                        before,
                        inputs,
                        value@,
                    ) == known_word(states@[index as int]@)));
                }
            }
            index += 1;
        }
        Ok(bits)
    }
}

/// The number of bits that tell the classes apart, at least one.
fn class_width(classes: &Vec<usize>) -> (width: usize)
    ensures
        1 <= width <= 64,
        forall|i: int| 0 <= i < classes@.len() ==> (#[trigger] classes@[i]) < pow2(width as nat),
        width > 1 ==> exists|i: int|
            0 <= i < classes@.len() && (#[trigger] classes@[i]) >= pow2((width - 1) as nat),
{
    let mut width: usize = 1;
    let mut reach: u128 = 2;
    let mut index: usize = 0;
    proof {
        lemma2();
        vstd::arithmetic::power2::lemma2_to64();
    }
    while index < classes.len()
        invariant
            index <= classes@.len(),
            1 <= width <= 64,
            reach == pow2(width as nat),
            forall|i: int| 0 <= i < index ==> (#[trigger] classes@[i]) < reach,
            width > 1 ==> exists|i: int|
                0 <= i < index && (#[trigger] classes@[i]) >= pow2((width - 1) as nat),
        decreases classes.len() - index,
    {
        let class: usize = classes[index];
        proof {
            vstd::arithmetic::power2::lemma2_to64();
        }
        while class as u128 >= reach
            invariant
                1 <= width <= 64,
                index < classes@.len(),
                class == classes@[index as int],
                reach == pow2(width as nat),
                class as u128 >= reach ==> width < 64,
                forall|i: int| 0 <= i < index ==> (#[trigger] classes@[i]) < reach,
                width > 1 ==> exists|i: int|
                    0 <= i < index + 1 && (#[trigger] classes@[i]) >= pow2((width - 1) as nat),
            decreases 64 - width,
        {
            proof {
                lemma_pow2_unfold((width + 1) as nat);
                vstd::arithmetic::power2::lemma2_to64();
                if width < 63 {
                    lemma_pow2_strictly_increases((width + 1) as nat, 64);
                }
            }
            width += 1;
            reach = reach * 2;
            assert(classes@[index as int] >= pow2((width - 1) as nat));
        }
        index += 1;
    }
    width
}

/// The constant row of a class number.
fn class_row(class: usize, width: usize) -> (row: Vec<Lit>)
    ensures
        row@.len() == width,
        forall|i: int|
            0 <= i < width ==> #[trigger] row@[i] == Lit::constant_spec(
                bits_of(class as int, width as nat)[i],
            ),
{
    let digits = number_bits(class as u64, width);
    let mut row: Vec<Lit> = Vec::new();
    while row.len() < width
        invariant
            row@.len() <= width,
            digits@ == bits_of(class as int, width as nat),
            forall|i: int|
                0 <= i < row@.len() ==> #[trigger] row@[i] == Lit::constant_spec(
                    bits_of(class as int, width as nat)[i],
                ),
        decreases width - row.len(),
    {
        row.push(Lit::constant(digits[row.len()]));
    }
    row
}

proof fn lemma_class_row(
    nodes: Seq<LogicNode>,
    inputs: Inputs,
    row: Seq<Lit>,
    class: usize,
    width: usize,
)
    requires
        nodes_start(nodes),
        row.len() == width,
        forall|i: int|
            0 <= i < width ==> #[trigger] row[i] == Lit::constant_spec(
                bits_of(class as int, width as nat)[i],
            ),
    ensures
        lits_value(nodes, inputs, row) == bits_of(class as int, width as nat),
        lits_ok(nodes, row),
{
    assert forall|i: int| 0 <= i < row.len() implies lits_value(nodes, inputs, row)[i] == bits_of(
        class as int,
        width as nat,
    )[i] by {
        lemma_constant_value(nodes, inputs, bits_of(class as int, width as nat)[i]);
    }
    assert(lits_value(nodes, inputs, row) =~= bits_of(class as int, width as nat));
}

/// The number of offset bits beyond which no distance fits a machine word.
pub const MAX_OFFSET_BITS: usize = 64;

/// The most nodes that a run of bits at a computed offset takes.
pub open spec fn extract_cost(value: nat, offset: nat, width: nat) -> nat {
    3 * offset + width * (offset * (3 * value) + 3)
}

/// The most nodes that replacing a run of bits at a computed offset takes.
pub open spec fn insert_cost(value: nat, offset: nat) -> nat {
    offset * (6 * value) + 3 * value
}

/// Candidates for one result bit, moved by the offset bits below `stage`.
pub open spec fn candidate_state(
    start: Seq<LogicNode>,
    nodes: Seq<LogicNode>,
    value: Seq<Lit>,
    offset: Seq<Lit>,
    candidates: Seq<Lit>,
    first: int,
    limit: int,
    stage: int,
    inputs: Inputs,
) -> bool {
    let word = lits_value(start, inputs, value);
    let amount = nat_of(lits_value(start, inputs, offset)) as int;
    let moved = nat_of(lits_value(start, inputs, offset).take(stage)) as int;
    amount <= limit ==> forall|i: int|
        0 <= i && i + moved <= amount ==> #[trigger] lits_value(nodes, inputs, candidates)[i]
            == word[first + i + moved]
}

impl SymbolicLogic {
    /// Every candidate moved down by a distance where `control` holds; those
    /// with nothing above them stay.
    fn candidate_stage(&mut self, candidates: &Vec<Lit>, control: Lit, distance: usize) -> (result:
        Result<Vec<Lit>, SymbolicError>)
        requires
            old(self).wf(),
            old(self).has(control),
            lits_ok(old(self).nodes(), candidates@),
            distance <= candidates@.len(),
        ensures
            final(self).wf(),
            keeps_values(old(self).nodes(), final(self).nodes()),
            final(self).nodes().len() <= old(self).nodes().len() + 3 * candidates@.len(),
            result matches Ok(next) ==> (constant_row(candidates@) && control.node == 0 ==> constant_row(next@)),
            result matches Err(error) ==> exhausted(final(self).nodes(), error),
            result matches Ok(next) ==> {
                &&& next@.len() == candidates@.len()
                &&& lits_ok(final(self).nodes(), next@)
                &&& forall|inputs: Inputs, i: int|
                    0 <= i < next@.len() ==> #[trigger] lit_value(
                        final(self).nodes(),
                        inputs,
                        next@[i],
                    ) == (if i + distance < candidates@.len() && lit_value(
                        old(self).nodes(),
                        inputs,
                        control,
                    ) {
                        lit_value(old(self).nodes(), inputs, candidates@[i + distance])
                    } else {
                        lit_value(old(self).nodes(), inputs, candidates@[i])
                    })
            },
    {
        let ghost start = self.nodes();
        proof {
            lemma_keeps_values(start, start);
        }
        let mut next: Vec<Lit> = Vec::new();
        let mut index: usize = 0;
        while index < candidates.len()
            invariant
                index <= candidates@.len(),
                next@.len() == index,
                distance <= candidates@.len(),
                start == old(self).nodes(),
                self.wf(),
                control.node < start.len(),
                keeps_values(start, self.nodes()),
                self.nodes().len() <= start.len() + 3 * index,
                constant_row(candidates@) && control.node == 0 ==> constant_row(next@),
                lits_ok(start, candidates@),
                lits_ok(self.nodes(), next@),
                forall|inputs: Inputs, i: int|
                    0 <= i < next@.len() ==> #[trigger] lit_value(self.nodes(), inputs, next@[i])
                        == (if i + distance < candidates@.len() && lit_value(
                        start,
                        inputs,
                        control,
                    ) {
                        lit_value(start, inputs, candidates@[i + distance])
                    } else {
                        lit_value(start, inputs, candidates@[i])
                    }),
            decreases candidates.len() - index,
        {
            let ghost before = self.nodes();
            let ghost previous = next@;
            assert(candidates@[index as int].node < start.len());
            if index < candidates.len() - distance {
                assert(candidates@[index + distance].node < start.len());
                let lit = match self.select(
                    control,
                    candidates[index + distance],
                    candidates[index],
                ) {
                    Ok(lit) => lit,
                    Err(error) => return Err(error),
                };
                next.push(lit);
            } else {
                next.push(candidates[index]);
            }
            proof {
                assert forall|inputs: Inputs, i: int|
                    0 <= i < next@.len() implies #[trigger] lit_value(
                    self.nodes(),
                    inputs,
                    next@[i],
                ) == (if i + distance < candidates@.len() && lit_value(start, inputs, control) {
                    lit_value(start, inputs, candidates@[i + distance])
                } else {
                    lit_value(start, inputs, candidates@[i])
                }) by {
                    if i < index {
                        assert(next@[i] == previous[i]);
                        assert(previous[i].node < before.len());
                    }
                }
            }
            index += 1;
        }
        Ok(next)
    }

    /// One bit of a run at a computed offset, right where the offset is at most
    /// `limit`.
    fn select_candidate(
        &mut self,
        value: &Vec<Lit>,
        offset: &Vec<Lit>,
        first: usize,
        limit: u64,
    ) -> (result: Result<Lit, SymbolicError>)
        requires
            old(self).wf(),
            lits_ok(old(self).nodes(), value@),
            lits_ok(old(self).nodes(), offset@),
            first + limit < value@.len(),
            value@.len() <= u32::MAX,
        ensures
            final(self).wf(),
            keeps_values(old(self).nodes(), final(self).nodes()),
            final(self).nodes().len() <= old(self).nodes().len() + offset@.len() * (3 * value@.len()),
            result matches Ok(lit) ==> (constant_row(value@) && constant_row(offset@) ==> lit.node == 0),
            result matches Err(error) ==> exhausted(final(self).nodes(), error) || (offset@.len()
                > MAX_OFFSET_BITS && error == SymbolicError::Synthesis(
                SynthError::Capacity(Resource::Offset),
            )),
            result matches Ok(lit) ==> {
                &&& offset@.len() <= MAX_OFFSET_BITS
                &&& final(self).has(lit)
                &&& forall|inputs: Inputs|
                    nat_of(lits_value(old(self).nodes(), inputs, offset@)) <= limit
                        ==> #[trigger] lit_value(final(self).nodes(), inputs, lit) == lits_value(
                        old(self).nodes(),
                        inputs,
                        value@,
                    )[first + nat_of(lits_value(old(self).nodes(), inputs, offset@))]
            },
    {
        let ghost start = self.nodes();
        let mut candidates = tail(value, first);
        let mut stage: usize = 0;
        let mut distance: u128 = 1;
        proof {
            lemma2();
            lemma_keeps_values(start, start);
            assert forall|i: int| 0 <= i < candidates@.len() implies (
            #[trigger] candidates@[i]).node < start.len() by {
                assert(value@[first + i].node < start.len());
            }
            assert forall|inputs: Inputs| #[trigger]
                candidate_state(
                    start,
                    start,
                    value@,
                    offset@,
                    candidates@,
                    first as int,
                    limit as int,
                    0,
                    inputs,
                ) by {
                assert(lits_value(start, inputs, offset@).take(0).len() == 0);
            }
        }
        while stage < offset.len()
            invariant
                stage <= offset@.len(),
                stage <= MAX_OFFSET_BITS,
                distance == pow2(stage as nat),
                candidates@.len() == value@.len() - first,
                first + limit < value@.len(),
                value@.len() <= u32::MAX,
                start == old(self).nodes(),
                self.wf(),
                keeps_values(start, self.nodes()),
                self.nodes().len() <= start.len() + stage * (3 * value@.len()),
                constant_row(value@) && constant_row(offset@) ==> constant_row(candidates@),
                lits_ok(start, value@),
                lits_ok(start, offset@),
                lits_ok(self.nodes(), candidates@),
                forall|inputs: Inputs| #[trigger]
                    candidate_state(
                        start,
                        self.nodes(),
                        value@,
                        offset@,
                        candidates@,
                        first as int,
                        limit as int,
                        stage as int,
                        inputs,
                    ),
            decreases offset.len() - stage,
        {
            proof {
                lemma_share(stage as nat, offset@.len(), 3 * value@.len());
            }
            if stage >= MAX_OFFSET_BITS {
                return Err(SymbolicError::Synthesis(SynthError::Capacity(Resource::Offset)));
            }
            proof {
                vstd::arithmetic::power2::lemma2_to64();
                lemma_pow2_unfold((stage + 1) as nat);
                lemma_pow2_strictly_increases(stage as nat, MAX_OFFSET_BITS as nat);
            }
            let ghost before = self.nodes();
            let ghost previous = candidates@;
            let control = offset[stage];
            assert(offset@[stage as int].node < start.len());
            if distance <= limit as u128 {
                candidates =
                match self.candidate_stage(&candidates, control, distance as usize) {
                    Ok(row) => row,
                    Err(error) => return Err(error),
                };
            }
            proof {
                assert forall|inputs: Inputs| #[trigger]
                    candidate_state(
                        start,
                        self.nodes(),
                        value@,
                        offset@,
                        candidates@,
                        first as int,
                        limit as int,
                        stage + 1,
                        inputs,
                    ) by {
                    assert(candidate_state(
                        start,
                        before,
                        value@,
                        offset@,
                        previous,
                        first as int,
                        limit as int,
                        stage as int,
                        inputs,
                    ));
                    let word = lits_value(start, inputs, value@);
                    let ob = lits_value(start, inputs, offset@);
                    let amount = nat_of(ob) as int;
                    let moved = nat_of(ob.take(stage as int)) as int;
                    let next = nat_of(ob.take(stage + 1)) as int;
                    lemma_nat_take(ob, stage as int);
                    lemma_nat_split(ob, stage + 1);
                    assert(next <= amount) by {
                        let p = pow2((stage + 1) as nat);
                        let h = nat_of(ob.skip(stage + 1));
                        assert(p * h >= 0) by (nonlinear_arith);
                    }
                    assert(lit_value(before, inputs, control) == ob[stage as int]);
                    if amount <= limit {
                        let old_row = lits_value(before, inputs, previous);
                        let new_row = lits_value(self.nodes(), inputs, candidates@);
                        assert forall|i: int| 0 <= i && i + next <= amount implies
                            #[trigger] new_row[i] == word[first + i + next] by {
                            if distance <= limit {
                                if ob[stage as int] {
                                    assert(old_row[i + distance] == word[first + (i + distance)
                                        + moved]);
                                    assert(lit_value(self.nodes(), inputs, candidates@[i])
                                        == lit_value(before, inputs, previous[i + distance]));
                                } else {
                                    assert(old_row[i] == word[first + i + moved]);
                                    assert(lit_value(self.nodes(), inputs, candidates@[i])
                                        == lit_value(before, inputs, previous[i]));
                                }
                            } else {
                                assert(!ob[stage as int]);
                                assert(old_row[i] == word[first + i + moved]);
                            }
                        }
                    }
                }
            }
            stage += 1;
            distance = distance * 2;
        }
        let selected = candidates[0];
        assert(candidates@[0].node < self.nodes().len());
        proof {
            assert forall|inputs: Inputs|
                nat_of(lits_value(start, inputs, offset@)) <= limit implies #[trigger] lit_value(
                self.nodes(),
                inputs,
                selected,
            ) == lits_value(start, inputs, value@)[first + nat_of(
                lits_value(start, inputs, offset@),
            )] by {
                assert(candidate_state(
                    start,
                    self.nodes(),
                    value@,
                    offset@,
                    candidates@,
                    first as int,
                    limit as int,
                    stage as int,
                    inputs,
                ));
                let ob = lits_value(start, inputs, offset@);
                assert(ob.take(stage as int) =~= ob);
                assert(lits_value(self.nodes(), inputs, candidates@)[0] == lits_value(
                    start,
                    inputs,
                    value@,
                )[first + 0 + nat_of(ob)]);
            }
        }
        Ok(selected)
    }

    /// A run of `width` bits at a computed offset that is at most `max_offset`.
    pub fn dynamic_extract(
        &mut self,
        value: &Vec<Lit>,
        offset: &Vec<Lit>,
        width: usize,
        max_offset: u128,
    ) -> (result: Result<Vec<Lit>, SymbolicError>)
        requires
            old(self).wf(),
            lits_ok(old(self).nodes(), value@),
            lits_ok(old(self).nodes(), offset@),
            1 <= width <= value@.len(),
            value@.len() <= u32::MAX,
            max_offset < pow2(offset@.len()),
        ensures
            final(self).wf(),
            keeps_values(old(self).nodes(), final(self).nodes()),
            final(self).nodes().len() <= old(self).nodes().len() + extract_cost(value@.len(), offset@.len(), width as nat),
            result matches Ok(bits) ==> (constant_row(value@) && constant_row(offset@) ==> constant_row(bits@)),
            result matches Err(error) ==> exhausted(final(self).nodes(), error) || (offset@.len()
                > MAX_OFFSET_BITS && error == SymbolicError::Synthesis(
                SynthError::Capacity(Resource::Offset),
            )),
            result matches Ok(bits) ==> {
                &&& bits@.len() == width
                &&& lits_ok(final(self).nodes(), bits@)
                &&& forall|inputs: Inputs|
                    nat_of(lits_value(old(self).nodes(), inputs, offset@)) <= max_offset
                        ==> #[trigger] lits_value(final(self).nodes(), inputs, bits@)
                        == dynamic_extract_bits(
                        lits_value(old(self).nodes(), inputs, value@),
                        nat_of(lits_value(old(self).nodes(), inputs, offset@)),
                        width as nat,
                    )
            },
    {
        let ghost start = self.nodes();
        proof {
            lemma_keeps_values(start, start);
        }
        let available: u64 = (value.len() - width) as u64;
        let bounded: bool = max_offset > available as u128;
        let limit: u64 = if bounded {
            available
        } else {
            max_offset as u64
        };
        let valid = if bounded {
            match self.unsigned_at_most_constant(offset, available) {
                Ok(lit) => lit,
                Err(error) => return Err(error),
            }
        } else {
            Lit::constant(true)
        };
        let ghost checked = self.nodes();
        proof {
            assert forall|inputs: Inputs|
                nat_of(lits_value(start, inputs, offset@)) <= max_offset implies #[trigger] lit_value(
                checked,
                inputs,
                valid,
            ) == (nat_of(lits_value(start, inputs, offset@)) <= available) by {
                lemma_constant_value(checked, inputs, true);
            }
        }
        let mut bits: Vec<Lit> = Vec::new();
        while bits.len() < width
            invariant
                bits@.len() <= width,
                1 <= width <= value@.len(),
                value@.len() <= u32::MAX,
                available == value@.len() - width,
                bounded == (max_offset > available),
                limit == (if bounded {
                    available as int
                } else {
                    max_offset as int
                }),
                start == old(self).nodes(),
                nodes_start(start),
                self.wf(),
                keeps_values(start, checked),
                keeps_values(checked, self.nodes()),
                valid.node < checked.len(),
                self.nodes().len() <= start.len() + 3 * offset@.len() + bits@.len() * (offset@.len() * (3
                    * value@.len()) + 3),
                constant_row(value@) && constant_row(offset@) ==> constant_row(bits@) && valid.node == 0,
                lits_ok(start, value@),
                lits_ok(start, offset@),
                lits_ok(self.nodes(), bits@),
                forall|inputs: Inputs|
                    nat_of(lits_value(start, inputs, offset@)) <= max_offset
                        ==> #[trigger] lit_value(checked, inputs, valid) == (nat_of(
                        lits_value(start, inputs, offset@),
                    ) <= available),
                forall|inputs: Inputs, i: int|
                    0 <= i < bits@.len() && nat_of(lits_value(start, inputs, offset@))
                        <= max_offset ==> #[trigger] lit_value(self.nodes(), inputs, bits@[i]) == (
                    nat_of(lits_value(start, inputs, offset@)) <= available && lits_value(
                        start,
                        inputs,
                        value@,
                    )[i + nat_of(lits_value(start, inputs, offset@))]),
            decreases width - bits.len(),
        {
            let ghost before = self.nodes();
            let ghost previous = bits@;
            let first: usize = bits.len();
            proof {
                lemma_share(first as nat, width as nat, offset@.len() * (3 * value@.len()) + 3);
            }
            proof {
                assert forall|i: int| 0 <= i < value@.len() implies (#[trigger] value@[i]).node
                    < before.len() by {
                    assert(value@[i].node < start.len());
                }
                assert forall|i: int| 0 <= i < offset@.len() implies (#[trigger] offset@[i]).node
                    < before.len() by {
                    assert(offset@[i].node < start.len());
                }
            }
            let selected = match self.select_candidate(value, offset, first, limit) {
                Ok(lit) => lit,
                Err(error) => return Err(error),
            };
            let ghost middle = self.nodes();
            let bit = if bounded {
                match self.select(valid, selected, Lit::constant(false)) {
                    Ok(lit) => lit,
                    Err(error) => return Err(error),
                }
            } else {
                selected
            };
            bits.push(bit);
            proof {
                assert forall|inputs: Inputs, i: int|
                    0 <= i < bits@.len() && nat_of(lits_value(start, inputs, offset@))
                        <= max_offset implies #[trigger] lit_value(self.nodes(), inputs, bits@[i])
                    == (nat_of(lits_value(start, inputs, offset@)) <= available && lits_value(
                    start,
                    inputs,
                    value@,
                )[i + nat_of(lits_value(start, inputs, offset@))]) by {
                    if i < first {
                        assert(bits@[i] == previous[i]);
                        assert(previous[i].node < before.len());
                    } else {
                        lemma_lits_keep(start, before, value@, inputs);
                        lemma_lits_keep(start, before, offset@, inputs);
                        lemma_constant_value(middle, inputs, false);
                        assert(lit_value(middle, inputs, valid) == lit_value(
                            checked,
                            inputs,
                            valid,
                        ));
                        let shown = lit_value(middle, inputs, selected);
                    }
                }
            }
        }
        proof {
            assert forall|inputs: Inputs|
                nat_of(lits_value(start, inputs, offset@)) <= max_offset implies #[trigger] lits_value(
                self.nodes(),
                inputs,
                bits@,
            ) == dynamic_extract_bits(
                lits_value(start, inputs, value@),
                nat_of(lits_value(start, inputs, offset@)),
                width as nat,
            ) by {
                let word = lits_value(start, inputs, value@);
                let amount = nat_of(lits_value(start, inputs, offset@));
                let row = lits_value(self.nodes(), inputs, bits@);
                assert forall|i: int| 0 <= i < width implies row[i] == (amount <= available
                    && word[i + amount]) by {
                    assert(row[i] == lit_value(self.nodes(), inputs, bits@[i]));
                }
                if amount + width <= word.len() {
                    assert(row =~= extract_bits(word, amount as int, width as nat));
                } else {
                    lemma_clear(row);
                }
            }
        }
        Ok(bits)
    }

    /// A row moved up by a distance where `control` holds.
    fn raise_stage(&mut self, row: &Vec<Lit>, control: Lit, distance: u128) -> (result: Result<
        Vec<Lit>,
        SymbolicError,
    >)
        requires
            old(self).wf(),
            old(self).has(control),
            lits_ok(old(self).nodes(), row@),
            row@.len() <= u32::MAX,
        ensures
            final(self).wf(),
            keeps_values(old(self).nodes(), final(self).nodes()),
            final(self).nodes().len() <= old(self).nodes().len() + 3 * row@.len(),
            result matches Ok(next) ==> (constant_row(row@) && control.node == 0 ==> constant_row(next@)),
            result matches Err(error) ==> exhausted(final(self).nodes(), error),
            result matches Ok(next) ==> {
                &&& next@.len() == row@.len()
                &&& lits_ok(final(self).nodes(), next@)
                &&& forall|inputs: Inputs| #[trigger]
                    lits_value(final(self).nodes(), inputs, next@) == (if lit_value(
                        old(self).nodes(),
                        inputs,
                        control,
                    ) {
                        shift_left(
                            lits_value(old(self).nodes(), inputs, row@),
                            distance as nat,
                        )
                    } else {
                        lits_value(old(self).nodes(), inputs, row@)
                    })
            },
    {
        let ghost start = self.nodes();
        let mut raised: Vec<Lit> = Vec::new();
        while raised.len() < row.len()
            invariant
                raised@.len() <= row@.len(),
                row@.len() <= u32::MAX,
                forall|i: int|
                    0 <= i < raised@.len() ==> #[trigger] raised@[i] == (if i >= distance {
                        row@[i - distance]
                    } else {
                        Lit::constant_spec(false)
                    }),
            decreases row.len() - raised.len(),
        {
            let index: usize = raised.len();
            if index as u128 >= distance {
                raised.push(row[index - distance as usize]);
            } else {
                raised.push(Lit::constant(false));
            }
        }
        proof {
            assert forall|i: int| 0 <= i < raised@.len() implies (#[trigger] raised@[i]).node
                < start.len() by {
                if i >= distance {
                    assert(row@[i - distance].node < start.len());
                }
            }
        }
        let next = match self.select_rows(control, &raised, row) {
            Ok(bits) => bits,
            Err(error) => return Err(error),
        };
        proof {
            assert forall|inputs: Inputs| #[trigger]
                lits_value(self.nodes(), inputs, next@) == (if lit_value(start, inputs, control) {
                    shift_left(lits_value(start, inputs, row@), distance as nat)
                } else {
                    lits_value(start, inputs, row@)
                }) by {
                lemma_constant_value(start, inputs, false);
                assert(lits_value(start, inputs, raised@) =~= shift_left(
                    lits_value(start, inputs, row@),
                    distance as nat,
                ));
            }
        }
        Ok(next)
    }

    /// A row with a run of its bits replaced at a computed offset.
    pub fn dynamic_insert(&mut self, value: &Vec<Lit>, offset: &Vec<Lit>, replacement: &Vec<Lit>)
        -> (result: Result<Vec<Lit>, SymbolicError>)
        requires
            old(self).wf(),
            lits_ok(old(self).nodes(), value@),
            lits_ok(old(self).nodes(), offset@),
            lits_ok(old(self).nodes(), replacement@),
            value@.len() <= u32::MAX,
        ensures
            final(self).wf(),
            keeps_values(old(self).nodes(), final(self).nodes()),
            final(self).nodes().len() <= old(self).nodes().len() + insert_cost(value@.len(), offset@.len()),
            result matches Ok(bits) ==> (constant_row(value@) && constant_row(offset@) && constant_row(replacement@)
                ==> constant_row(bits@)),
            replacement@.len() > value@.len() ==> result == Err::<Vec<Lit>, SymbolicError>(
                SymbolicError::Synthesis(SynthError::Invariant(Invariant::WidthMismatch)),
            ),
            result matches Err(error) ==> exhausted(final(self).nodes(), error)
                || replacement@.len() > value@.len() || (offset@.len() > MAX_OFFSET_BITS && error
                == SymbolicError::Synthesis(SynthError::Capacity(Resource::Offset))),
            result matches Ok(bits) ==> {
                &&& lits_ok(final(self).nodes(), bits@)
                &&& forall|inputs: Inputs| #[trigger]
                    lits_value(final(self).nodes(), inputs, bits@) == dynamic_insert_bits(
                        lits_value(old(self).nodes(), inputs, value@),
                        nat_of(lits_value(old(self).nodes(), inputs, offset@)),
                        lits_value(old(self).nodes(), inputs, replacement@),
                    )
            },
    {
        let ghost start = self.nodes();
        proof {
            lemma_keeps_values(start, start);
            lemma2();
        }
        if replacement.len() > value.len() {
            return Err(SymbolicError::Synthesis(SynthError::Invariant(Invariant::WidthMismatch)));
        }
        let mut shifted: Vec<Lit> = Vec::new();
        let mut mask: Vec<Lit> = Vec::new();
        while shifted.len() < value.len()
            invariant
                shifted@.len() <= value@.len(),
                mask@.len() == shifted@.len(),
                forall|i: int|
                    0 <= i < shifted@.len() ==> #[trigger] shifted@[i] == (if i
                        < replacement@.len() {
                        replacement@[i]
                    } else {
                        Lit::constant_spec(false)
                    }),
                forall|i: int|
                    0 <= i < mask@.len() ==> #[trigger] mask@[i] == Lit::constant_spec(
                        i < replacement@.len(),
                    ),
            decreases value.len() - shifted.len(),
        {
            let inside: bool = shifted.len() < replacement.len();
            if inside {
                shifted.push(replacement[shifted.len()]);
            } else {
                shifted.push(Lit::constant(false));
            }
            mask.push(Lit::constant(inside));
        }
        let ghost base = shifted@;
        let ghost base_mask = mask@;
        let mut stage: usize = 0;
        let mut distance: u128 = 1;
        proof {
            assert forall|i: int| 0 <= i < base.len() implies (#[trigger] base[i]).node
                < start.len() by {
                if i < replacement@.len() {
                    assert(replacement@[i].node < start.len());
                }
            }
            assert forall|inputs: Inputs| #[trigger]
                lits_value(start, inputs, shifted@) == shift_left(
                    lits_value(start, inputs, base),
                    nat_of(lits_value(start, inputs, offset@).take(0)),
                ) by {
                assert(lits_value(start, inputs, offset@).take(0).len() == 0);
                lemma_shift_twice(
                    BinaryOp::Shl,
                    lits_value(start, inputs, base),
                    0,
                    0,
                    false,
                );
            }
            assert forall|inputs: Inputs| #[trigger]
                lits_value(start, inputs, mask@) == shift_left(
                    lits_value(start, inputs, base_mask),
                    nat_of(lits_value(start, inputs, offset@).take(0)),
                ) by {
                assert(lits_value(start, inputs, offset@).take(0).len() == 0);
                lemma_shift_twice(
                    BinaryOp::Shl,
                    lits_value(start, inputs, base_mask),
                    0,
                    0,
                    false,
                );
            }
        }
        while stage < offset.len()
            invariant
                stage <= offset@.len(),
                stage <= MAX_OFFSET_BITS,
                distance == pow2(stage as nat),
                shifted@.len() == value@.len(),
                mask@.len() == value@.len(),
                replacement@.len() <= value@.len(),
                value@.len() <= u32::MAX,
                start == old(self).nodes(),
                self.wf(),
                keeps_values(start, self.nodes()),
                self.nodes().len() <= start.len() + stage * (6 * value@.len()),
                constant_row(value@) && constant_row(offset@) && constant_row(replacement@)
                    ==> constant_row(shifted@) && constant_row(mask@),
                lits_ok(start, offset@),
                lits_ok(self.nodes(), shifted@),
                lits_ok(self.nodes(), mask@),
                forall|inputs: Inputs| #[trigger]
                    lits_value(self.nodes(), inputs, shifted@) == shift_left(
                        lits_value(start, inputs, base),
                        nat_of(lits_value(start, inputs, offset@).take(stage as int)),
                    ),
                forall|inputs: Inputs| #[trigger]
                    lits_value(self.nodes(), inputs, mask@) == shift_left(
                        lits_value(start, inputs, base_mask),
                        nat_of(lits_value(start, inputs, offset@).take(stage as int)),
                    ),
            decreases offset.len() - stage,
        {
            proof {
                lemma_share(stage as nat, offset@.len(), 6 * value@.len());
            }
            if stage >= MAX_OFFSET_BITS {
                return Err(SymbolicError::Synthesis(SynthError::Capacity(Resource::Offset)));
            }
            proof {
                vstd::arithmetic::power2::lemma2_to64();
                lemma_pow2_unfold((stage + 1) as nat);
                lemma_pow2_strictly_increases(stage as nat, MAX_OFFSET_BITS as nat);
            }
            let ghost before = self.nodes();
            let ghost old_shifted = shifted@;
            let ghost old_mask = mask@;
            let control = offset[stage];
            assert(offset@[stage as int].node < start.len());
            shifted =
            match self.raise_stage(&shifted, control, distance) {
                Ok(row) => row,
                Err(error) => return Err(error),
            };
            let ghost middle = self.nodes();
            let ghost new_shifted = shifted@;
            proof {
                assert forall|i: int| 0 <= i < mask@.len() implies (#[trigger] mask@[i]).node
                    < middle.len() by {
                    assert(old_mask[i].node < before.len());
                }
            }
            mask =
            match self.raise_stage(&mask, control, distance) {
                Ok(row) => row,
                Err(error) => return Err(error),
            };
            proof {
                assert forall|i: int| 0 <= i < shifted@.len() implies (#[trigger] shifted@[i]).node
                    < self.nodes().len() by {
                    assert(new_shifted[i].node < middle.len());
                }
                assert forall|inputs: Inputs| #[trigger]
                    lits_value(self.nodes(), inputs, shifted@) == shift_left(
                        lits_value(start, inputs, base),
                        nat_of(lits_value(start, inputs, offset@).take(stage + 1)),
                    ) by {
                    let ob = lits_value(start, inputs, offset@);
                    lemma_nat_take(ob, stage as int);
                    lemma_lits_keep(middle, self.nodes(), new_shifted, inputs);
                    assert(lit_value(before, inputs, control) == ob[stage as int]);
                    let shown = lits_value(before, inputs, old_shifted);
                    lemma_shift_twice(
                        BinaryOp::Shl,
                        lits_value(start, inputs, base),
                        nat_of(ob.take(stage as int)),
                        distance as nat,
                        false,
                    );
                }
                assert forall|inputs: Inputs| #[trigger]
                    lits_value(self.nodes(), inputs, mask@) == shift_left(
                        lits_value(start, inputs, base_mask),
                        nat_of(lits_value(start, inputs, offset@).take(stage + 1)),
                    ) by {
                    let ob = lits_value(start, inputs, offset@);
                    lemma_nat_take(ob, stage as int);
                    lemma_lits_keep(before, middle, old_mask, inputs);
                    assert(lit_value(middle, inputs, control) == ob[stage as int]);
                    let shown = lits_value(before, inputs, old_mask);
                    lemma_shift_twice(
                        BinaryOp::Shl,
                        lits_value(start, inputs, base_mask),
                        nat_of(ob.take(stage as int)),
                        distance as nat,
                        false,
                    );
                }
            }
            stage += 1;
            distance = distance * 2;
        }
        let ghost ready = self.nodes();
        let mut bits: Vec<Lit> = Vec::new();
        while bits.len() < value.len()
            invariant
                bits@.len() <= value@.len(),
                shifted@.len() == value@.len(),
                mask@.len() == value@.len(),
                replacement@.len() <= value@.len(),
                start == old(self).nodes(),
                self.wf(),
                keeps_values(start, ready),
                keeps_values(ready, self.nodes()),
                ready.len() <= start.len() + offset@.len() * (6 * value@.len()),
                self.nodes().len() <= ready.len() + 3 * bits@.len(),
                constant_row(value@) && constant_row(offset@) && constant_row(replacement@)
                    ==> constant_row(shifted@) && constant_row(mask@) && constant_row(bits@),
                lits_ok(start, value@),
                lits_ok(ready, shifted@),
                lits_ok(ready, mask@),
                lits_ok(self.nodes(), bits@),
                forall|inputs: Inputs, i: int|
                    0 <= i < bits@.len() ==> #[trigger] lit_value(self.nodes(), inputs, bits@[i])
                        == (if lit_value(ready, inputs, mask@[i]) {
                        lit_value(ready, inputs, shifted@[i])
                    } else {
                        lit_value(start, inputs, value@[i])
                    }),
            decreases value.len() - bits.len(),
        {
            let ghost before = self.nodes();
            let ghost previous = bits@;
            let index: usize = bits.len();
            assert(value@[index as int].node < start.len());
            assert(mask@[index as int].node < ready.len());
            assert(shifted@[index as int].node < ready.len());
            let bit = match self.select(mask[index], shifted[index], value[index]) {
                Ok(lit) => lit,
                Err(error) => return Err(error),
            };
            bits.push(bit);
            proof {
                assert forall|inputs: Inputs, i: int|
                    0 <= i < bits@.len() implies #[trigger] lit_value(
                    self.nodes(),
                    inputs,
                    bits@[i],
                ) == (if lit_value(ready, inputs, mask@[i]) {
                    lit_value(ready, inputs, shifted@[i])
                } else {
                    lit_value(start, inputs, value@[i])
                }) by {
                    if i < index {
                        assert(bits@[i] == previous[i]);
                        assert(previous[i].node < before.len());
                    }
                }
            }
        }
        proof {
            assert forall|inputs: Inputs| #[trigger]
                lits_value(self.nodes(), inputs, bits@) == dynamic_insert_bits(
                    lits_value(start, inputs, value@),
                    nat_of(lits_value(start, inputs, offset@)),
                    lits_value(start, inputs, replacement@),
                ) by {
                let ob = lits_value(start, inputs, offset@);
                let vb = lits_value(start, inputs, value@);
                let rb = lits_value(start, inputs, replacement@);
                assert(ob.take(stage as int) =~= ob);
                let amount = nat_of(ob);
                let sb = lits_value(ready, inputs, shifted@);
                let mb = lits_value(ready, inputs, mask@);
                assert(sb == shift_left(lits_value(start, inputs, base), amount));
                assert(mb == shift_left(lits_value(start, inputs, base_mask), amount));
                let row = lits_value(self.nodes(), inputs, bits@);
                assert forall|i: int| 0 <= i < row.len() implies row[i] == dynamic_insert_bits(
                    vb,
                    amount,
                    rb,
                )[i] by {
                    assert(row[i] == lit_value(self.nodes(), inputs, bits@[i]));
                    assert(mb[i] == lit_value(ready, inputs, mask@[i]));
                    assert(sb[i] == lit_value(ready, inputs, shifted@[i]));
                    if i >= amount {
                        lemma_constant_value(start, inputs, i - amount < replacement@.len());
                        assert(mb[i] == (i - amount < replacement@.len()));
                    }
                }
                assert(row =~= dynamic_insert_bits(vb, amount, rb));
            }
        }
        Ok(bits)
    }
}

} // verus!
