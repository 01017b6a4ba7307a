//! Bit-level logic under a node budget.

use crate::error::SynthError;
use crate::logic::{
    conjoins, constant_row, keeps_values, lemma_keeps_values, lit_value, lits_ok, lits_value,
    simple_and, simple_or, simple_select, Inputs, Lit, LogicBuilder, LogicNode,
};
use crate::word::bits::{all_bits, any_bit, parity};
use crate::word::semantics::resize_bits;
use crate::word::types::WordType;
use vstd::prelude::*;

verus! {

/// The number of nodes beyond which a behaviour is not worth encoding.
pub const MAX_SYMBOLIC_NODES: usize = 262_144;

/// Why an encoding stopped.
#[derive(Clone, PartialEq, Eq, Debug)]
pub enum SymbolicError {
    Unsupported,
    Synthesis(SynthError),
}

/// An encoding that stopped because the graph outgrew its budget.
pub open spec fn exhausted(nodes: Seq<LogicNode>, error: SymbolicError) -> bool {
    nodes.len() > MAX_SYMBOLIC_NODES && error is Unsupported
}

/// A graph with a node budget.
pub struct SymbolicLogic {
    pub builder: LogicBuilder,
}

impl SymbolicLogic {
    pub open spec fn wf(&self) -> bool {
        self.builder.wf() && self.builder.nodes@.len() <= MAX_SYMBOLIC_NODES + 3
    }

    pub open spec fn nodes(&self) -> Seq<LogicNode> {
        self.builder.nodes@
    }

    pub open spec fn has(&self, lit: Lit) -> bool {
        lit.node < self.nodes().len()
    }

    pub fn new() -> (logic: Self)
        ensures
            logic.wf(),
            logic.nodes() == seq![LogicNode::False],
    {
        SymbolicLogic { builder: LogicBuilder::new() }
    }

    /// Whether the graph is still within its budget.
    pub fn check_budget(&self) -> (result: Result<(), SymbolicError>)
        ensures
            result == (if self.nodes().len() > MAX_SYMBOLIC_NODES {
                Err::<(), SymbolicError>(SymbolicError::Unsupported)
            } else {
                Ok(())
            }),
    {
        if self.builder.node_count() > MAX_SYMBOLIC_NODES {
            Err(SymbolicError::Unsupported)
        } else {
            Ok(())
        }
    }

    /// A fresh input.
    pub fn input(&mut self, origin: u32) -> (result: Result<Lit, SymbolicError>)
        requires
            old(self).wf(),
        ensures
            final(self).wf(),
            keeps_values(old(self).nodes(), final(self).nodes()),
            final(self).nodes().len() <= old(self).nodes().len() + 1,
            result matches Err(error) ==> exhausted(final(self).nodes(), error),
            result matches Ok(lit) ==> {
                &&& final(self).nodes().len() <= MAX_SYMBOLIC_NODES
                &&& lit == (Lit { node: old(self).nodes().len() as u32, inverted: false })
                &&& final(self).nodes() == old(self).nodes().push(LogicNode::Input(origin))
                &&& forall|inputs: Inputs| #[trigger]
                    lit_value(final(self).nodes(), inputs, lit) == (inputs.value)(origin as int)
            },
    {
        match self.check_budget() {
            Ok(()) => {},
            Err(error) => {
                proof {
                    lemma_keeps_values(self.nodes(), self.nodes());
                }
                return Err(error);
            },
        }
        let lit = match self.builder.input(origin) {
            Ok(lit) => lit,
            Err(error) => {
                assert(false);
                return Err(SymbolicError::Synthesis(error));
            },
        };
        match self.check_budget() {
            Ok(()) => Ok(lit),
            Err(error) => Err(error),
        }
    }

    pub fn and(&mut self, left: Lit, right: Lit) -> (result: Result<Lit, SymbolicError>)
        requires
            old(self).wf(),
            old(self).has(left),
            old(self).has(right),
        ensures
            final(self).wf(),
            keeps_values(old(self).nodes(), final(self).nodes()),
            final(self).nodes().len() <= old(self).nodes().len() + 1,
            result matches Err(error) ==> exhausted(final(self).nodes(), error),
            result matches Ok(lit) ==> {
                &&& final(self).nodes().len() <= MAX_SYMBOLIC_NODES
                &&& final(self).has(lit)
                &&& simple_and(left, right) matches Some(simple) ==> lit == simple
                &&& conjoins(final(self).nodes(), left, right, lit)
                &&& left.node == 0 && right.node == 0 ==> lit.node == 0
                &&& forall|inputs: Inputs| #[trigger]
                    lit_value(final(self).nodes(), inputs, lit) == (lit_value(
                        old(self).nodes(),
                        inputs,
                        left,
                    ) && lit_value(old(self).nodes(), inputs, right))
            },
    {
        match self.check_budget() {
            Ok(()) => {},
            Err(error) => {
                proof {
                    lemma_keeps_values(self.nodes(), self.nodes());
                }
                return Err(error);
            },
        }
        let lit = match self.builder.and(left, right) {
            Ok(lit) => lit,
            Err(error) => {
                assert(false);
                return Err(SymbolicError::Synthesis(error));
            },
        };
        match self.check_budget() {
            Ok(()) => Ok(lit),
            Err(error) => Err(error),
        }
    }

    pub fn or(&mut self, left: Lit, right: Lit) -> (result: Result<Lit, SymbolicError>)
        requires
            old(self).wf(),
            old(self).has(left),
            old(self).has(right),
        ensures
            final(self).wf(),
            keeps_values(old(self).nodes(), final(self).nodes()),
            final(self).nodes().len() <= old(self).nodes().len() + 1,
            result matches Err(error) ==> exhausted(final(self).nodes(), error),
            result matches Ok(lit) ==> {
                &&& final(self).nodes().len() <= MAX_SYMBOLIC_NODES
                &&& final(self).has(lit)
                &&& simple_or(left, right) matches Some(simple) ==> lit == simple
                &&& left.node == 0 && right.node == 0 ==> lit.node == 0
                &&& forall|inputs: Inputs| #[trigger]
                    lit_value(final(self).nodes(), inputs, lit) == (lit_value(
                        old(self).nodes(),
                        inputs,
                        left,
                    ) || lit_value(old(self).nodes(), inputs, right))
            },
    {
        match self.check_budget() {
            Ok(()) => {},
            Err(error) => {
                proof {
                    lemma_keeps_values(self.nodes(), self.nodes());
                }
                return Err(error);
            },
        }
        let lit = match self.builder.or(left, right) {
            Ok(lit) => lit,
            Err(error) => {
                assert(false);
                return Err(SymbolicError::Synthesis(error));
            },
        };
        match self.check_budget() {
            Ok(()) => Ok(lit),
            Err(error) => Err(error),
        }
    }

    pub fn xor(&mut self, left: Lit, right: Lit) -> (result: Result<Lit, SymbolicError>)
        requires
            old(self).wf(),
            old(self).has(left),
            old(self).has(right),
        ensures
            final(self).wf(),
            keeps_values(old(self).nodes(), final(self).nodes()),
            final(self).nodes().len() <= old(self).nodes().len() + 3,
            result matches Err(error) ==> exhausted(final(self).nodes(), error),
            result matches Ok(lit) ==> {
                &&& final(self).nodes().len() <= MAX_SYMBOLIC_NODES
                &&& final(self).has(lit)
                &&& left.node == 0 && right.node == 0 ==> lit.node == 0
                &&& forall|inputs: Inputs| #[trigger]
                    lit_value(final(self).nodes(), inputs, lit) == (lit_value(
                        old(self).nodes(),
                        inputs,
                        left,
                    ) != lit_value(old(self).nodes(), inputs, right))
            },
    {
        match self.check_budget() {
            Ok(()) => {},
            Err(error) => {
                proof {
                    lemma_keeps_values(self.nodes(), self.nodes());
                }
                return Err(error);
            },
        }
        let lit = match self.builder.xor(left, right) {
            Ok(lit) => lit,
            Err(error) => {
                assert(false);
                return Err(SymbolicError::Synthesis(error));
            },
        };
        match self.check_budget() {
            Ok(()) => Ok(lit),
            Err(error) => Err(error),
        }
    }

    pub fn select(&mut self, condition: Lit, when_true: Lit, when_false: Lit) -> (result: Result<
        Lit,
        SymbolicError,
    >)
        requires
            old(self).wf(),
            old(self).has(condition),
            old(self).has(when_true),
            old(self).has(when_false),
        ensures
            final(self).wf(),
            keeps_values(old(self).nodes(), final(self).nodes()),
            final(self).nodes().len() <= old(self).nodes().len() + 3,
            result matches Err(error) ==> exhausted(final(self).nodes(), error),
            result matches Ok(lit) ==> {
                &&& final(self).nodes().len() <= MAX_SYMBOLIC_NODES
                &&& final(self).has(lit)
                &&& simple_select(condition, when_true, when_false) matches Some(simple) ==> lit == simple
                &&& condition.node == 0 ==> lit == (if condition.inverted {
                    when_true
                } else {
                    when_false
                })
                &&& forall|inputs: Inputs| #[trigger]
                    lit_value(final(self).nodes(), inputs, lit) == (if lit_value(
                        old(self).nodes(),
                        inputs,
                        condition,
                    ) {
                        lit_value(old(self).nodes(), inputs, when_true)
                    } else {
                        lit_value(old(self).nodes(), inputs, when_false)
                    })
            },
    {
        match self.check_budget() {
            Ok(()) => {},
            Err(error) => {
                proof {
                    lemma_keeps_values(self.nodes(), self.nodes());
                }
                return Err(error);
            },
        }
        let lit = match self.builder.mux(condition, when_true, when_false) {
            Ok(lit) => lit,
            Err(error) => {
                assert(false);
                return Err(SymbolicError::Synthesis(error));
            },
        };
        match self.check_budget() {
            Ok(()) => Ok(lit),
            Err(error) => Err(error),
        }
    }

    /// Whether every literal of a row holds.
    pub fn reduce_and(&mut self, values: &Vec<Lit>) -> (result: Result<Lit, SymbolicError>)
        requires
            old(self).wf(),
            lits_ok(old(self).nodes(), values@),
        ensures
            final(self).wf(),
            keeps_values(old(self).nodes(), final(self).nodes()),
            final(self).nodes().len() <= old(self).nodes().len() + values@.len(),
            result matches Err(error) ==> exhausted(final(self).nodes(), error),
            result matches Ok(lit) ==> {
                &&& final(self).has(lit)
                &&& constant_row(values@) ==> lit.node == 0
                &&& forall|inputs: Inputs| #[trigger]
                    lit_value(final(self).nodes(), inputs, lit) == all_bits(
                        lits_value(old(self).nodes(), inputs, values@),
                    )
            },
    {
        let ghost start = self.nodes();
        let mut result = Lit::constant(true);
        let mut index: usize = 0;
        proof {
            lemma_keeps_values(start, start);
            assert forall|inputs: Inputs| #[trigger]
                lit_value(start, inputs, result) == all_bits(
                    lits_value(start, inputs, values@.take(0)),
                ) by {}
        }
        while index < values.len()
            invariant
                index <= values.len(),
                start == old(self).nodes(),
                self.wf(),
                self.has(result),
                lits_ok(start, values@),
                keeps_values(start, self.nodes()),
                self.nodes().len() <= start.len() + index,
                constant_row(values@) ==> result.node == 0,
                forall|inputs: Inputs| #[trigger]
                    lit_value(self.nodes(), inputs, result) == all_bits(
                        lits_value(start, inputs, values@.take(index as int)),
                    ),
            decreases values.len() - index,
        {
            let ghost before = self.nodes();
            let ghost previous = result;
            assert(values@[index as int].node < start.len());
            result = match self.and(result, values[index]) {
                Ok(lit) => lit,
                Err(error) => return Err(error),
            };
            proof {
                assert forall|inputs: Inputs| #[trigger]
                    lit_value(self.nodes(), inputs, result) == all_bits(
                        lits_value(start, inputs, values@.take(index + 1)),
                    ) by {
                    let low = lits_value(start, inputs, values@.take(index as int));
                    let high = lits_value(start, inputs, values@.take(index + 1));
                    assert(lit_value(before, inputs, previous) == all_bits(low));
                    assert(high[index as int] == lit_value(start, inputs, values@[index as int]));
                    assert(lit_value(before, inputs, values@[index as int]) == high[index as int]);
                    assert forall|i: int| 0 <= i < low.len() implies low[i] == high[i] by {}
                    if all_bits(low) && high[index as int] {
                        assert forall|i: int| 0 <= i < high.len() implies high[i] by {
                            if i < index {
                                assert(low[i]);
                            }
                        }
                    }
                    if all_bits(high) {
                        assert forall|i: int| 0 <= i < low.len() implies low[i] by {
                            assert(high[i]);
                        }
                    }
                }
            }
            index += 1;
        }
        assert(values@.take(index as int) =~= values@);
        Ok(result)
    }

    /// Whether some literal of a row holds.
    pub fn reduce_or(&mut self, values: &Vec<Lit>) -> (result: Result<Lit, SymbolicError>)
        requires
            old(self).wf(),
            lits_ok(old(self).nodes(), values@),
        ensures
            final(self).wf(),
            keeps_values(old(self).nodes(), final(self).nodes()),
            final(self).nodes().len() <= old(self).nodes().len() + values@.len(),
            result matches Err(error) ==> exhausted(final(self).nodes(), error),
            result matches Ok(lit) ==> {
                &&& final(self).has(lit)
                &&& constant_row(values@) ==> lit.node == 0
                &&& forall|inputs: Inputs| #[trigger]
                    lit_value(final(self).nodes(), inputs, lit) == any_bit(
                        lits_value(old(self).nodes(), inputs, values@),
                    )
            },
    {
        let ghost start = self.nodes();
        let mut result = Lit::constant(false);
        let mut index: usize = 0;
        proof {
            lemma_keeps_values(start, start);
            assert forall|inputs: Inputs| #[trigger]
                lit_value(start, inputs, result) == any_bit(
                    lits_value(start, inputs, values@.take(0)),
                ) by {}
        }
        while index < values.len()
            invariant
                index <= values.len(),
                start == old(self).nodes(),
                self.wf(),
                self.has(result),
                lits_ok(start, values@),
                keeps_values(start, self.nodes()),
                self.nodes().len() <= start.len() + index,
                constant_row(values@) ==> result.node == 0,
                forall|inputs: Inputs| #[trigger]
                    lit_value(self.nodes(), inputs, result) == any_bit(
                        lits_value(start, inputs, values@.take(index as int)),
                    ),
            decreases values.len() - index,
        {
            let ghost before = self.nodes();
            let ghost previous = result;
            assert(values@[index as int].node < start.len());
            result = match self.or(result, values[index]) {
                Ok(lit) => lit,
                Err(error) => return Err(error),
            };
            proof {
                assert forall|inputs: Inputs| #[trigger]
                    lit_value(self.nodes(), inputs, result) == any_bit(
                        lits_value(start, inputs, values@.take(index + 1)),
                    ) by {
                    let low = lits_value(start, inputs, values@.take(index as int));
                    let high = lits_value(start, inputs, values@.take(index + 1));
                    assert(lit_value(before, inputs, previous) == any_bit(low));
                    assert(high[index as int] == lit_value(start, inputs, values@[index as int]));
                    assert(lit_value(before, inputs, values@[index as int]) == high[index as int]);
                    assert forall|i: int| 0 <= i < low.len() implies low[i] == high[i] by {}
                    if any_bit(low) {
                        let i = choose|i: int| 0 <= i < low.len() && low[i];
                        assert(high[i]);
                    }
                    if any_bit(high) && !high[index as int] {
                        let i = choose|i: int| 0 <= i < high.len() && high[i];
                        assert(low[i]);
                    }
                }
            }
            index += 1;
        }
        assert(values@.take(index as int) =~= values@);
        Ok(result)
    }

    /// Whether an odd number of a row's literals holds.
    pub fn reduce_xor(&mut self, values: &Vec<Lit>) -> (result: Result<Lit, SymbolicError>)
        requires
            old(self).wf(),
            lits_ok(old(self).nodes(), values@),
        ensures
            final(self).wf(),
            keeps_values(old(self).nodes(), final(self).nodes()),
            final(self).nodes().len() <= old(self).nodes().len() + 3 * values@.len(),
            result matches Err(error) ==> exhausted(final(self).nodes(), error),
            result matches Ok(lit) ==> {
                &&& final(self).has(lit)
                &&& constant_row(values@) ==> lit.node == 0
                &&& forall|inputs: Inputs| #[trigger]
                    lit_value(final(self).nodes(), inputs, lit) == parity(
                        lits_value(old(self).nodes(), inputs, values@),
                    )
            },
    {
        let ghost start = self.nodes();
        let mut result = Lit::constant(false);
        let mut index: usize = 0;
        proof {
            lemma_keeps_values(start, start);
            assert forall|inputs: Inputs| #[trigger]
                lit_value(start, inputs, result) == parity(
                    lits_value(start, inputs, values@.take(0)),
                ) by {}
        }
        while index < values.len()
            invariant
                index <= values.len(),
                start == old(self).nodes(),
                self.wf(),
                self.has(result),
                lits_ok(start, values@),
                keeps_values(start, self.nodes()),
                self.nodes().len() <= start.len() + 3 * index,
                constant_row(values@) ==> result.node == 0,
                forall|inputs: Inputs| #[trigger]
                    lit_value(self.nodes(), inputs, result) == parity(
                        lits_value(start, inputs, values@.take(index as int)),
                    ),
            decreases values.len() - index,
        {
            let ghost before = self.nodes();
            let ghost previous = result;
            assert(values@[index as int].node < start.len());
            result = match self.xor(result, values[index]) {
                Ok(lit) => lit,
                Err(error) => return Err(error),
            };
            proof {
                assert forall|inputs: Inputs| #[trigger]
                    lit_value(self.nodes(), inputs, result) == parity(
                        lits_value(start, inputs, values@.take(index + 1)),
                    ) by {
                    let low = lits_value(start, inputs, values@.take(index as int));
                    let high = lits_value(start, inputs, values@.take(index + 1));
                    assert(lit_value(before, inputs, previous) == parity(low));
                    assert(lit_value(before, inputs, values@[index as int]) == high.last());
                    assert(high.drop_last() =~= low);
                }
            }
            index += 1;
        }
        assert(values@.take(index as int) =~= values@);
        Ok(result)
    }
}

/// A part of equal shares, and one share more.
pub proof fn lemma_share(done: nat, total: nat, each: nat)
    requires
        done < total,
    ensures
        (done + 1) * each == done * each + each,
        done * each + each <= total * each,
{
    assert((done + 1) * each == done * each + each) by (nonlinear_arith);
    assert((done + 1) * each <= total * each) by (nonlinear_arith)
        requires
            done + 1 <= total,
    ;
}

/// The constant literals belong to every graph.
pub proof fn lemma_constant_value(nodes: Seq<LogicNode>, inputs: Inputs, value: bool)
    requires
        nodes.len() > 0,
        nodes[0] is False,
    ensures
        lit_value(nodes, inputs, Lit::constant_spec(value)) == value,
{
}

/// Brings a row of literals to the width of another type.
pub fn resize(bits: &Vec<Lit>, source: WordType, target: WordType) -> (result: Vec<Lit>)
    ensures
        result@.len() == target.width,
        constant_row(bits@) ==> constant_row(result@),
        forall|i: int|
            0 <= i < result@.len() ==> #[trigger] result@[i] == (if i < bits@.len() {
                bits@[i]
            } else if target.signed && source.signed && bits@.len() > 0 {
                bits@.last()
            } else {
                Lit::constant_spec(false)
            }),
{
    let extension = if target.signed && source.signed && bits.len() > 0 {
        bits[bits.len() - 1]
    } else {
        Lit::constant(false)
    };
    let mut result: Vec<Lit> = Vec::new();
    let mut index: usize = 0;
    while index < target.width as usize
        invariant
            index <= target.width,
            result@.len() == index,
            extension == (if target.signed && source.signed && bits@.len() > 0 {
                bits@.last()
            } else {
                Lit::constant_spec(false)
            }),
            forall|i: int|
                0 <= i < index ==> #[trigger] result@[i] == (if i < bits@.len() {
                    bits@[i]
                } else {
                    extension
                }),
        decreases target.width - index,
    {
        if index < bits.len() {
            result.push(bits[index]);
        } else {
            result.push(extension);
        }
        index += 1;
    }
    result
}

/// A resized row stands for the resized word.
pub proof fn lemma_resize(
    nodes: Seq<LogicNode>,
    bits: Seq<Lit>,
    source: WordType,
    target: WordType,
    result: Seq<Lit>,
)
    requires
        nodes.len() > 0,
        nodes[0] is False,
        lits_ok(nodes, bits),
        result.len() == target.width,
        forall|i: int|
            0 <= i < result.len() ==> #[trigger] result[i] == (if i < bits.len() {
                bits[i]
            } else if target.signed && source.signed && bits.len() > 0 {
                bits.last()
            } else {
                Lit::constant_spec(false)
            }),
    ensures
        lits_ok(nodes, result),
        forall|inputs: Inputs| #[trigger]
            lits_value(nodes, inputs, result) == resize_bits(
                lits_value(nodes, inputs, bits),
                source,
                target,
            ),
{
    assert forall|i: int| 0 <= i < result.len() implies (#[trigger] result[i]).node
        < nodes.len() by {
        if i < bits.len() {
            assert(bits[i].node < nodes.len());
        } else if target.signed && source.signed && bits.len() > 0 {
            assert(bits[bits.len() - 1].node < nodes.len());
        }
    }
    assert forall|inputs: Inputs| #[trigger]
        lits_value(nodes, inputs, result) == resize_bits(
            lits_value(nodes, inputs, bits),
            source,
            target,
        ) by {
        lemma_constant_value(nodes, inputs, false);
        assert(lits_value(nodes, inputs, result) =~= resize_bits(
            lits_value(nodes, inputs, bits),
            source,
            target,
        ));
    }
}

} // verus!
