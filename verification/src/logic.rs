//! And-inverter graphs.

use crate::collections::IdMap;
use crate::error::{Resource, SynthError};
use vstd::prelude::*;

verus! {

/// A node of a graph, possibly inverted.
#[derive(Clone, Copy, PartialEq, Eq, Structural, Debug)]
pub struct Lit {
    pub node: u32,
    pub inverted: bool,
}

impl Lit {
    pub open spec fn constant_spec(value: bool) -> Lit {
        Lit { node: 0, inverted: value }
    }

    /// The literal of a truth value.
    pub fn constant(value: bool) -> (lit: Lit)
        ensures
            lit == Lit::constant_spec(value),
    {
        Lit { node: 0, inverted: value }
    }

    pub open spec fn inverse(self) -> Lit {
        Lit { node: self.node, inverted: !self.inverted }
    }

    pub fn inverted(self) -> (lit: Lit)
        ensures
            lit == self.inverse(),
    {
        Lit { node: self.node, inverted: !self.inverted }
    }

    /// A number that tells literals apart.
    pub open spec fn code_spec(self) -> int {
        2 * self.node + (if self.inverted {
            1int
        } else {
            0int
        })
    }

    pub fn code(self) -> (code: u64)
        ensures
            code == self.code_spec(),
    {
        2 * (self.node as u64) + (if self.inverted {
            1
        } else {
            0
        })
    }
}

#[derive(Clone, Copy, PartialEq, Eq, Structural, Debug)]
pub enum LogicNode {
    False,
    Input(u32),
    And(Lit, Lit),
}

/// An assignment of truth values to inputs.
pub struct Inputs {
    pub value: spec_fn(int) -> bool,
}

/// The truth value of a node under an assignment.
pub open spec fn node_value(nodes: Seq<LogicNode>, inputs: Inputs, node: int) -> bool
    decreases node,
{
    if 0 <= node < nodes.len() {
        match nodes[node] {
            LogicNode::False => false,
            LogicNode::Input(origin) => (inputs.value)(origin as int),
            LogicNode::And(left, right) => if left.node < node && right.node < node {
                (node_value(nodes, inputs, left.node as int) != left.inverted) && (node_value(
                    nodes,
                    inputs,
                    right.node as int,
                ) != right.inverted)
            } else {
                false
            },
        }
    } else {
        false
    }
}

/// The truth value of a literal under an assignment.
pub open spec fn lit_value(nodes: Seq<LogicNode>, inputs: Inputs, lit: Lit) -> bool {
    node_value(nodes, inputs, lit.node as int) != lit.inverted
}

/// The word that a row of literals stands for.
pub open spec fn lits_value(nodes: Seq<LogicNode>, inputs: Inputs, lits: Seq<Lit>) -> Seq<bool> {
    Seq::new(lits.len(), |i: int| lit_value(nodes, inputs, lits[i]))
}

/// A row of constant literals.
pub open spec fn constant_row(lits: Seq<Lit>) -> bool {
    forall|i: int| 0 <= i < lits.len() ==> (#[trigger] lits[i]).node == 0
}

/// A conjunction that needs no gate.
pub open spec fn simple_and(left: Lit, right: Lit) -> Option<Lit> {
    if left.node == 0 {
        Some(
            if left.inverted {
                right
            } else {
                left
            },
        )
    } else if right.node == 0 {
        Some(
            if right.inverted {
                left
            } else {
                right
            },
        )
    } else if left.node == right.node {
        Some(
            if left.inverted == right.inverted {
                left
            } else {
                Lit::constant_spec(false)
            },
        )
    } else {
        None
    }
}

/// A disjunction that needs no gate.
pub open spec fn simple_or(left: Lit, right: Lit) -> Option<Lit> {
    match simple_and(left.inverse(), right.inverse()) {
        Some(lit) => Some(lit.inverse()),
        None => None,
    }
}

/// A choice that needs no gate.
pub open spec fn simple_select(condition: Lit, when_true: Lit, when_false: Lit) -> Option<Lit> {
    if when_true == when_false {
        Some(when_true)
    } else if condition.node == 0 {
        Some(
            if condition.inverted {
                when_true
            } else {
                when_false
            },
        )
    } else if when_true.node == 0 && when_false.node == 0 {
        Some(
            if when_true.inverted {
                condition
            } else {
                condition.inverse()
            },
        )
    } else {
        None
    }
}

/// The literal that a conjunction of two literals is built as: the constant or the
/// literal that is left of it, or the node that holds both.
pub open spec fn conjoins(nodes: Seq<LogicNode>, left: Lit, right: Lit, lit: Lit) -> bool {
    if left.node == 0 {
        lit == (if left.inverted {
            right
        } else {
            left
        })
    } else if right.node == 0 {
        lit == (if right.inverted {
            left
        } else {
            right
        })
    } else if left.node == right.node {
        lit == (if left.inverted == right.inverted {
            left
        } else {
            Lit::constant_spec(false)
        })
    } else {
        let first = if left.code_spec() <= right.code_spec() {
            left
        } else {
            right
        };
        let second = if left.code_spec() <= right.code_spec() {
            right
        } else {
            left
        };
        !lit.inverted && lit.node < nodes.len() && nodes[lit.node as int] == LogicNode::And(
            first,
            second,
        )
    }
}

pub open spec fn lits_ok(nodes: Seq<LogicNode>, lits: Seq<Lit>) -> bool {
    forall|i: int| 0 <= i < lits.len() ==> (#[trigger] lits[i]).node < nodes.len()
}

pub open spec fn nodes_wf(nodes: Seq<LogicNode>) -> bool {
    &&& nodes.len() > 0
    &&& nodes[0] is False
    &&& nodes.len() <= NODE_LIMIT
    &&& forall|i: int|
        0 <= i < nodes.len() ==> ((#[trigger] nodes[i]) matches LogicNode::And(left, right)
            ==> left.node < i && right.node < i)
}

/// Nodes were appended.
pub open spec fn nodes_grow(before: Seq<LogicNode>, after: Seq<LogicNode>) -> bool {
    before.len() <= after.len() && forall|i: int|
        0 <= i < before.len() ==> #[trigger] after[i] == before[i]
}

pub proof fn lemma_node_value_grows(
    before: Seq<LogicNode>,
    after: Seq<LogicNode>,
    inputs: Inputs,
    node: int,
)
    requires
        nodes_grow(before, after),
        0 <= node < before.len(),
    ensures
        node_value(after, inputs, node) == node_value(before, inputs, node),
    decreases node,
{
    assert(after[node] == before[node]);
    if let LogicNode::And(left, right) = before[node] {
        if left.node < node && right.node < node {
            lemma_node_value_grows(before, after, inputs, left.node as int);
            lemma_node_value_grows(before, after, inputs, right.node as int);
        }
    }
}

/// The value of every literal survives a growth of the graph.
pub open spec fn keeps_values(before: Seq<LogicNode>, after: Seq<LogicNode>) -> bool {
    &&& nodes_grow(before, after)
    &&& forall|inputs: Inputs, lit: Lit|
        lit.node < before.len() ==> #[trigger] lit_value(after, inputs, lit) == lit_value(
            before,
            inputs,
            lit,
        )
}

pub proof fn lemma_keeps_values(before: Seq<LogicNode>, after: Seq<LogicNode>)
    requires
        nodes_grow(before, after),
    ensures
        keeps_values(before, after),
{
    assert forall|inputs: Inputs, lit: Lit| lit.node < before.len() implies #[trigger] lit_value(
        after,
        inputs,
        lit,
    ) == lit_value(before, inputs, lit) by {
        lemma_node_value_grows(before, after, inputs, lit.node as int);
    }
}

/// A row of literals keeps its word when the graph grows.
pub proof fn lemma_lits_keep(
    before: Seq<LogicNode>,
    after: Seq<LogicNode>,
    lits: Seq<Lit>,
    inputs: Inputs,
)
    requires
        keeps_values(before, after),
        lits_ok(before, lits),
    ensures
        lits_value(after, inputs, lits) == lits_value(before, inputs, lits),
        lits_ok(after, lits),
{
    assert forall|i: int| 0 <= i < lits.len() implies lit_value(after, inputs, lits[i])
        == lit_value(before, inputs, lits[i]) by {
        assert(lits[i].node < before.len());
    }
    assert(lits_value(after, inputs, lits) =~= lits_value(before, inputs, lits));
}

/// A graph under construction. Equal conjunctions are built once.
pub struct LogicBuilder {
    pub nodes: Vec<LogicNode>,
    pub unique: IdMap,
}

/// The table key of a conjunction.
pub open spec fn and_key_spec(left: Lit, right: Lit) -> int {
    left.code_spec() * 0x1_0000_0000 + right.code_spec()
}

fn and_key(left: Lit, right: Lit) -> (key: u64)
    requires
        left.node < NODE_LIMIT,
        right.node < NODE_LIMIT,
    ensures
        key == and_key_spec(left, right),
{
    left.code() * 0x1_0000_0000 + right.code()
}

proof fn lemma_and_key(a: Lit, b: Lit, c: Lit, d: Lit)
    requires
        a.node < NODE_LIMIT,
        b.node < NODE_LIMIT,
        c.node < NODE_LIMIT,
        d.node < NODE_LIMIT,
        and_key_spec(a, b) == and_key_spec(c, d),
    ensures
        a == c && b == d,
{
}

impl LogicBuilder {
    pub open spec fn wf(&self) -> bool {
        &&& nodes_wf(self.nodes@)
        &&& forall|key: u64| #[trigger]
            self.unique@.dom().contains(key) ==> {
                &&& self.unique@[key] < self.nodes@.len()
                &&& self.nodes@[self.unique@[key] as int] is And
                &&& ({
                    let node = self.nodes@[self.unique@[key] as int];
                    key == and_key_spec(node->And_0, node->And_1)
                })
            }
    }

    pub fn new() -> (builder: Self)
        ensures
            builder.wf(),
            builder.nodes@ == seq![LogicNode::False],
    {
        let mut nodes: Vec<LogicNode> = Vec::new();
        nodes.push(LogicNode::False);
        LogicBuilder { nodes, unique: IdMap::new() }
    }

    pub fn node_count(&self) -> (count: usize)
        ensures
            count == self.nodes@.len(),
    {
        self.nodes.len()
    }

    /// Adds an input.
    pub fn input(&mut self, origin: u32) -> (result: Result<Lit, SynthError>)
        requires
            old(self).wf(),
        ensures
            final(self).wf(),
            keeps_values(old(self).nodes@, final(self).nodes@),
            result is Err <==> old(self).nodes@.len() >= NODE_LIMIT,
            result matches Err(error) ==> error == SynthError::Capacity(Resource::LogicNodes)
                && final(self).nodes@ == old(self).nodes@,
            result matches Ok(lit) ==> {
                &&& lit == (Lit { node: old(self).nodes@.len() as u32, inverted: false })
                &&& final(self).nodes@ == old(self).nodes@.push(LogicNode::Input(origin))
                &&& forall|inputs: Inputs| #[trigger]
                    lit_value(final(self).nodes@, inputs, lit) == (inputs.value)(origin as int)
            },
    {
        if self.nodes.len() >= NODE_LIMIT {
            proof {
                lemma_keeps_values(old(self).nodes@, self.nodes@);
            }
            return Err(SynthError::Capacity(Resource::LogicNodes));
        }
        let lit = Lit { node: self.nodes.len() as u32, inverted: false };
        self.nodes.push(LogicNode::Input(origin));
        proof {
            lemma_keeps_values(old(self).nodes@, self.nodes@);
            assert forall|inputs: Inputs| #[trigger]
                lit_value(self.nodes@, inputs, lit) == (inputs.value)(origin as int) by {
                assert(self.nodes@[lit.node as int] == LogicNode::Input(origin));
            }
        }
        Ok(lit)
    }

    /// The conjunction of two literals.
    pub fn and(&mut self, left: Lit, right: Lit) -> (result: Result<Lit, SynthError>)
        requires
            old(self).wf(),
            left.node < old(self).nodes@.len(),
            right.node < old(self).nodes@.len(),
        ensures
            final(self).wf(),
            keeps_values(old(self).nodes@, final(self).nodes@),
            final(self).nodes@.len() <= old(self).nodes@.len() + 1,
            result matches Err(error) ==> error == SynthError::Capacity(Resource::LogicNodes)
                && old(self).nodes@.len() >= NODE_LIMIT,
            result matches Ok(lit) ==> {
                &&& lit.node < final(self).nodes@.len()
                &&& conjoins(final(self).nodes@, left, right, lit)
                &&& forall|inputs: Inputs| #[trigger]
                    lit_value(final(self).nodes@, inputs, lit) == (lit_value(
                        old(self).nodes@,
                        inputs,
                        left,
                    ) && lit_value(old(self).nodes@, inputs, right))
            },
    {
        proof {
            lemma_keeps_values(self.nodes@, self.nodes@);
        }
        if left.node == 0 {
            return if left.inverted {
                Ok(right)
            } else {
                Ok(left)
            };
        }
        if right.node == 0 {
            return if right.inverted {
                Ok(left)
            } else {
                Ok(right)
            };
        }
        if left.node == right.node {
            return if left.inverted == right.inverted {
                Ok(left)
            } else {
                Ok(Lit::constant(false))
            };
        }
        let (first, second) = if left.code() <= right.code() {
            (left, right)
        } else {
            (right, left)
        };
        let key: u64 = and_key(first, second);
        match self.unique.get(key) {
            Some(node) => {
                let lit = Lit { node: node as u32, inverted: false };
                proof {
                    let stored = self.nodes@[node as int];
                    lemma_and_key(stored->And_0, stored->And_1, first, second);
                    assert forall|inputs: Inputs| #[trigger]
                        lit_value(self.nodes@, inputs, lit) == (lit_value(self.nodes@, inputs, left)
                            && lit_value(self.nodes@, inputs, right)) by {
                        assert(self.nodes@[node as int] == LogicNode::And(first, second));
                    }
                }
                Ok(lit)
            },
            None => {
                if self.nodes.len() >= NODE_LIMIT {
                    return Err(SynthError::Capacity(Resource::LogicNodes));
                }
                let ghost before = self.nodes@;
                let lit = Lit { node: self.nodes.len() as u32, inverted: false };
                self.unique.insert(key, lit.node as u64);
                self.nodes.push(LogicNode::And(first, second));
                proof {
                    lemma_keeps_values(before, self.nodes@);
                    assert forall|inputs: Inputs| #[trigger]
                        lit_value(self.nodes@, inputs, lit) == (lit_value(before, inputs, left)
                            && lit_value(before, inputs, right)) by {
                        assert(self.nodes@[lit.node as int] == LogicNode::And(first, second));
                        assert(lit_value(self.nodes@, inputs, first) == lit_value(
                            before,
                            inputs,
                            first,
                        ));
                        assert(lit_value(self.nodes@, inputs, second) == lit_value(
                            before,
                            inputs,
                            second,
                        ));
                    }
                }
                Ok(lit)
            },
        }
    }

    /// The disjunction of two literals.
    pub fn or(&mut self, left: Lit, right: Lit) -> (result: Result<Lit, SynthError>)
        requires
            old(self).wf(),
            left.node < old(self).nodes@.len(),
            right.node < old(self).nodes@.len(),
        ensures
            final(self).wf(),
            keeps_values(old(self).nodes@, final(self).nodes@),
            final(self).nodes@.len() <= old(self).nodes@.len() + 1,
            result matches Err(error) ==> error == SynthError::Capacity(Resource::LogicNodes)
                && old(self).nodes@.len() >= NODE_LIMIT,
            result matches Ok(lit) ==> {
                &&& lit.node < final(self).nodes@.len()
                &&& simple_or(left, right) matches Some(simple) ==> lit == simple
                &&& left.node == 0 && right.node == 0 ==> lit.node == 0
                &&& left.node == 0 && !left.inverted ==> lit == right
                &&& right.node == 0 && !right.inverted ==> lit == left
                &&& forall|inputs: Inputs| #[trigger]
                    lit_value(final(self).nodes@, inputs, lit) == (lit_value(
                        old(self).nodes@,
                        inputs,
                        left,
                    ) || lit_value(old(self).nodes@, inputs, right))
            },
    {
        match self.and(left.inverted(), right.inverted()) {
            Ok(lit) => {
                let result = lit.inverted();
                proof {
                    assert forall|inputs: Inputs| #[trigger]
                        lit_value(self.nodes@, inputs, result) == (lit_value(
                            old(self).nodes@,
                            inputs,
                            left,
                        ) || lit_value(old(self).nodes@, inputs, right)) by {
                        assert(lit_value(self.nodes@, inputs, lit) == (lit_value(
                            old(self).nodes@,
                            inputs,
                            left.inverse(),
                        ) && lit_value(old(self).nodes@, inputs, right.inverse())));
                    }
                }
                Ok(result)
            },
            Err(error) => Err(error),
        }
    }

    /// The literal that is true where exactly one of two literals is.
    pub fn xor(&mut self, left: Lit, right: Lit) -> (result: Result<Lit, SynthError>)
        requires
            old(self).wf(),
            left.node < old(self).nodes@.len(),
            right.node < old(self).nodes@.len(),
        ensures
            final(self).wf(),
            keeps_values(old(self).nodes@, final(self).nodes@),
            final(self).nodes@.len() <= old(self).nodes@.len() + 3,
            result matches Err(error) ==> error == SynthError::Capacity(Resource::LogicNodes)
                && final(self).nodes@.len() >= NODE_LIMIT,
            result matches Ok(lit) ==> {
                &&& lit.node < final(self).nodes@.len()
                &&& left.node == 0 && right.node == 0 ==> lit.node == 0
                &&& forall|inputs: Inputs| #[trigger]
                    lit_value(final(self).nodes@, inputs, lit) == (lit_value(
                        old(self).nodes@,
                        inputs,
                        left,
                    ) != lit_value(old(self).nodes@, inputs, right))
            },
    {
        self.mux(left, right.inverted(), right)
    }

    /// Selects between two literals.
    pub fn mux(&mut self, condition: Lit, when_true: Lit, when_false: Lit) -> (result: Result<
        Lit,
        SynthError,
    >)
        requires
            old(self).wf(),
            condition.node < old(self).nodes@.len(),
            when_true.node < old(self).nodes@.len(),
            when_false.node < old(self).nodes@.len(),
        ensures
            final(self).wf(),
            keeps_values(old(self).nodes@, final(self).nodes@),
            final(self).nodes@.len() <= old(self).nodes@.len() + 3,
            result matches Err(error) ==> error == SynthError::Capacity(Resource::LogicNodes)
                && final(self).nodes@.len() >= NODE_LIMIT,
            result matches Ok(lit) ==> {
                &&& lit.node < final(self).nodes@.len()
                &&& simple_select(condition, when_true, when_false) matches Some(simple) ==> lit == simple
                &&& condition.node == 0 ==> lit == (if condition.inverted {
                    when_true
                } else {
                    when_false
                })
                &&& forall|inputs: Inputs| #[trigger]
                    lit_value(final(self).nodes@, inputs, lit) == (if lit_value(
                        old(self).nodes@,
                        inputs,
                        condition,
                    ) {
                        lit_value(old(self).nodes@, inputs, when_true)
                    } else {
                        lit_value(old(self).nodes@, inputs, when_false)
                    })
            },
    {
        proof {
            lemma_keeps_values(self.nodes@, self.nodes@);
        }
        if when_true == when_false {
            return Ok(when_true);
        }
        let ghost before = self.nodes@;
        let chosen = match self.and(condition, when_true) {
            Ok(lit) => lit,
            Err(error) => return Err(error),
        };
        let ghost middle = self.nodes@;
        let other = match self.and(condition.inverted(), when_false) {
            Ok(lit) => lit,
            Err(error) => return Err(error),
        };
        let ghost late = self.nodes@;
        proof {
            lemma_keeps_values(before, late);
        }
        let result = match self.or(chosen, other) {
            Ok(lit) => lit,
            Err(error) => {
                proof {
                    lemma_keeps_values(before, self.nodes@);
                }
                return Err(error);
            },
        };
        proof {
            lemma_keeps_values(before, self.nodes@);
            assert forall|inputs: Inputs| #[trigger]
                lit_value(self.nodes@, inputs, result) == (if lit_value(before, inputs, condition) {
                    lit_value(before, inputs, when_true)
                } else {
                    lit_value(before, inputs, when_false)
                }) by {
                assert(lit_value(late, inputs, chosen) == lit_value(middle, inputs, chosen));
                assert(lit_value(late, inputs, other) == (lit_value(
                    middle,
                    inputs,
                    condition.inverse(),
                ) && lit_value(middle, inputs, when_false)));
                assert(lit_value(middle, inputs, condition.inverse()) == lit_value(
                    before,
                    inputs,
                    condition.inverse(),
                ));
            }
        }
        Ok(result)
    }
}

/// Room for a node identifier and its inversion.
pub const NODE_LIMIT: usize = 0x7fff_ffff;

} // verus!
