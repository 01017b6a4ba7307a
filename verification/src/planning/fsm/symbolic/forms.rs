//! Rows of literals that follow from constants and inputs without a gate.

use crate::logic::{constant_row, simple_and, simple_or, simple_select, Lit};
use crate::word::drivers::SignalDriverIndex;
use crate::word::module::{KindView, ModuleView, SignalRef};
use crate::word::numbers::known_word;
use crate::word::semantics::{word_of, Env};
use crate::word::types::{
    op_inputs, BinaryOp, OpView, RegisterView, Reset, SignalId, UnaryOp, ValueId,
};
use vstd::prelude::*;

verus! {

/// A choice between rows that needs no gate.
pub open spec fn simple_choice(
    condition: Lit,
    when_true: Seq<Lit>,
    when_false: Seq<Lit>,
) -> Option<Seq<Lit>> {
    if when_true.len() == when_false.len() && (forall|i: int|
        0 <= i < when_true.len() ==> #[trigger] simple_select(
            condition,
            when_true[i],
            when_false[i],
        ) is Some) {
        Some(
            Seq::new(
                when_true.len(),
                |i: int| simple_select(condition, when_true[i], when_false[i])->0,
            ),
        )
    } else {
        None
    }
}

/// A conjunction or disjunction of rows that needs no gate.
pub open spec fn simple_join(op: BinaryOp, left: Seq<Lit>, right: Seq<Lit>) -> Option<Seq<Lit>> {
    let join = |i: int|
        if op is BitAnd {
            simple_and(left[i], right[i])
        } else {
            simple_or(left[i], right[i])
        };
    if left.len() == right.len() && (forall|i: int|
        0 <= i < left.len() ==> (#[trigger] join(i)) is Some) {
        Some(Seq::new(left.len(), |i: int| join(i)->0))
    } else {
        None
    }
}

/// Rows that agree with what needs no gate are the joined row.
pub proof fn lemma_simple_join(
    op: BinaryOp,
    left: Seq<Lit>,
    right: Seq<Lit>,
    form: Seq<Lit>,
    lits: Seq<Lit>,
)
    requires
        op is BitAnd || op is BitOr,
        simple_join(op, left, right) == Some(form),
        lits.len() == left.len(),
        op is BitAnd ==> forall|i: int|
            0 <= i < lits.len() ==> (#[trigger] simple_and(left[i], right[i]) matches Some(simple)
                ==> lits[i] == simple),
        op is BitOr ==> forall|i: int|
            0 <= i < lits.len() ==> (#[trigger] simple_or(left[i], right[i]) matches Some(simple)
                ==> lits[i] == simple),
    ensures
        form == lits,
{
    let join = |i: int|
        if op is BitAnd {
            simple_and(left[i], right[i])
        } else {
            simple_or(left[i], right[i])
        };
    assert forall|i: int| 0 <= i < lits.len() implies form[i] == lits[i] by {
        assert(join(i) is Some);
    }
    assert(form =~= lits);
}

/// The row of a word of known bits.
pub open spec fn word_row(word: Seq<bool>) -> Seq<Lit> {
    Seq::new(word.len(), |i: int| Lit::constant_spec(word[i]))
}

/// What rows are worked out from: a module and its drivers, a signal that holds a
/// state, and the literals of the bits that nothing drives.
pub struct Setting {
    pub module: ModuleView,
    pub drivers: SignalDriverIndex,
    pub signal: SignalId,
    pub env: Env,
    pub input: spec_fn(SignalId, int) -> Lit,
}

/// The bits of a row of literals, turned over.
pub open spec fn inverse_row(row: Seq<Lit>) -> Seq<Lit> {
    Seq::new(row.len(), |i: int| row[i].inverse())
}

impl Setting {
    /// The row of a value, where it follows without a gate from constants, from the
    /// state and from the literals of inputs.
    pub open spec fn form(self, value: ValueId, depth: nat) -> Option<Seq<Lit>>
        decreases depth, 1nat,
    {
        if depth == 0 || !self.module.has(value) {
            None
        } else {
            let below = (depth - 1) as nat;
            match self.module.kind(value) {
                KindView::Constant(bits) => Some(word_row(known_word(bits))),
                KindView::Signal(reference) => if reference.signal == self.signal {
                    Some(word_row(word_of(self.module, self.env, value)))
                } else if self.drivers.resolves(reference) {
                    self.driven_form(reference, below)
                } else {
                    Some(
                        Seq::new(
                            reference.width as nat,
                            |i: int| (self.input)(reference.signal, reference.lsb + i),
                        ),
                    )
                },
                KindView::Operation(operation) => self.operation_form(
                    value,
                    self.module.operations[operation.raw as int].kind,
                    below,
                ),
            }
        }
    }

    /// The row of a reference that is read through its drivers.
    pub open spec fn driven_form(self, reference: SignalRef, depth: nat) -> Option<Seq<Lit>>
        decreases depth, 2nat,
    {
        if forall|i: int|
            0 <= i < reference.width ==> self.form(
                (#[trigger] self.drivers.driver_at(reference, i))->0.value,
                depth,
            ) is Some {
            Some(
                Seq::new(
                    reference.width as nat,
                    |i: int|
                        self.form(self.drivers.driver_at(reference, i)->0.value, depth)->0[
                        self.drivers.driver_at(reference, i)->0.bit as int],
                ),
            )
        } else {
            None
        }
    }

    /// The row of an operation.
    pub open spec fn operation_form(
        self,
        value: ValueId,
        kind: OpView,
        depth: nat,
    ) -> Option<Seq<Lit>>
        decreases depth, 2nat,
    {
        match kind {
            OpView::Register(_) | OpView::Latch(_) | OpView::TriState { .. } => None,
            OpView::Mux { cond, then_value, else_value } => {
                let condition = self.form(cond, depth);
                let when_true = self.form(then_value, depth);
                let when_false = self.form(else_value, depth);
                if condition is None {
                    None
                } else if condition->0[0].node == 0 {
                    if condition->0[0].inverted {
                        when_true
                    } else {
                        when_false
                    }
                } else if when_true is Some && when_false is Some {
                    simple_choice(condition->0[0], when_true->0, when_false->0)
                } else {
                    None
                }
            },
            OpView::Unary { op: UnaryOp::BitNot, arg } => match self.form(arg, depth) {
                Some(row) => Some(inverse_row(row)),
                None => None,
            },
            _ => if forall|i: int|
                0 <= i < op_inputs(kind).len() ==> (self.form(
                    #[trigger] op_inputs(kind)[i],
                    depth,
                ) matches Some(row) && constant_row(row)) {
                Some(word_row(word_of(self.module, self.env, value)))
            } else {
                match kind {
                    OpView::Binary { op, left, right } => if (op is BitAnd || op is BitOr)
                        && self.module.ty(left).width == self.module.ty(value).width
                        && self.module.ty(right).width == self.module.ty(value).width && self.form(
                        left,
                        depth,
                    ) is Some && self.form(right, depth) is Some {
                        simple_join(op, self.form(left, depth)->0, self.form(right, depth)->0)
                    } else {
                        None
                    },
                    _ => None,
                }
            },
        }
    }

    /// The rows of several values, one after the other.
    pub open spec fn forms(self, values: Seq<ValueId>, depth: nat) -> Option<Seq<Lit>>
        decreases values.len(),
    {
        if values.len() == 0 {
            Some(seq![])
        } else {
            match (self.forms(values.drop_last(), depth), self.form(values.last(), depth)) {
                (Some(rows), Some(row)) => Some(rows + row),
                _ => None,
            }
        }
    }

    /// The literal of a control.
    pub open spec fn control_form(self, value: ValueId, active_high: bool, depth: nat) -> Option<
        Lit,
    > {
        match self.form(value, depth) {
            Some(row) => Some(
                if active_high {
                    row[0]
                } else {
                    row[0].inverse()
                },
            ),
            None => None,
        }
    }

    /// What a register loads.
    pub open spec fn loaded_form(self, register: RegisterView, depth: nat) -> Option<Seq<Lit>> {
        match (self.form(register.d, depth), register.enable) {
            (Some(data), None) => Some(data),
            (Some(data), Some(enable)) => match self.control_form(
                enable.value,
                enable.active_high,
                depth,
            ) {
                Some(active) => simple_choice(
                    active,
                    data,
                    word_row(
                        super::encoder::signal_word(self.module, self.env, self.signal),
                    ),
                ),
                None => None,
            },
            _ => None,
        }
    }

    /// What a register takes over after its resets.
    pub open spec fn reset_form(
        self,
        resets: Seq<Reset>,
        loaded: Option<Seq<Lit>>,
        depth: nat,
    ) -> Option<Seq<Lit>>
        decreases resets.len(),
    {
        if resets.len() == 0 {
            loaded
        } else {
            match (
                self.control_form(resets[0].value, resets[0].active_high, depth),
                self.form(resets[0].reset_value, depth),
                self.reset_form(resets.skip(1), loaded, depth),
            ) {
                (Some(active), Some(row), Some(held)) => simple_choice(active, row, held),
                _ => None,
            }
        }
    }

    /// The row that a register takes over at its next clock edge.
    pub open spec fn next_form(self, register: RegisterView, depth: nat) -> Option<Seq<Lit>> {
        self.reset_form(register.resets, self.loaded_form(register, depth), depth)
    }
}

} // verus!
