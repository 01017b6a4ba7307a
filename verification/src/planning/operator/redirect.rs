//! Redirecting what used values to what takes their place.
//!
//! Operands precede the results that use them, so an operation that is to read a
//! later value is made anew behind it, and whatever read the operation reads the new
//! one. Operations with state keep what they read.

use crate::error::SynthError;
use crate::planning::dataflow::substitution::{lemma_typed_inputs, lemma_with_inputs, with_inputs};
use crate::planning::regional::transfer::{carried, lemma_partner, partners, stateless};
use crate::word::builders::lemma_with_connects;
use crate::word::emit::{lemma_stable, lemma_stable_trans, ran_out, stable};
use crate::word::module::{Connect, KindView, ModuleView, ValueKind, WordModule};
use crate::word::resources::{kept, lemma_kept};
use crate::word::types::{op_inputs, operation_inputs, OpView, ValueId};
use vstd::prelude::*;

verus! {

/// What values become.
pub open spec fn renaming(renamed: Seq<ValueId>) -> spec_fn(ValueId) -> ValueId {
    |value: ValueId| renamed[value.raw as int]
}

/// Some operand of an operation becomes another value.
pub open spec fn touched(kind: OpView, renamed: Seq<ValueId>) -> bool {
    exists|i: int|
        0 <= i < op_inputs(kind).len() && renaming(renamed)(#[trigger] op_inputs(kind)[i])
            != op_inputs(kind)[i]
}

/// An operation on what its operands become.
pub open spec fn redirected_kind(kind: OpView, renamed: Seq<ValueId>) -> OpView {
    with_inputs(kind, partners(op_inputs(kind), op_inputs(kind).map_values(renaming(renamed))))
}

/// What a value becomes: what takes its place, where that has its type; its operation
/// made anew, where an operand becomes another value; and itself otherwise.
pub open spec fn redirects(
    start: ModuleView,
    after: ModuleView,
    replacements: Seq<Option<ValueId>>,
    renamed: Seq<ValueId>,
    v: int,
) -> bool {
    let to = renamed[v];
    let ty = start.values[v].ty;
    if replacements[v] is Some && after.has(replacements[v]->0) && after.ty(replacements[v]->0)
        == ty {
        to == replacements[v]->0
    } else {
        match start.values[v].kind {
            KindView::Operation(operation) => {
                let kind = start.operations[operation.raw as int].kind;
                if stateless(kind) && touched(kind, renamed) {
                    &&& after.has(to)
                    &&& after.ty(to) == ty
                    &&& after.op_of(to) == Some(redirected_kind(kind, renamed))
                } else {
                    to.raw == v
                }
            },
            _ => to.raw == v,
        }
    }
}

/// Values become what takes their place, and connections carry what their values
/// became.
pub open spec fn uses_redirected(
    start: ModuleView,
    after: ModuleView,
    replacements: Seq<Option<ValueId>>,
    renamed: Seq<ValueId>,
) -> bool {
    &&& renamed.len() == start.values.len()
    &&& forall|v: int|
        0 <= v < renamed.len() ==> #[trigger] redirects(start, after, replacements, renamed, v)
    &&& after.connects.len() == start.connects.len()
    &&& forall|c: int|
        0 <= c < start.connects.len() ==> #[trigger] after.connects[c] == (Connect {
            value: renamed[start.connects[c].value.raw as int],
            ..start.connects[c]
        })
}

/// What was settled of the first values stays while more are.
proof fn lemma_redirects_on(
    start: ModuleView,
    before: ModuleView,
    after: ModuleView,
    replacements: Seq<Option<ValueId>>,
    renamed: Seq<ValueId>,
    more: Seq<ValueId>,
    v: int,
)
    requires
        start.wf(),
        stable(before, after),
        0 <= v < renamed.len() <= start.values.len(),
        renamed.len() <= more.len(),
        forall|i: int| 0 <= i < renamed.len() ==> #[trigger] more[i] == renamed[i],
        redirects(start, before, replacements, renamed, v),
        replacements[v] is Some ==> before.has(replacements[v]->0),
    ensures
        redirects(start, after, replacements, more, v),
{
    assert(start.value_ok(v));
    assert(more[v] == renamed[v]);
    if replacements[v] is Some {
        let other = replacements[v]->0;
        assert(after.values[other.raw as int] == before.values[other.raw as int]);
    }
    if let KindView::Operation(operation) = start.values[v].kind {
        let kind = start.operations[operation.raw as int].kind;
        assert(start.operation_ok(operation.raw as int));
        assert forall|i: int| 0 <= i < op_inputs(kind).len() implies renaming(more)(
            #[trigger] op_inputs(kind)[i],
        ) == renaming(renamed)(op_inputs(kind)[i]) by {}
        assert(op_inputs(kind).map_values(renaming(more)) =~= op_inputs(kind).map_values(
            renaming(renamed),
        ));
        assert(touched(kind, more) == touched(kind, renamed)) by {
            if touched(kind, renamed) {
                let i = choose|i: int|
                    0 <= i < op_inputs(kind).len() && renaming(renamed)(
                        #[trigger] op_inputs(kind)[i],
                    ) != op_inputs(kind)[i];
                assert(renaming(more)(op_inputs(kind)[i]) != op_inputs(kind)[i]);
            }
            if touched(kind, more) {
                let i = choose|i: int|
                    0 <= i < op_inputs(kind).len() && renaming(more)(
                        #[trigger] op_inputs(kind)[i],
                    ) != op_inputs(kind)[i];
                assert(renaming(renamed)(op_inputs(kind)[i]) != op_inputs(kind)[i]);
            }
        }
        let to = renamed[v];
        if before.has(to) {
            assert(before.value_ok(to.raw as int));
            assert(after.values[to.raw as int] == before.values[to.raw as int]);
        }
    }
}

/// An operation on what its operands become suits its type.
proof fn lemma_redirected_typed(
    start: ModuleView,
    module: ModuleView,
    renamed: Seq<ValueId>,
    operation: int,
)
    requires
        start.wf(),
        stable(start, module),
        0 <= operation < start.operations.len(),
        start.operations[operation].result.raw == renamed.len(),
        forall|i: int|
            0 <= i < renamed.len() ==> module.has(#[trigger] renamed[i]) && module.ty(renamed[i])
                == start.values[i].ty,
    ensures
        ({
            let kind = redirected_kind(start.operations[operation].kind, renamed);
            &&& module.inputs_below(kind, module.values.len() as int)
            &&& module.op_typed(
                kind,
                start.values[start.operations[operation].result.raw as int].ty,
            )
        }),
{
    let kind = start.operations[operation].kind;
    let inputs = op_inputs(kind);
    let to = inputs.map_values(renaming(renamed));
    let f = partners(inputs, to);
    assert(start.operation_ok(operation));
    let ty = start.values[start.operations[operation].result.raw as int].ty;
    assert forall|i: int| 0 <= i < inputs.len() implies module.has(f(#[trigger] inputs[i]))
        && module.ty(f(inputs[i])) == module.ty(inputs[i]) by {
        lemma_partner(inputs, to, inputs[i], 0);
        let k = choose|k: int|
            0 <= k < inputs.len() && #[trigger] inputs[k] == inputs[i] && to[k]
                == crate::planning::regional::transfer::partner(inputs, to, inputs[i], 0);
        assert(f(inputs[i]) == to[k]);
        assert(to[k] == renamed[inputs[k].raw as int]);
        assert(module.has(renamed[inputs[k].raw as int]));
        assert(module.values[inputs[i].raw as int] == start.values[inputs[i].raw as int]);
    }
    lemma_typed_inputs(module, kind, f, ty);
    crate::word::module::lemma_op_typed_stable(start, module, kind, ty);
    lemma_with_inputs(kind, f);
    let other = with_inputs(kind, f);
    assert forall|i: int| 0 <= i < op_inputs(other).len() implies (#[trigger] op_inputs(other)[i]).raw
        < module.values.len() by {
        assert(op_inputs(other)[i] == f(inputs[i]));
    }
}

/// Redirects what used values to what takes their place.
#[verifier::rlimit(60)]
pub fn redirect_uses(
    module: &mut WordModule,
    replacements: &Vec<Option<ValueId>>,
    Ghost(start): Ghost<ModuleView>,
) -> (result: Result<Vec<ValueId>, SynthError>)
    requires
        start.wf(),
        stable(start, old(module)@),
        replacements@.len() == start.values.len(),
        forall|v: int|
            0 <= v < replacements@.len() && (#[trigger] replacements@[v]) is Some ==> old(
                module,
            )@.has(replacements@[v]->0),
    ensures
        kept(old(module)@, final(module)@),
        result matches Ok(renamed) ==> uses_redirected(
            start,
            final(module)@,
            replacements@,
            renamed@,
        ),
        result matches Err(error) ==> ran_out(final(module)@, error) && final(module)@.connects
            == old(module)@.connects,
{
    let ghost first = module@;
    let count: usize = replacements.len();
    let mut renamed: Vec<ValueId> = Vec::new();
    let mut v: usize = 0;
    proof {
        lemma_stable(first, first);
        lemma_kept(first, first);
    }
    while v < count
        invariant
            start.wf(),
            first == old(module)@,
            stable(start, first),
            stable(first, module@),
            count == replacements@.len() == start.values.len(),
            forall|v: int|
                0 <= v < replacements@.len() && (#[trigger] replacements@[v]) is Some ==> first.has(
                    replacements@[v]->0,
                ),
            v <= count,
            renamed@.len() == v,
            forall|i: int|
                0 <= i < v ==> module@.has(#[trigger] renamed@[i]) && module@.ty(renamed@[i])
                    == start.values[i].ty,
            forall|i: int|
                0 <= i < v ==> #[trigger] redirects(
                    start,
                    module@,
                    replacements@,
                    renamed@,
                    i,
                ),
        decreases count - v,
    {
        let ghost before = module@;
        let ghost rows = renamed@;
        let here = ValueId { raw: v as u32 };
        proof {
            lemma_stable_trans(start, first, before);
            assert(start.value_ok(v as int));
            assert(before.values[v as int] == start.values[v as int]);
            lemma_stable(before, before);
        }
        let ty = module.values[v].ty;
        let mut to: ValueId = here;
        let mut taken: bool = false;
        if let Some(other) = replacements[v] {
            if module.values[other.raw as usize].ty == ty {
                to = other;
                taken = true;
            }
        }
        if !taken {
            if let ValueKind::Operation(operation) = module.values[v].kind {
                let place: usize = operation.raw as usize;
                assert(before.operations[place as int] == start.operations[place as int]);
                assert(start.operation_ok(place as int));
                let inputs = operation_inputs(&module.operations[place].kind);
                let ghost kind = start.operations[place as int].kind;
                let mut others: Vec<ValueId> = Vec::new();
                let mut changed: bool = false;
                let mut i: usize = 0;
                while i < inputs.len()
                    invariant
                        inputs@ == op_inputs(kind),
                        rows == renamed@,
                        forall|k: int|
                            0 <= k < inputs@.len() ==> (#[trigger] inputs@[k]).raw < rows.len(),
                        i <= inputs@.len(),
                        others@ =~= inputs@.map_values(renaming(rows)).take(i as int),
                        changed == exists|k: int|
                            0 <= k < i && renaming(rows)(#[trigger] op_inputs(kind)[k])
                                != op_inputs(kind)[k],
                    decreases inputs.len() - i,
                {
                    let input = inputs[i];
                    assert(inputs@[i as int].raw < rows.len());
                    let other = renamed[input.raw as usize];
                    if other != input {
                        changed = true;
                        assert(renaming(rows)(op_inputs(kind)[i as int]) != op_inputs(
                            kind,
                        )[i as int]);
                    }
                    others.push(other);
                    i += 1;
                }
                assert(others@ =~= inputs@.map_values(renaming(rows)));
                if changed {
                    let span = module.operations[place].source;
                    if let Some(made) = carried(
                        &module.operations[place].kind,
                        &inputs,
                        &others,
                    ) {
                        proof {
                            lemma_redirected_typed(start, before, rows, place as int);
                        }
                        let added = module.add_operation(made, ty, span);
                        proof {
                            lemma_stable(before, module@);
                            lemma_stable_trans(first, before, module@);
                            lemma_kept(first, module@);
                        }
                        to = match added {
                            Ok(value) => value,
                            Err(error) => return Err(error),
                        };
                    }
                }
            }
        }
        renamed.push(to);
        proof {
            let more = renamed@;
            lemma_stable_trans(first, before, module@);
            assert forall|i: int| 0 <= i < more.len() implies #[trigger] redirects(
                start,
                module@,
                replacements@,
                more,
                i,
            ) by {
                if i < v {
                    assert(redirects(start, before, replacements@, rows, i));
                    lemma_redirects_on(start, before, module@, replacements@, rows, more, i);
                } else {
                    assert(start.value_ok(i));
                    if let KindView::Operation(operation) = start.values[i].kind {
                        let kind = start.operations[operation.raw as int].kind;
                        assert forall|k: int| 0 <= k < op_inputs(kind).len() implies renaming(more)(
                            #[trigger] op_inputs(kind)[k],
                        ) == renaming(rows)(op_inputs(kind)[k]) by {
                            assert(start.operation_ok(operation.raw as int));
                            assert(start.operations[operation.raw as int].result.raw == i);
                            assert(op_inputs(kind)[k].raw < i);
                        }
                        assert(op_inputs(kind).map_values(renaming(more)) =~= op_inputs(
                            kind,
                        ).map_values(renaming(rows)));
                        assert(touched(kind, more) == touched(kind, rows)) by {
                            if touched(kind, rows) {
                                let k = choose|k: int|
                                    0 <= k < op_inputs(kind).len() && renaming(rows)(
                                        #[trigger] op_inputs(kind)[k],
                                    ) != op_inputs(kind)[k];
                                assert(renaming(more)(op_inputs(kind)[k]) != op_inputs(kind)[k]);
                            }
                            if touched(kind, more) {
                                let k = choose|k: int|
                                    0 <= k < op_inputs(kind).len() && renaming(more)(
                                        #[trigger] op_inputs(kind)[k],
                                    ) != op_inputs(kind)[k];
                                assert(renaming(rows)(op_inputs(kind)[k]) != op_inputs(kind)[k]);
                            }
                        }
                    }
                }
            }
            assert forall|i: int| 0 <= i < more.len() implies module@.has(#[trigger] more[i])
                && module@.ty(more[i]) == start.values[i].ty by {
                if i < v {
                    assert(before.has(rows[i]));
                    assert(module@.values[rows[i].raw as int] == before.values[rows[i].raw as int]);
                }
            }
        }
        v += 1;
    }
    let ghost made = module@;
    let mut c: usize = 0;
    let ghost connects = start.connects;
    proof {
        assert(made.connects == connects);
    }
    while c < module.connects.len()
        invariant
            made.wf(),
            start.wf(),
            renamed@.len() == start.values.len(),
            forall|i: int| 0 <= i < renamed@.len() ==> made.has(#[trigger] renamed@[i]),
            connects == start.connects,
            c <= connects.len(),
            module@ == made.with_connects(module@.connects),
            module@.connects.len() == connects.len(),
            forall|k: int|
                0 <= k < c ==> #[trigger] module@.connects[k] == (Connect {
                    value: renamed@[connects[k].value.raw as int],
                    ..connects[k]
                }),
            forall|k: int|
                c <= k < connects.len() ==> #[trigger] module@.connects[k] == connects[k],
        decreases connects.len() - c,
    {
        let connect = module.connects[c];
        let ghost was = module@;
        assert(connect == connects[c as int]);
        assert(start.connect_ok(start.connects[c as int]));
        let value = renamed[connect.value.raw as usize];
        module.connects.set(
            c,
            Connect { target: connect.target, value, source: connect.source },
        );
        assert(module@ =~= made.with_connects(module@.connects));
        c += 1;
    }
    proof {
        assert forall|i: int| 0 <= i < module@.connects.len() implies made.connect_ok(
            #[trigger] module@.connects[i],
        ) by {
            assert(start.connect_ok(start.connects[i]));
            assert(made.has(renamed@[connects[i].value.raw as int]));
        }
        lemma_with_connects(made, module@.connects);
        lemma_kept(first, module@);
        assert forall|v: int| 0 <= v < renamed@.len() implies #[trigger] redirects(
            start,
            module@,
            replacements@,
            renamed@,
            v,
        ) by {
            assert(redirects(start, made, replacements@, renamed@, v));
        }
    }
    Ok(renamed)
}

} // verus!
