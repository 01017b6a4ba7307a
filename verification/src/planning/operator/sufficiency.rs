//! The low bits that are demanded of a module's words decide all that is observed of it.

use super::demand::{
    full, has_dynamic, is_closed, is_least, left_over, lesser, low, meets, node_count, node_needs,
    node_width, observes, operation_needs, part_needs, reset_needs, root_needs, signal_low, Need,
};
use crate::word::bits::{bits_of, lemma_bits_of_residue, lemma_nat_split, nat_of};
use crate::word::dependence::lemma_concat_last;
use crate::word::module::{Connect, KindView, ModuleView, Port};
use crate::word::semantics::{
    concat_bits, eval, lemma_eval_operation, lemma_eval_width, op_bits, resize_bits, word_of, Env,
};
use crate::word::types::{op_inputs, OpView, Reset, SignalId, ValueId, WordType};
use crate::word::uses::{gathered, instance_values};
use vstd::arithmetic::power2::{lemma_pow2_pos, pow2};
use vstd::prelude::*;

verus! {

/// Two words of one width have the same low bits.
pub open spec fn low_alike(left: Seq<bool>, right: Seq<bool>, count: int) -> bool {
    &&& left.len() == right.len()
    &&& forall|i: int| 0 <= i < count && i < left.len() ==> #[trigger] left[i] == right[i]
}

/// The value that a need is about.
pub open spec fn need_value(need: Need) -> ValueId {
    ValueId { raw: need.node as u32 }
}

/// Operands have the same needed bits.
pub open spec fn needs_alike(
    needs: Seq<Need>,
    f: spec_fn(ValueId) -> Seq<bool>,
    g: spec_fn(ValueId) -> Seq<bool>,
) -> bool {
    forall|i: int|
        0 <= i < needs.len() ==> low_alike(
            f(need_value(#[trigger] needs[i])),
            g(need_value(needs[i])),
            needs[i].prefix as int,
        )
}

/// Operands have the widths of their types.
pub open spec fn words_sized(
    module: ModuleView,
    kind: OpView,
    f: spec_fn(ValueId) -> Seq<bool>,
) -> bool {
    forall|i: int|
        0 <= i < op_inputs(kind).len() ==> f(#[trigger] op_inputs(kind)[i]).len() == module.ty(
            op_inputs(kind)[i],
        ).width
}

proof fn lemma_low_nat(left: Seq<bool>, right: Seq<bool>, count: nat)
    requires
        low_alike(left, right, count as int),
        count <= left.len(),
    ensures
        nat_of(left) as int % pow2(count) as int == nat_of(right) as int % pow2(count) as int,
{
    lemma_nat_split(left, count as int);
    lemma_nat_split(right, count as int);
    assert(left.take(count as int) =~= right.take(count as int));
    lemma_pow2_pos(count);
    let p = pow2(count) as int;
    let l = nat_of(left.take(count as int)) as int;
    vstd::arithmetic::div_mod::lemma_mod_multiples_vanish(
        nat_of(left.skip(count as int)) as int,
        l,
        p,
    );
    vstd::arithmetic::div_mod::lemma_mod_multiples_vanish(
        nat_of(right.skip(count as int)) as int,
        l,
        p,
    );
}

proof fn lemma_low_bits(left: int, right: int, count: nat, width: nat)
    requires
        count <= width,
        left % pow2(count) as int == right % pow2(count) as int,
    ensures
        low_alike(bits_of(left, width), bits_of(right, width), count as int),
{
    lemma_bits_of_residue(left, right, count);
    assert forall|i: int| 0 <= i < count && i < width implies #[trigger] bits_of(left, width)[i]
        == bits_of(right, width)[i] by {
        assert(bits_of(left, count)[i] == bits_of(right, count)[i]);
    }
}

proof fn lemma_low_resized(
    left: Seq<bool>,
    right: Seq<bool>,
    source: WordType,
    target: WordType,
    demand: u32,
)
    requires
        left.len() == source.width,
        low_alike(left, right, lesser(demand, source.width) as int),
    ensures
        low_alike(
            resize_bits(left, source, target),
            resize_bits(right, source, target),
            demand as int,
        ),
{
    if demand > source.width {
        assert(left =~= right);
    }
}

proof fn lemma_low_arithmetic(
    l: Seq<bool>,
    r: Seq<bool>,
    l2: Seq<bool>,
    r2: Seq<bool>,
    count: nat,
    width: nat,
)
    requires
        l.len() == width,
        r.len() == width,
        low_alike(l, l2, count as int),
        low_alike(r, r2, count as int),
        count <= width,
    ensures
        low_alike(
            bits_of((nat_of(l) + nat_of(r)) as int, width),
            bits_of((nat_of(l2) + nat_of(r2)) as int, width),
            count as int,
        ),
        low_alike(
            bits_of(nat_of(l) - nat_of(r), width),
            bits_of(nat_of(l2) - nat_of(r2), width),
            count as int,
        ),
        low_alike(
            bits_of((nat_of(l) * nat_of(r)) as int, width),
            bits_of((nat_of(l2) * nat_of(r2)) as int, width),
            count as int,
        ),
{
    lemma_low_nat(l, l2, count);
    lemma_low_nat(r, r2, count);
    lemma_pow2_pos(count);
    let p = pow2(count) as int;
    let a = nat_of(l) as int;
    let b = nat_of(r) as int;
    let c = nat_of(l2) as int;
    let d = nat_of(r2) as int;
    vstd::arithmetic::div_mod::lemma_add_mod_noop(a, b, p);
    vstd::arithmetic::div_mod::lemma_add_mod_noop(c, d, p);
    vstd::arithmetic::div_mod::lemma_sub_mod_noop(a, b, p);
    vstd::arithmetic::div_mod::lemma_sub_mod_noop(c, d, p);
    vstd::arithmetic::div_mod::lemma_mul_mod_noop_general(a, b, p);
    vstd::arithmetic::div_mod::lemma_mul_mod_noop_general(c, d, p);
    lemma_low_bits(a + b, c + d, count, width);
    lemma_low_bits(a - b, c - d, count, width);
    lemma_low_bits(a * b, c * d, count, width);
}

proof fn lemma_low_parts(
    module: ModuleView,
    parts: Seq<ValueId>,
    f: spec_fn(ValueId) -> Seq<bool>,
    g: spec_fn(ValueId) -> Seq<bool>,
    demand: u32,
)
    requires
        forall|i: int|
            0 <= i < parts.len() ==> f(#[trigger] parts[i]).len() == module.ty(parts[i]).width
                && g(parts[i]).len() == module.ty(parts[i]).width,
        needs_alike(part_needs(module, parts, demand), f, g),
    ensures
        low_alike(
            concat_bits(Seq::new(parts.len(), |i: int| f(parts[i]))),
            concat_bits(Seq::new(parts.len(), |i: int| g(parts[i]))),
            demand as int,
        ),
    decreases parts.len(),
{
    let fs = Seq::new(parts.len(), |i: int| f(parts[i]));
    let gs = Seq::new(parts.len(), |i: int| g(parts[i]));
    if parts.len() > 0 {
        let short = parts.drop_last();
        let last = parts.last();
        let width = module.ty(last).width;
        let rest = left_over(demand, width);
        let needs = part_needs(module, parts, demand);
        let below = part_needs(module, short, rest);
        assert(needs =~= seq![low(module, last, demand)] + below);
        assert(needs[0] == low(module, last, demand));
        assert(need_value(needs[0]) == last);
        assert(low_alike(f(last), g(last), lesser(demand, width) as int));
        assert(needs_alike(below, f, g)) by {
            assert forall|i: int| 0 <= i < below.len() implies low_alike(
                f(need_value(#[trigger] below[i])),
                g(need_value(below[i])),
                below[i].prefix as int,
            ) by {
                assert(needs[i + 1] == below[i]);
            }
        }
        assert forall|i: int| 0 <= i < short.len() implies f(#[trigger] short[i]).len()
            == module.ty(short[i]).width && g(short[i]).len() == module.ty(short[i]).width by {
            assert(short[i] == parts[i]);
        }
        lemma_low_parts(module, short, f, g, rest);
        assert(parts[parts.len() - 1] == last);
        lemma_concat_last(fs);
        lemma_concat_last(gs);
        assert(fs.drop_last() =~= Seq::new(short.len(), |i: int| f(short[i])));
        assert(gs.drop_last() =~= Seq::new(short.len(), |i: int| g(short[i])));
        let high_f = concat_bits(fs.drop_last());
        let high_g = concat_bits(gs.drop_last());
        let all_f = concat_bits(fs);
        let all_g = concat_bits(gs);
        assert(all_f == f(last) + high_f);
        assert(all_g == g(last) + high_g);
        assert forall|i: int| 0 <= i < demand && i < all_f.len() implies #[trigger] all_f[i]
            == all_g[i] by {
            if i < width {
                assert(f(last)[i] == g(last)[i]);
            } else {
                assert(high_f[i - width] == high_g[i - width]);
            }
        }
    }
}

/// The bits that a list of needs asks for, all together.
pub open spec fn bits_asked(needs: Seq<Need>) -> int
    decreases needs.len(),
{
    if needs.len() == 0 {
        0
    } else {
        needs[0].prefix + bits_asked(needs.skip(1))
    }
}

/// The bits of values, all together.
pub open spec fn bits_held(module: ModuleView, values: Seq<ValueId>) -> int
    decreases values.len(),
{
    if values.len() == 0 {
        0
    } else {
        bits_held(module, values.drop_last()) + module.ty(values.last()).width
    }
}

proof fn lemma_parts_asked(module: ModuleView, parts: Seq<ValueId>, demand: u32)
    ensures
        bits_asked(part_needs(module, parts, demand)) == (if demand <= bits_held(module, parts) {
            demand as int
        } else {
            bits_held(module, parts)
        }),
        bits_held(module, parts) >= 0,
    decreases parts.len(),
{
    if parts.len() > 0 {
        let width = module.ty(parts.last()).width;
        let rest = left_over(demand, width);
        let below = part_needs(module, parts.drop_last(), rest);
        lemma_parts_asked(module, parts.drop_last(), rest);
        assert(part_needs(module, parts, demand).skip(1) =~= below);
    }
}

/// No more is needed than the result can show: where a bit of a result does not depend on
/// higher bits of an operand, none of those is asked for, and a concatenation asks for as
/// many bits of its parts as are demanded of it.
pub proof fn needs_stay_within_demand(module: ModuleView, kind: OpView, demand: u32)
    ensures
        match kind {
            OpView::Unary { op, arg } => op is BitNot ==> operation_needs(
                module,
                kind,
                demand,
            )[0].prefix <= demand,
            OpView::Binary { op, left, right } => (op is Add || op is Sub || op is Mul
                || op is BitAnd || op is BitOr || op is BitXor) ==> operation_needs(
                module,
                kind,
                demand,
            )[0].prefix <= demand && operation_needs(module, kind, demand)[1].prefix <= demand,
            OpView::Mux { cond, then_value, else_value } => operation_needs(
                module,
                kind,
                demand,
            )[1].prefix <= demand && operation_needs(module, kind, demand)[2].prefix <= demand,
            OpView::Concat { parts } => bits_asked(operation_needs(module, kind, demand)) <= demand,
            OpView::Extract { value, lsb, width } => lsb + demand <= u32::MAX ==> operation_needs(
                module,
                kind,
                demand,
            )[0].prefix <= lsb + demand,
            OpView::TriState { data, enable } => operation_needs(module, kind, demand)[0].prefix
                <= demand,
            OpView::Cast { kind: cast, value, target } => operation_needs(
                module,
                kind,
                demand,
            )[0].prefix <= demand,
            OpView::Register(register) => operation_needs(module, kind, demand)[0].prefix <= demand,
            OpView::Latch(latch) => operation_needs(module, kind, demand)[0].prefix <= demand,
            OpView::DynamicExtract { value, offset, width } => true,
            OpView::DynamicInsert { value, offset, replacement } => true,
        },
        forall|i: int|
            0 <= i < operation_needs(module, kind, demand).len() ==> (#[trigger] operation_needs(
                module,
                kind,
                demand,
            )[i]).prefix <= module.ty(need_value(operation_needs(module, kind, demand)[i])).width,
{
    let needs = operation_needs(module, kind, demand);
    match kind {
        OpView::Concat { parts } => {
            lemma_parts_asked(module, parts, demand);
            lemma_parts_within(module, parts, demand);
        },
        OpView::Register(register) => {
            lemma_resets_within(module, register.resets, demand);
            let resets = reset_needs(module, register.resets, demand);
            let shift = needs.len() - resets.len();
            assert forall|i: int| 0 <= i < needs.len() implies (#[trigger] needs[i]).prefix
                <= module.ty(need_value(needs[i])).width by {
                if i >= shift {
                    assert(needs[i] == resets[i - shift]);
                }
            }
        },
        OpView::Latch(latch) => {
            lemma_resets_within(module, latch.resets, demand);
            let resets = reset_needs(module, latch.resets, demand);
            let shift = needs.len() - resets.len();
            assert forall|i: int| 0 <= i < needs.len() implies (#[trigger] needs[i]).prefix
                <= module.ty(need_value(needs[i])).width by {
                if i >= shift {
                    assert(needs[i] == resets[i - shift]);
                }
            }
        },
        _ => {},
    }
}

proof fn lemma_parts_within(module: ModuleView, parts: Seq<ValueId>, demand: u32)
    ensures
        forall|i: int|
            0 <= i < part_needs(module, parts, demand).len() ==> (#[trigger] part_needs(
                module,
                parts,
                demand,
            )[i]).prefix <= module.ty(need_value(part_needs(module, parts, demand)[i])).width,
    decreases parts.len(),
{
    if parts.len() > 0 {
        let rest = left_over(demand, module.ty(parts.last()).width);
        let below = part_needs(module, parts.drop_last(), rest);
        let needs = part_needs(module, parts, demand);
        lemma_parts_within(module, parts.drop_last(), rest);
        assert forall|i: int| 0 <= i < needs.len() implies (#[trigger] needs[i]).prefix
            <= module.ty(need_value(needs[i])).width by {
            if i > 0 {
                assert(needs[i] == below[i - 1]);
            }
        }
    }
}

proof fn lemma_resets_within(module: ModuleView, resets: Seq<Reset>, demand: u32)
    ensures
        forall|i: int|
            0 <= i < reset_needs(module, resets, demand).len() ==> (#[trigger] reset_needs(
                module,
                resets,
                demand,
            )[i]).prefix <= module.ty(need_value(reset_needs(module, resets, demand)[i])).width,
    decreases resets.len(),
{
    if resets.len() > 0 {
        let below = reset_needs(module, resets.drop_last(), demand);
        let needs = reset_needs(module, resets, demand);
        lemma_resets_within(module, resets.drop_last(), demand);
        assert forall|i: int| 0 <= i < needs.len() implies (#[trigger] needs[i]).prefix
            <= module.ty(need_value(needs[i])).width by {
            if i < below.len() {
                assert(needs[i] == below[i]);
            }
        }
    }
}

/// What an operation needs suffices: operands with the same needed bits give results with
/// the same demanded bits.
#[verifier::rlimit(60)]
pub proof fn needed_bits_suffice(
    module: ModuleView,
    env: Env,
    other: Env,
    result: int,
    kind: OpView,
    ty: WordType,
    f: spec_fn(ValueId) -> Seq<bool>,
    g: spec_fn(ValueId) -> Seq<bool>,
    demand: u32,
)
    requires
        module.op_typed(kind, ty),
        !(kind is Register) && !(kind is Latch),
        words_sized(module, kind, f),
        words_sized(module, kind, g),
        demand <= ty.width,
        demand > 0,
        needs_alike(operation_needs(module, kind, demand), f, g),
    ensures
        low_alike(
            op_bits(module, env, result, kind, ty, f),
            op_bits(module, other, result, kind, ty, g),
            demand as int,
        ),
{
    let inputs = op_inputs(kind);
    let needs = operation_needs(module, kind, demand);
    match kind {
        OpView::Unary { op, arg } => {
            assert(inputs[0] == arg);
            assert(need_value(needs[0]) == arg);
            if !(op is BitNot) {
                assert(f(arg) =~= g(arg));
            }
        },
        OpView::Binary { op, left, right } => {
            assert(inputs[0] == left && inputs[1] == right);
            assert(need_value(needs[0]) == left && need_value(needs[1]) == right);
            if op is Add || op is Sub || op is Mul || op is BitAnd || op is BitOr || op is BitXor {
                assert(low_alike(f(left), g(left), lesser(demand, module.ty(left).width) as int));
                assert(low_alike(f(right), g(right), lesser(demand, module.ty(right).width) as int));
                lemma_low_resized(f(left), g(left), module.ty(left), ty, demand);
                lemma_low_resized(f(right), g(right), module.ty(right), ty, demand);
                let l = resize_bits(f(left), module.ty(left), ty);
                let r = resize_bits(f(right), module.ty(right), ty);
                let l2 = resize_bits(g(left), module.ty(left), ty);
                let r2 = resize_bits(g(right), module.ty(right), ty);
                lemma_low_arithmetic(l, r, l2, r2, demand as nat, ty.width as nat);
                assert forall|i: int| 0 <= i < demand && i < ty.width implies l[i] == l2[i] && r[i]
                    == r2[i] by {}
            } else {
                assert(low_alike(f(left), g(left), module.ty(left).width as int));
                assert(low_alike(f(right), g(right), module.ty(right).width as int));
                assert(f(left) =~= g(left));
                assert(f(right) =~= g(right));
            }
        },
        OpView::Mux { cond, then_value, else_value } => {
            assert(inputs[0] == cond && inputs[1] == then_value && inputs[2] == else_value);
            assert(need_value(needs[0]) == cond && need_value(needs[1]) == then_value
                && need_value(needs[2]) == else_value);
            assert(f(cond)[0] == g(cond)[0]);
        },
        OpView::Concat { parts } => {
            assert forall|i: int| 0 <= i < parts.len() implies f(#[trigger] parts[i]).len()
                == module.ty(parts[i]).width && g(parts[i]).len() == module.ty(parts[i]).width by {
                assert(inputs[i] == parts[i]);
            }
            lemma_low_parts(module, parts, f, g, demand);
        },
        OpView::Extract { value, lsb, width } => {
            assert(inputs[0] == value);
            assert(need_value(needs[0]) == value);
            let a = op_bits(module, env, result, kind, ty, f);
            let b = op_bits(module, other, result, kind, ty, g);
            assert forall|i: int| 0 <= i < demand && i < a.len() implies #[trigger] a[i] == b[i] by {
                assert(f(value)[lsb + i] == g(value)[lsb + i]);
            }
        },
        OpView::DynamicExtract { value, offset, width } => {
            assert(inputs[0] == value && inputs[1] == offset);
            assert(need_value(needs[0]) == value && need_value(needs[1]) == offset);
            assert(f(value) =~= g(value));
            assert(f(offset) =~= g(offset));
        },
        OpView::DynamicInsert { value, offset, replacement } => {
            assert(inputs[0] == value && inputs[1] == offset && inputs[2] == replacement);
            assert(need_value(needs[0]) == value && need_value(needs[1]) == offset && need_value(
                needs[2],
            ) == replacement);
            assert(f(value) =~= g(value));
            assert(f(offset) =~= g(offset));
            assert(f(replacement) =~= g(replacement));
        },
        OpView::TriState { data, enable } => {
            assert(inputs[0] == data && inputs[1] == enable.value);
            assert(need_value(needs[0]) == data && need_value(needs[1]) == enable.value);
            assert(f(enable.value)[0] == g(enable.value)[0]);
        },
        OpView::Cast { kind: cast, value, target } => {
            assert(inputs[0] == value);
            assert(need_value(needs[0]) == value);
            if demand > module.ty(value).width {
                assert(f(value) =~= g(value));
            }
        },
        _ => {},
    }
}

/// What resets make of a word: the first active one decides.
pub open spec fn reset_bits(
    resets: Seq<Reset>,
    word: Seq<bool>,
    operand: spec_fn(ValueId) -> Seq<bool>,
) -> Seq<bool>
    decreases resets.len(),
{
    if resets.len() == 0 {
        word
    } else if operand(resets[0].value)[0] == resets[0].active_high {
        operand(resets[0].reset_value)
    } else {
        reset_bits(resets.skip(1), word, operand)
    }
}

/// What an operation with state takes over upon what it holds.
pub open spec fn taken_bits(
    kind: OpView,
    held: Seq<bool>,
    operand: spec_fn(ValueId) -> Seq<bool>,
) -> Seq<bool> {
    match kind {
        OpView::Register(register) => reset_bits(
            register.resets,
            match register.enable {
                Some(enable) => if operand(enable.value)[0] == enable.active_high {
                    operand(register.d)
                } else {
                    held
                },
                None => operand(register.d),
            },
            operand,
        ),
        OpView::Latch(latch) => reset_bits(
            latch.resets,
            if operand(latch.enable.value)[0] == latch.enable.active_high {
                operand(latch.d)
            } else {
                held
            },
            operand,
        ),
        _ => held,
    }
}

proof fn lemma_reset_needs_at(module: ModuleView, resets: Seq<Reset>, demand: u32)
    ensures
        reset_needs(module, resets, demand).len() == 2 * resets.len(),
        forall|i: int|
            0 <= i < resets.len() ==> reset_needs(module, resets, demand)[2 * i] == full(
                module,
                (#[trigger] resets[i]).value,
            ) && reset_needs(module, resets, demand)[2 * i + 1] == low(
                module,
                resets[i].reset_value,
                demand,
            ),
    decreases resets.len(),
{
    if resets.len() > 0 {
        let below = resets.drop_last();
        lemma_reset_needs_at(module, below, demand);
        let needs = reset_needs(module, resets, demand);
        assert forall|i: int| 0 <= i < resets.len() implies needs[2 * i] == full(
            module,
            (#[trigger] resets[i]).value,
        ) && needs[2 * i + 1] == low(module, resets[i].reset_value, demand) by {
            if i < below.len() {
                assert(below[i] == resets[i]);
                assert(needs[2 * i] == reset_needs(module, below, demand)[2 * i]);
                assert(needs[2 * i + 1] == reset_needs(module, below, demand)[2 * i + 1]);
            }
        }
    }
}

proof fn lemma_low_resets(
    module: ModuleView,
    resets: Seq<Reset>,
    word: Seq<bool>,
    other: Seq<bool>,
    f: spec_fn(ValueId) -> Seq<bool>,
    g: spec_fn(ValueId) -> Seq<bool>,
    demand: u32,
    width: u32,
)
    requires
        demand <= width,
        word.len() == width,
        low_alike(word, other, demand as int),
        forall|i: int|
            0 <= i < resets.len() ==> f((#[trigger] resets[i]).value)[0] == g(resets[i].value)[0]
                && f(resets[i].reset_value).len() == width && low_alike(
                f(resets[i].reset_value),
                g(resets[i].reset_value),
                demand as int,
            ),
    ensures
        low_alike(reset_bits(resets, word, f), reset_bits(resets, other, g), demand as int),
    decreases resets.len(),
{
    if resets.len() > 0 {
        assert(f(resets[0].value)[0] == g(resets[0].value)[0]);
        let rest = resets.skip(1);
        assert forall|i: int| 0 <= i < rest.len() implies f((#[trigger] rest[i]).value)[0] == g(
            rest[i].value,
        )[0] && f(rest[i].reset_value).len() == width && low_alike(
            f(rest[i].reset_value),
            g(rest[i].reset_value),
            demand as int,
        ) by {
            assert(rest[i] == resets[i + 1]);
        }
        lemma_low_resets(module, rest, word, other, f, g, demand, width);
    }
}

/// What an operation with state needs suffices: what it takes over has the same demanded
/// bits where its operands have the same needed ones and what it holds the same demanded ones.
#[verifier::rlimit(40)]
pub proof fn needed_bits_suffice_for_state(
    module: ModuleView,
    kind: OpView,
    ty: WordType,
    held: Seq<bool>,
    other: Seq<bool>,
    f: spec_fn(ValueId) -> Seq<bool>,
    g: spec_fn(ValueId) -> Seq<bool>,
    demand: u32,
)
    requires
        module.op_typed(kind, ty),
        kind is Register || kind is Latch,
        words_sized(module, kind, f),
        words_sized(module, kind, g),
        held.len() == ty.width,
        low_alike(held, other, demand as int),
        demand <= ty.width,
        needs_alike(operation_needs(module, kind, demand), f, g),
    ensures
        low_alike(taken_bits(kind, held, f), taken_bits(kind, other, g), demand as int),
        kind matches OpView::Register(register) ==> f(register.clock) == g(register.clock),
{
    let inputs = op_inputs(kind);
    let needs = operation_needs(module, kind, demand);
    let (resets, head, input_head, d) = match kind {
        OpView::Register(register) => (
            register.resets,
            2 + (if register.enable is Some {
                1int
            } else {
                0
            }),
            2 + (if register.enable is Some {
                1int
            } else {
                0
            }),
            register.d,
        ),
        OpView::Latch(latch) => (latch.resets, 2int, 2int, latch.d),
        _ => (seq![], 0int, 0int, inputs[0]),
    };
    crate::word::module::lemma_reset_inputs(resets);
    lemma_reset_needs_at(module, resets, demand);
    let tail = reset_needs(module, resets, demand);
    assert(inputs[0] == d);
    assert(needs[0] == low(module, d, demand));
    assert(need_value(needs[0]) == d);
    assert(low_alike(f(d), g(d), demand as int));
    assert forall|i: int| 0 <= i < resets.len() implies f((#[trigger] resets[i]).value)[0] == g(
        resets[i].value,
    )[0] && f(resets[i].reset_value).len() == ty.width && low_alike(
        f(resets[i].reset_value),
        g(resets[i].reset_value),
        demand as int,
    ) by {
        assert(inputs[input_head + 2 * i] == resets[i].value);
        assert(inputs[input_head + 2 * i + 1] == resets[i].reset_value);
        assert(needs[head + 2 * i] == tail[2 * i]);
        assert(needs[head + 2 * i + 1] == tail[2 * i + 1]);
        assert(need_value(needs[head + 2 * i]) == resets[i].value);
        assert(need_value(needs[head + 2 * i + 1]) == resets[i].reset_value);
        assert(module.ty(resets[i].value).width == 1);
        assert(module.ty(resets[i].reset_value).width == ty.width);
    }
    match kind {
        OpView::Register(register) => {
            assert(inputs[1] == register.clock);
            assert(needs[1] == full(module, register.clock));
            assert(need_value(needs[1]) == register.clock);
            assert(f(register.clock) =~= g(register.clock));
            if register.enable is Some {
                let enable = register.enable->0;
                assert(inputs[2] == enable.value);
                assert(needs[2] == full(module, enable.value));
                assert(need_value(needs[2]) == enable.value);
                assert(f(enable.value)[0] == g(enable.value)[0]);
            }
            let loaded = |operand: spec_fn(ValueId) -> Seq<bool>, kept: Seq<bool>|
                match register.enable {
                    Some(enable) => if operand(enable.value)[0] == enable.active_high {
                        operand(register.d)
                    } else {
                        kept
                    },
                    None => operand(register.d),
                };
            lemma_low_resets(
                module,
                resets,
                loaded(f, held),
                loaded(g, other),
                f,
                g,
                demand,
                ty.width,
            );
        },
        OpView::Latch(latch) => {
            assert(inputs[1] == latch.enable.value);
            assert(needs[1] == full(module, latch.enable.value));
            assert(need_value(needs[1]) == latch.enable.value);
            assert(f(latch.enable.value)[0] == g(latch.enable.value)[0]);
            let loaded = |operand: spec_fn(ValueId) -> Seq<bool>, kept: Seq<bool>|
                if operand(latch.enable.value)[0] == latch.enable.active_high {
                    operand(latch.d)
                } else {
                    kept
                };
            lemma_low_resets(
                module,
                resets,
                loaded(f, held),
                loaded(g, other),
                f,
                g,
                demand,
                ty.width,
            );
        },
        _ => {},
    }
}

/// A connection puts a bit of its value on a bit of its signal.
pub open spec fn puts_bit(connect: Connect, signal: SignalId, bit: int, from: int) -> bool {
    &&& connect.target.signal == signal
    &&& match connect.target.range {
        None => from == bit,
        Some(range) => if range.msb >= range.lsb {
            range.lsb <= bit <= range.msb && from == bit - range.lsb
        } else {
            range.msb <= bit <= range.lsb && from == range.lsb - bit
        },
    }
}

/// A bit of a signal is seen: it leaves the module, or a read of it is demanded so far.
pub open spec fn bit_seen(
    module: ModuleView,
    prefixes: Seq<u32>,
    signal: SignalId,
    bit: int,
) -> bool {
    ||| exists|p: int|
        0 <= p < module.ports.len() && (#[trigger] module.ports[p]).signal == signal && !(
        module.ports[p].direction is Input) && 0 <= bit < module.ports[p].ty.width
    ||| exists|v: int| #[trigger] reads_bit(module, prefixes, v, signal, bit)
}

/// A demanded bit of a read is a bit of a signal.
pub open spec fn reads_bit(
    module: ModuleView,
    prefixes: Seq<u32>,
    v: int,
    signal: SignalId,
    bit: int,
) -> bool {
    &&& 0 <= v < module.values.len()
    &&& module.values[v].kind matches KindView::Signal(reference) && reference.signal == signal
        && reference.lsb <= bit < reference.lsb + prefixes[v] && bit < reference.lsb
        + reference.width
}

/// A value whose word does not follow from others at once: a read, a constant or a
/// state.
pub open spec fn is_given(module: ModuleView, v: int) -> bool {
    match module.values[v].kind {
        KindView::Operation(operation) => {
            let kind = module.operations[operation.raw as int].kind;
            kind is Register || kind is Latch
        },
        _ => true,
    }
}

/// Two environments give the same demanded bits of all that is given.
pub open spec fn given_alike(
    module: ModuleView,
    prefixes: Seq<u32>,
    env: Env,
    other: Env,
) -> bool {
    forall|v: int|
        0 <= v < module.values.len() && is_given(module, v) ==> low_alike(
            #[trigger] eval(module, env, v),
            eval(module, other, v),
            prefixes[v] as int,
        )
}

proof fn lemma_words_sized(module: ModuleView, env: Env, kind: OpView, bound: int)
    requires
        module.wf(),
        module.inputs_below(kind, bound),
        bound <= module.values.len(),
    ensures
        words_sized(module, kind, |operand: ValueId| word_of(module, env, operand)),
{
    let f = |operand: ValueId| word_of(module, env, operand);
    assert forall|i: int| 0 <= i < op_inputs(kind).len() implies f(
        #[trigger] op_inputs(kind)[i],
    ).len() == module.ty(op_inputs(kind)[i]).width by {
        lemma_eval_width(module, env, op_inputs(kind)[i].raw as int);
    }
}

proof fn lemma_needs_alike(
    module: ModuleView,
    demands: Seq<u32>,
    env: Env,
    other: Env,
    needs: Seq<Need>,
    bound: int,
)
    requires
        meets(demands, needs),
        demands.len() == node_count(module),
        bound <= module.values.len(),
        module.values.len() <= u32::MAX,
        forall|i: int| 0 <= i < needs.len() ==> (#[trigger] needs[i]).node < bound,
        forall|v: int|
            0 <= v < bound ==> low_alike(
                #[trigger] eval(module, env, v),
                eval(module, other, v),
                demands[v] as int,
            ),
    ensures
        needs_alike(
            needs,
            |operand: ValueId| word_of(module, env, operand),
            |operand: ValueId| word_of(module, other, operand),
        ),
{
    let f = |operand: ValueId| word_of(module, env, operand);
    let g = |operand: ValueId| word_of(module, other, operand);
    assert forall|i: int| 0 <= i < needs.len() implies low_alike(
        f(need_value(#[trigger] needs[i])),
        g(need_value(needs[i])),
        needs[i].prefix as int,
    ) by {
        let v = needs[i].node as int;
        assert(need_value(needs[i]).raw == v);
        assert(demands[v] >= needs[i].prefix);
        assert(low_alike(eval(module, env, v), eval(module, other, v), demands[v] as int));
    }
}

/// The needs of an operation are about its operands.
proof fn lemma_needs_below(module: ModuleView, kind: OpView, demand: u32, bound: int)
    requires
        module.inputs_below(kind, bound),
    ensures
        forall|i: int|
            0 <= i < operation_needs(module, kind, demand).len() ==> (#[trigger] operation_needs(
                module,
                kind,
                demand,
            )[i]).node < bound,
{
    let inputs = op_inputs(kind);
    let needs = operation_needs(module, kind, demand);
    match kind {
        OpView::Unary { op, arg } => {
            assert(inputs[0] == arg);
        },
        OpView::Binary { op, left, right } => {
            assert(inputs[0] == left && inputs[1] == right);
        },
        OpView::Mux { cond, then_value, else_value } => {
            assert(inputs[0] == cond && inputs[1] == then_value && inputs[2] == else_value);
        },
        OpView::Concat { parts } => {
            assert forall|i: int| 0 <= i < parts.len() implies (#[trigger] parts[i]).raw < bound by {
                assert(inputs[i] == parts[i]);
            }
            lemma_part_needs_below(module, parts, demand, bound);
        },
        OpView::Extract { value, lsb, width } => {
            assert(inputs[0] == value);
        },
        OpView::DynamicExtract { value, offset, width } => {
            assert(inputs[0] == value && inputs[1] == offset);
        },
        OpView::DynamicInsert { value, offset, replacement } => {
            assert(inputs[0] == value && inputs[1] == offset && inputs[2] == replacement);
        },
        OpView::TriState { data, enable } => {
            assert(inputs[0] == data && inputs[1] == enable.value);
        },
        OpView::Cast { kind: cast, value, target } => {
            assert(inputs[0] == value);
        },
        OpView::Register(register) => {
            let head = 2 + (if register.enable is Some {
                1int
            } else {
                0
            });
            assert(inputs[0] == register.d && inputs[1] == register.clock);
            if register.enable is Some {
                assert(inputs[2] == register.enable->0.value);
            }
            lemma_reset_needs_below(module, register.resets, demand, bound, inputs, head);
            let tail = reset_needs(module, register.resets, demand);
            assert forall|i: int| 0 <= i < needs.len() implies (#[trigger] needs[i]).node < bound by {
                if i >= head {
                    assert(needs[i] == tail[i - head]);
                }
            }
        },
        OpView::Latch(latch) => {
            assert(inputs[0] == latch.d && inputs[1] == latch.enable.value);
            lemma_reset_needs_below(module, latch.resets, demand, bound, inputs, 2);
            let tail = reset_needs(module, latch.resets, demand);
            assert forall|i: int| 0 <= i < needs.len() implies (#[trigger] needs[i]).node < bound by {
                if i >= 2 {
                    assert(needs[i] == tail[i - 2]);
                }
            }
        },
    }
}

proof fn lemma_part_needs_below(module: ModuleView, parts: Seq<ValueId>, demand: u32, bound: int)
    requires
        forall|i: int| 0 <= i < parts.len() ==> (#[trigger] parts[i]).raw < bound,
    ensures
        forall|i: int|
            0 <= i < part_needs(module, parts, demand).len() ==> (#[trigger] part_needs(
                module,
                parts,
                demand,
            )[i]).node < bound,
    decreases parts.len(),
{
    if parts.len() > 0 {
        let short = parts.drop_last();
        let rest = left_over(demand, module.ty(parts.last()).width);
        assert(parts[parts.len() - 1].raw < bound);
        assert forall|i: int| 0 <= i < short.len() implies (#[trigger] short[i]).raw < bound by {
            assert(short[i] == parts[i]);
        }
        lemma_part_needs_below(module, short, rest, bound);
        let needs = part_needs(module, parts, demand);
        let below = part_needs(module, short, rest);
        assert forall|i: int| 0 <= i < needs.len() implies (#[trigger] needs[i]).node < bound by {
            if i > 0 {
                assert(needs[i] == below[i - 1]);
            }
        }
    }
}

proof fn lemma_reset_needs_below(
    module: ModuleView,
    resets: Seq<Reset>,
    demand: u32,
    bound: int,
    inputs: Seq<ValueId>,
    head: int,
)
    requires
        0 <= head,
        inputs.len() == head + crate::word::types::reset_inputs(resets).len(),
        forall|i: int|
            0 <= i < crate::word::types::reset_inputs(resets).len() ==> inputs[head + i]
                == #[trigger] crate::word::types::reset_inputs(resets)[i],
        forall|i: int| 0 <= i < inputs.len() ==> (#[trigger] inputs[i]).raw < bound,
    ensures
        forall|i: int|
            0 <= i < reset_needs(module, resets, demand).len() ==> (#[trigger] reset_needs(
                module,
                resets,
                demand,
            )[i]).node < bound,
{
    crate::word::module::lemma_reset_inputs(resets);
    lemma_reset_needs_at(module, resets, demand);
    let tail = reset_needs(module, resets, demand);
    let flat = crate::word::types::reset_inputs(resets);
    assert forall|i: int| 0 <= i < tail.len() implies (#[trigger] tail[i]).node < bound by {
        let k = i / 2;
        assert(flat[2 * k] == resets[k].value && flat[2 * k + 1] == resets[k].reset_value);
        assert(inputs[head + 2 * k].raw < bound);
        assert(inputs[head + (2 * k + 1)].raw < bound);
        if i % 2 == 0 {
            assert(tail[i] == full(module, resets[k].value));
        } else {
            assert(tail[2 * k + 1] == low(module, resets[k].reset_value, demand));
        }
    }
}

proof fn lemma_values_alike(
    module: ModuleView,
    observed: Seq<ValueId>,
    demands: Seq<u32>,
    env: Env,
    other: Env,
    v: int,
)
    requires
        module.wf(),
        is_closed(module, observed, demands),
        given_alike(module, demands.take(module.values.len() as int), env, other),
        0 <= v < module.values.len(),
    ensures
        low_alike(eval(module, env, v), eval(module, other, v), demands[v] as int),
    decreases v,
{
    lemma_eval_width(module, env, v);
    lemma_eval_width(module, other, v);
    let prefixes = demands.take(module.values.len() as int);
    assert(prefixes[v] == demands[v]);
    assert(module.value_ok(v));
    if is_given(module, v) {
        assert(low_alike(eval(module, env, v), eval(module, other, v), prefixes[v] as int));
    } else if demands[v] > 0 {
        let operation = module.values[v].kind->Operation_0.raw as int;
        assert(module.operation_ok(operation));
        let kind = module.operations[operation].kind;
        let needs = operation_needs(module, kind, demands[v]);
        assert(node_needs(module, v, demands[v]) == needs);
        assert(meets(demands, needs));
        lemma_needs_below(module, kind, demands[v], v);
        assert forall|u: int| 0 <= u < v implies low_alike(
            #[trigger] eval(module, env, u),
            eval(module, other, u),
            demands[u] as int,
        ) by {
            lemma_values_alike(module, observed, demands, env, other, u);
        }
        lemma_needs_alike(module, demands, env, other, needs, v);
        lemma_words_sized(module, env, kind, v);
        lemma_words_sized(module, other, kind, v);
        lemma_eval_operation(module, env, v);
        lemma_eval_operation(module, other, v);
        assert(demands[v] <= node_width(module, v));
        needed_bits_suffice(
            module,
            env,
            other,
            v,
            kind,
            module.values[v].ty,
            |operand: ValueId| word_of(module, env, operand),
            |operand: ValueId| word_of(module, other, operand),
            demands[v],
        );
    }
}

/// The demanded bits decide what is observed: where two environments give the same
/// demanded bits of reads, constants and states, all values have the same demanded bits; the
/// pins of instances and the values that are asked for have the same words; connections put
/// the same on every bit that is seen; and what is stored next has the same demanded bits.
#[verifier::rlimit(40)]
pub proof fn demanded_bits_decide(
    module: ModuleView,
    observed: Seq<ValueId>,
    prefixes: Seq<u32>,
    env: Env,
    other: Env,
)
    requires
        module.wf(),
        !has_dynamic(module),
        observes(module, observed, prefixes),
        forall|i: int| 0 <= i < observed.len() ==> module.has(#[trigger] observed[i]),
        given_alike(module, prefixes, env, other),
    ensures
        forall|v: int|
            0 <= v < module.values.len() ==> low_alike(
                #[trigger] eval(module, env, v),
                eval(module, other, v),
                prefixes[v] as int,
            ),
        forall|i: int, j: int|
            0 <= i < module.instances.len() && 0 <= j < module.instances[i].connections.len()
                ==> word_of(
                module,
                env,
                (#[trigger] module.instances[i].connections[j]).value,
            ) == word_of(module, other, module.instances[i].connections[j].value),
        forall|i: int|
            0 <= i < observed.len() ==> word_of(module, env, #[trigger] observed[i]) == word_of(
                module,
                other,
                observed[i],
            ),
        forall|c: int, signal: SignalId, bit: int, from: int|
            0 <= c < module.connects.len() && bit_seen(module, prefixes, signal, bit) && 0 <= bit
                < module.signals[signal.raw as int].ty.width && #[trigger] puts_bit(
                module.connects[c],
                signal,
                bit,
                from,
            ) && 0 <= from < module.ty(module.connects[c].value).width ==> word_of(
                module,
                env,
                module.connects[c].value,
            )[from] == word_of(module, other, module.connects[c].value)[from],
        forall|v: int|
            0 <= v < module.values.len() && prefixes[v] > 0 && module.values[v].kind is Operation
                && is_given(module, v) ==> #[trigger] stores_alike(
                module,
                env,
                other,
                v,
                prefixes[v] as int,
            ),
{
    let demands = choose|demands: Seq<u32>| #[trigger]
        is_least(module, observed, demands) && prefixes == demands.take(module.values.len() as int);
    let roots = root_needs(module, observed);
    assert(meets(demands, roots));
    assert forall|v: int| 0 <= v < module.values.len() implies low_alike(
        #[trigger] eval(module, env, v),
        eval(module, other, v),
        prefixes[v] as int,
    ) && prefixes[v] == demands[v] by {
        lemma_values_alike(module, observed, demands, env, other, v);
    }
    let pins = gathered(|i: int| instance_values(module, i), module.instances.len());
    let ports = module.ports.map_values(
        |port: Port|
            signal_low(
                module,
                port.signal,
                if port.direction is Input {
                    0
                } else {
                    port.ty.width
                },
            ),
    );
    let pin_needs = pins.map_values(|value: ValueId| full(module, value));
    let asked = observed.map_values(|value: ValueId| full(module, value));
    assert(roots == ports + pin_needs + asked);
    assert forall|i: int| 0 <= i < observed.len() implies word_of(
        module,
        env,
        #[trigger] observed[i],
    ) == word_of(module, other, observed[i]) by {
        assert(roots[ports.len() + pin_needs.len() + i] == asked[i]);
        lemma_whole_alike(module, demands, env, other, observed[i]);
    }
    assert forall|i: int, j: int|
        0 <= i < module.instances.len() && 0 <= j
            < module.instances[i].connections.len() implies word_of(
        module,
        env,
        (#[trigger] module.instances[i].connections[j]).value,
    ) == word_of(module, other, module.instances[i].connections[j].value) by {
        let value = module.instances[i].connections[j].value;
        let k = lemma_pin_listed(module, module.instances.len(), i, j);
        assert(roots[ports.len() + k] == pin_needs[k]);
        lemma_whole_alike(module, demands, env, other, value);
    }
    assert forall|c: int, signal: SignalId, bit: int, from: int|
        0 <= c < module.connects.len() && bit_seen(module, prefixes, signal, bit) && 0 <= bit
            < module.signals[signal.raw as int].ty.width && #[trigger] puts_bit(
            module.connects[c],
            signal,
            bit,
            from,
        ) && 0 <= from < module.ty(module.connects[c].value).width implies word_of(
        module,
        env,
        module.connects[c].value,
    )[from] == word_of(module, other, module.connects[c].value)[from] by {
        let connect = module.connects[c];
        assert(module.connect_ok(connect));
        let node = module.values.len() + signal.raw;
        lemma_seen_demand(module, observed, demands, prefixes, signal, bit);
        assert(demands[node] > bit);
        let needs = node_needs(module, node, demands[node]);
        assert(meets(demands, needs));
        assert(needs[c] == connect_need_of(module, connect, signal, demands[node]));
        let v = connect.value.raw as int;
        assert(demands[v] >= needs[c].prefix);
        assert(demands[node] <= node_width(module, node));
        assert(from < needs[c].prefix);
        lemma_eval_width(module, env, v);
        assert(low_alike(eval(module, env, v), eval(module, other, v), prefixes[v] as int));
    }
    assert forall|v: int|
        0 <= v < module.values.len() && prefixes[v] > 0 && module.values[v].kind is Operation
            && is_given(module, v) implies #[trigger] stores_alike(
        module,
        env,
        other,
        v,
        prefixes[v] as int,
    ) by {
        lemma_stores_alike(module, observed, demands, env, other, v);
    }
}

/// What an operation with state takes over has the same low bits in two environments, and
/// it is clocked by the same word.
pub open spec fn stores_alike(
    module: ModuleView,
    env: Env,
    other: Env,
    v: int,
    count: int,
) -> bool {
    let kind = module.operations[module.values[v].kind->Operation_0.raw as int].kind;
    &&& low_alike(
        taken_bits(kind, eval(module, env, v), |operand: ValueId| word_of(module, env, operand)),
        taken_bits(kind, eval(module, other, v), |operand: ValueId| word_of(module, other, operand)),
        count,
    )
    &&& kind matches OpView::Register(register) ==> word_of(module, env, register.clock) == word_of(
        module,
        other,
        register.clock,
    )
}

spec fn connect_need_of(
    module: ModuleView,
    connect: Connect,
    signal: SignalId,
    demand: u32,
) -> Need {
    super::demand::connect_need(module, connect, signal.raw as int, demand)
}

proof fn lemma_stores_alike(
    module: ModuleView,
    observed: Seq<ValueId>,
    demands: Seq<u32>,
    env: Env,
    other: Env,
    v: int,
)
    requires
        module.wf(),
        is_closed(module, observed, demands),
        given_alike(module, demands.take(module.values.len() as int), env, other),
        0 <= v < module.values.len(),
        demands[v] > 0,
        module.values[v].kind is Operation,
        is_given(module, v),
    ensures
        stores_alike(module, env, other, v, demands[v] as int),
{
    assert(module.value_ok(v));
    let operation = module.values[v].kind->Operation_0.raw as int;
    assert(module.operation_ok(operation));
    let kind = module.operations[operation].kind;
    let needs = operation_needs(module, kind, demands[v]);
    assert(node_needs(module, v, demands[v]) == needs);
    assert(meets(demands, needs));
    lemma_needs_below(module, kind, demands[v], v);
    assert forall|u: int| 0 <= u < module.values.len() implies low_alike(
        #[trigger] eval(module, env, u),
        eval(module, other, u),
        demands[u] as int,
    ) by {
        lemma_values_alike(module, observed, demands, env, other, u);
    }
    lemma_needs_alike(module, demands, env, other, needs, v);
    lemma_words_sized(module, env, kind, v);
    lemma_words_sized(module, other, kind, v);
    lemma_eval_width(module, env, v);
    assert(low_alike(eval(module, env, v), eval(module, other, v), demands[v] as int));
    assert(demands[v] <= node_width(module, v));
    needed_bits_suffice_for_state(
        module,
        kind,
        module.values[v].ty,
        eval(module, env, v),
        eval(module, other, v),
        |operand: ValueId| word_of(module, env, operand),
        |operand: ValueId| word_of(module, other, operand),
        demands[v],
    );
}

proof fn lemma_whole_alike(
    module: ModuleView,
    demands: Seq<u32>,
    env: Env,
    other: Env,
    value: ValueId,
)
    requires
        module.wf(),
        module.has(value),
        demands[value.raw as int] >= module.ty(value).width,
        low_alike(
            eval(module, env, value.raw as int),
            eval(module, other, value.raw as int),
            demands[value.raw as int] as int,
        ),
    ensures
        word_of(module, env, value) == word_of(module, other, value),
{
    lemma_eval_width(module, env, value.raw as int);
    assert(word_of(module, env, value) =~= word_of(module, other, value));
}

proof fn lemma_pin_listed(module: ModuleView, count: nat, i: int, j: int) -> (k: int)
    requires
        0 <= i < count,
        0 <= j < module.instances[i].connections.len(),
    ensures
        ({
            let pins = gathered(|i: int| instance_values(module, i), count);
            0 <= k < pins.len() && pins[k] == module.instances[i].connections[j].value
        }),
    decreases count,
{
    let row = |i: int| instance_values(module, i);
    let below = gathered(row, (count - 1) as nat);
    let pins = gathered(row, count);
    assert(pins == below + row(count - 1));
    if i == count - 1 {
        below.len() + j
    } else {
        lemma_pin_listed(module, (count - 1) as nat, i, j)
    }
}

proof fn lemma_seen_demand(
    module: ModuleView,
    observed: Seq<ValueId>,
    demands: Seq<u32>,
    prefixes: Seq<u32>,
    signal: SignalId,
    bit: int,
)
    requires
        module.wf(),
        is_closed(module, observed, demands),
        prefixes == demands.take(module.values.len() as int),
        signal.raw < module.signals.len(),
        0 <= bit < module.signals[signal.raw as int].ty.width,
        bit_seen(module, prefixes, signal, bit),
    ensures
        demands[module.values.len() + signal.raw] > bit,
{
    let roots = root_needs(module, observed);
    assert(meets(demands, roots));
    if exists|p: int|
        0 <= p < module.ports.len() && (#[trigger] module.ports[p]).signal == signal && !(
        module.ports[p].direction is Input) && 0 <= bit < module.ports[p].ty.width {
        let p = choose|p: int|
            0 <= p < module.ports.len() && (#[trigger] module.ports[p]).signal == signal && !(
            module.ports[p].direction is Input) && 0 <= bit < module.ports[p].ty.width;
        assert(roots[p] == signal_low(module, signal, module.ports[p].ty.width));
        assert(demands[roots[p].node as int] >= roots[p].prefix);
    } else {
        let v = choose|v: int| #[trigger] reads_bit(module, prefixes, v, signal, bit);
        let reference = module.values[v].kind->Signal_0;
        assert(module.value_ok(v));
        let needs = node_needs(module, v, demands[v]);
        assert(prefixes[v] == demands[v]);
        assert(meets(demands, needs));
        assert(needs[0] == signal_low(
            module,
            signal,
            (reference.lsb + lesser(demands[v], reference.width)) as u32,
        ));
        assert(demands[needs[0].node as int] >= needs[0].prefix);
    }
}

} // verus!
