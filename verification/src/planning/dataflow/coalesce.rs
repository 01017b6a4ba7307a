//! Putting wires back together that are driven piece by piece.

use crate::error::SynthError;
use crate::word::drivers::{bit_driver, connected_values, SignalDriverIndex, ValueBit};
use crate::word::emit::{lemma_stable, ran_out, stable};
use crate::word::module::{
    parts_width, Connect, LValue, ModuleView, SignalKind, WordModule,
};
use crate::word::semantics::{
    cast_bits, concat_bits, extract_bits, lemma_eval_width, word_of, Env,
};
use crate::word::types::{CastKind, OpView, SignalId, SourceSpan, ValueId, WordType};
use vstd::prelude::*;

verus! {

/// A connection to a fixed forward run of a signal's bits, of the right width.
pub open spec fn is_static(module: ModuleView, connect: Connect) -> bool {
    let width = module.signals[connect.target.signal.raw as int].ty.width;
    &&& connect.target.dynamic is None
    &&& match connect.target.range {
        None => module.ty(connect.value).width == width,
        Some(range) => range.msb >= range.lsb && range.msb < width && module.ty(
            connect.value,
        ).width == range.msb - range.lsb + 1,
    }
}

/// A wire whose bits are each driven once, by two or more connections to fixed
/// runs.
pub open spec fn coalescible(module: ModuleView, signal: SignalId) -> bool {
    let stored = module.signals[signal.raw as int];
    &&& stored.kind is Wire
    &&& stored.ty.width > 1
    &&& !stored.preserved
    &&& connected_values(module, signal, module.connects.len()).len() >= 2
    &&& forall|i: int|
        0 <= i < module.connects.len() && (#[trigger] module.connects[i]).target.signal == signal
            ==> is_static(module, module.connects[i])
    &&& forall|b: int|
        0 <= b < stored.ty.width ==> (#[trigger] bit_driver(module, signal, b)) is Some
}

/// The word that the drivers of a signal's bits make up.
pub open spec fn driver_word(module: ModuleView, env: Env, signal: SignalId) -> Seq<bool> {
    Seq::new(
        module.signals[signal.raw as int].ty.width as nat,
        |b: int|
            word_of(module, env, bit_driver(module, signal, b)->0.value)[bit_driver(
                module,
                signal,
                b,
            )->0.bit as int],
    )
}

/// A run of bits of one value.
#[derive(Clone, Copy, PartialEq, Eq, Structural, Debug)]
pub struct BitRun {
    pub value: ValueId,
    pub lsb: u32,
    pub width: u32,
}

pub open spec fn run_bits(run: BitRun) -> Seq<ValueBit> {
    Seq::new(
        run.width as nat,
        |i: int| ValueBit { value: run.value, bit: (run.lsb + i) as u32 },
    )
}

/// The bits of several runs, one run after the other.
pub open spec fn all_run_bits(runs: Seq<BitRun>) -> Seq<ValueBit>
    decreases runs.len(),
{
    if runs.len() == 0 {
        seq![]
    } else {
        all_run_bits(runs.drop_last()) + run_bits(runs.last())
    }
}

pub open spec fn run_ok(module: ModuleView, run: BitRun) -> bool {
    module.has(run.value) && run.width >= 1 && run.lsb + run.width <= module.ty(run.value).width
}

pub open spec fn bits_ok(module: ModuleView, bits: Seq<ValueBit>) -> bool {
    forall|i: int|
        0 <= i < bits.len() ==> module.has((#[trigger] bits[i]).value) && bits[i].bit < module.ty(
            bits[i].value,
        ).width
}

/// Joins bits that follow each other in one value.
fn collect_runs(bits: &Vec<ValueBit>, Ghost(module): Ghost<ModuleView>) -> (runs: Vec<BitRun>)
    requires
        bits_ok(module, bits@),
        bits@.len() <= u32::MAX,
    ensures
        runs@ == runs_of(bits@),
        all_run_bits(runs@) == bits@,
        forall|r: int| 0 <= r < runs@.len() ==> run_ok(module, #[trigger] runs@[r]),
        bits@.len() > 0 ==> runs@.len() > 0,
{
    let mut runs: Vec<BitRun> = Vec::new();
    let mut i: usize = 0;
    assert(bits@.take(0) =~= seq![]);
    while i < bits.len()
        invariant
            i <= bits@.len(),
            bits@.len() <= u32::MAX,
            bits_ok(module, bits@),
            runs@ == runs_of(bits@.take(i as int)),
            all_run_bits(runs@) == bits@.take(i as int),
            forall|r: int| 0 <= r < runs@.len() ==> run_ok(module, #[trigger] runs@[r]),
            i > 0 ==> runs@.len() > 0,
        decreases bits.len() - i,
    {
        let bit = bits[i];
        let ghost before = runs@;
        proof {
            assert(bits@.take(i + 1) =~= bits@.take(i as int).push(bit));
            assert(bits@.take(i + 1).drop_last() =~= bits@.take(i as int));
            assert(module.has(bits@[i as int].value));
        }
        let count: usize = runs.len();
        let mut joined: bool = false;
        if count > 0 {
            let last = runs[count - 1];
            assert(run_ok(module, runs@[count - 1]));
            if last.value == bit.value && last.lsb + last.width == bit.bit {
                let longer = BitRun { value: last.value, lsb: last.lsb, width: last.width + 1 };
                runs.set(count - 1, longer);
                joined = true;
                proof {
                    assert(runs@.drop_last() =~= before.drop_last());
                    assert(run_bits(longer) =~= run_bits(last).push(bit));
                    assert(all_run_bits(runs@) =~= all_run_bits(before).push(bit));
                }
            }
        }
        if !joined {
            let run = BitRun { value: bit.value, lsb: bit.bit, width: 1 };
            runs.push(run);
            proof {
                assert(runs@.drop_last() =~= before);
                assert(run_bits(run) =~= seq![bit]);
                assert(all_run_bits(runs@) =~= all_run_bits(before).push(bit));
            }
        }
        i += 1;
    }
    assert(bits@.take(i as int) =~= bits@);
    runs
}

/// The words of several parts, the first in the lowest place.
pub open spec fn joined_words(words: Seq<Seq<bool>>) -> Seq<bool>
    decreases words.len(),
{
    if words.len() == 0 {
        seq![]
    } else {
        joined_words(words.drop_last()) + words.last()
    }
}

proof fn lemma_concat_reversed(words: Seq<Seq<bool>>)
    ensures
        concat_bits(words.reverse()) == joined_words(words),
    decreases words.len(),
{
    if words.len() > 0 {
        lemma_concat_reversed(words.drop_last());
        assert(words.reverse().skip(1) =~= words.drop_last().reverse());
        assert(words.reverse()[0] == words.last());
    } else {
        assert(words.reverse() =~= seq![]);
    }
}

/// The bits of a list of value bits in an environment.
pub open spec fn bits_word(module: ModuleView, env: Env, bits: Seq<ValueBit>) -> Seq<bool> {
    bits.map_values(|bit: ValueBit| word_of(module, env, bit.value)[bit.bit as int])
}

/// The values that stand for several runs.
pub open spec fn parts_mean(
    start: ModuleView,
    module: ModuleView,
    runs: Seq<BitRun>,
    parts: Seq<ValueId>,
) -> bool {
    &&& parts.len() == runs.len()
    &&& forall|r: int|
        0 <= r < parts.len() ==> module.has(#[trigger] parts[r]) && module.ty(parts[r]).width
            == runs[r].width
    &&& forall|r: int, env: Env|
        0 <= r < parts.len() ==> #[trigger] word_of(module, env, parts[r]) == extract_bits(
            word_of(start, env, runs[r].value),
            runs[r].lsb as int,
            runs[r].width as nat,
        )
}

proof fn lemma_parts_keep(
    start: ModuleView,
    before: ModuleView,
    after: ModuleView,
    runs: Seq<BitRun>,
    parts: Seq<ValueId>,
)
    requires
        stable(before, after),
        parts_mean(start, before, runs, parts),
    ensures
        parts_mean(start, after, runs, parts),
{
    assert forall|r: int| 0 <= r < parts.len() implies after.has(#[trigger] parts[r]) && after.ty(
        parts[r],
    ).width == runs[r].width by {
        assert(before.has(parts[r]));
        assert(after.ty(parts[r]) == before.ty(parts[r]));
    }
    assert forall|r: int, env: Env| 0 <= r < parts.len() implies #[trigger] word_of(
        after,
        env,
        parts[r],
    ) == extract_bits(
        word_of(start, env, runs[r].value),
        runs[r].lsb as int,
        runs[r].width as nat,
    ) by {
        assert(before.has(parts[r]));
        assert(word_of(before, env, parts[r]) == word_of(after, env, parts[r]));
    }
}

pub open spec fn part_words(module: ModuleView, env: Env, parts: Seq<ValueId>) -> Seq<Seq<bool>> {
    parts.map_values(|part: ValueId| word_of(module, env, part))
}

/// The parts of runs join to the bits of the runs.
proof fn lemma_parts_word(
    start: ModuleView,
    env: Env,
    runs: Seq<BitRun>,
    words: Seq<Seq<bool>>,
)
    requires
        words.len() == runs.len(),
        forall|r: int|
            0 <= r < words.len() ==> #[trigger] words[r] == extract_bits(
                word_of(start, env, runs[r].value),
                runs[r].lsb as int,
                runs[r].width as nat,
            ),
        forall|r: int| 0 <= r < runs.len() ==> run_ok(start, #[trigger] runs[r]),
    ensures
        joined_words(words) == bits_word(start, env, all_run_bits(runs)),
    decreases runs.len(),
{
    if runs.len() > 0 {
        let below = runs.drop_last();
        assert forall|r: int| 0 <= r < below.len() implies run_ok(start, #[trigger] below[r]) by {
            assert(below[r] == runs[r]);
        }
        assert forall|r: int| 0 <= r < below.len() implies #[trigger] words.drop_last()[r]
            == extract_bits(
            word_of(start, env, below[r].value),
            below[r].lsb as int,
            below[r].width as nat,
        ) by {
            assert(words.drop_last()[r] == words[r]);
        }
        lemma_parts_word(start, env, below, words.drop_last());
        let run = runs.last();
        assert(run_ok(start, runs[runs.len() - 1]));
        assert(words[runs.len() - 1] == words.last());
        assert(bits_word(start, env, run_bits(run)) =~= words.last());
        assert(bits_word(start, env, all_run_bits(runs)) =~= bits_word(
            start,
            env,
            all_run_bits(below),
        ) + bits_word(start, env, run_bits(run)));
    } else {
        assert(bits_word(start, env, all_run_bits(runs)) =~= seq![]);
    }
}

proof fn lemma_parts_width(module: ModuleView, runs: Seq<BitRun>, parts: Seq<ValueId>)
    requires
        parts.len() == runs.len(),
        forall|r: int|
            0 <= r < parts.len() ==> module.ty(#[trigger] parts[r]).width == runs[r].width,
    ensures
        parts_width(module, parts) == all_run_bits(runs).len(),
    decreases runs.len(),
{
    if runs.len() > 0 {
        assert forall|r: int| 0 <= r < runs.drop_last().len() implies module.ty(
            #[trigger] parts.drop_last()[r],
        ).width == runs.drop_last()[r].width by {
            assert(parts.drop_last()[r] == parts[r]);
        }
        lemma_parts_width(module, runs.drop_last(), parts.drop_last());
        assert(module.ty(parts[parts.len() - 1]).width == runs[runs.len() - 1].width);
    }
}

/// The width of a concatenation does not depend on the order of its parts.
proof fn lemma_width_reversed(module: ModuleView, parts: Seq<ValueId>)
    ensures
        parts_width(module, parts.reverse()) == parts_width(module, parts),
    decreases parts.len(),
{
    if parts.len() > 0 {
        lemma_width_reversed(module, parts.drop_last());
        let reversed = parts.reverse();
        assert(reversed =~= seq![parts.last()] + parts.drop_last().reverse());
        lemma_width_front(module, parts.last(), parts.drop_last().reverse());
    } else {
        assert(parts.reverse() =~= parts);
    }
}

proof fn lemma_width_front(module: ModuleView, first: ValueId, rest: Seq<ValueId>)
    ensures
        parts_width(module, seq![first] + rest) == module.ty(first).width + parts_width(
            module,
            rest,
        ),
    decreases rest.len(),
{
    let all = seq![first] + rest;
    if rest.len() > 0 {
        lemma_width_front(module, first, rest.drop_last());
        assert(all.drop_last() =~= seq![first] + rest.drop_last());
        assert(all.last() == rest.last());
    } else {
        assert(all.drop_last() =~= seq![]);
        assert(all.last() == first);
        assert(parts_width(module, all.drop_last()) == 0);
        assert(parts_width(module, rest) == 0);
    }
}

/// Appends the value that a list of bits makes up, with a type.
#[verifier::rlimit(60)]
fn assemble(
    module: &mut WordModule,
    bits: &Vec<ValueBit>,
    ty: WordType,
    source: SourceSpan,
) -> (result: Result<ValueId, SynthError>)
    requires
        old(module)@.wf(),
        bits_ok(old(module)@, bits@),
        bits@.len() == ty.width,
        ty.width >= 1,
    ensures
        stable(old(module)@, final(module)@),
        result matches Ok(value) ==> {
            &&& final(module)@.has(value)
            &&& final(module)@.ty(value) == ty
            &&& joins(final(module)@, value, bits@, ty)
            &&& forall|env: Env| #[trigger]
                word_of(final(module)@, env, value) == bits_word(old(module)@, env, bits@)
        },
        result matches Err(error) ==> ran_out(final(module)@, error),
{
    let ghost start = module@;
    let runs = collect_runs(bits, Ghost(start));
    let mut parts: Vec<ValueId> = Vec::new();
    let mut r: usize = 0;
    proof {
        lemma_stable(start, start);
    }
    while r < runs.len()
        invariant
            start == old(module)@,
            stable(start, module@),
            r <= runs@.len(),
            forall|r: int| 0 <= r < runs@.len() ==> run_ok(start, #[trigger] runs@[r]),
            parts_mean(start, module@, runs@.take(r as int), parts@),
            forall|q: int| 0 <= q < r ==> holds_run(module@, #[trigger] parts@[q], runs@[q]),
        decreases runs.len() - r,
    {
        let run = runs[r];
        let ghost before = module@;
        let ghost was = parts@;
        assert(run_ok(start, runs@[r as int]));
        assert(before.ty(run.value) == start.ty(run.value));
        let width: u32 = module.values[run.value.raw as usize].ty.width;
        assert(width == before.ty(run.value).width);
        let part = if run.lsb == 0 && run.width == width {
            proof {
                lemma_stable(before, before);
            }
            run.value
        } else {
            match module.emit_extract(run.value, run.lsb, run.width, source) {
                Ok(part) => part,
                Err(error) => return Err(error),
            }
        };
        parts.push(part);
        proof {
            let now = runs@.take(r + 1);
            let old_runs = runs@.take(r as int);
            assert(now =~= old_runs.push(run));
            lemma_parts_keep(start, before, module@, old_runs, was);
            assert forall|q: int| 0 <= q < r + 1 implies holds_run(
                module@,
                #[trigger] parts@[q],
                runs@[q],
            ) by {
                if q < r {
                    assert(parts@[q] == was[q]);
                    assert(before.has(was[q]));
                    assert(run_ok(start, runs@[q]));
                    assert(before.ty(runs@[q].value) == start.ty(runs@[q].value));
                    lemma_holds_on(before, module@, was[q], runs@[q]);
                } else {
                    assert(module@.ty(run.value) == before.ty(run.value));
                }
            }
            assert forall|q: int, env: Env| 0 <= q < parts@.len() implies #[trigger] word_of(
                module@,
                env,
                parts@[q],
            ) == extract_bits(
                word_of(start, env, now[q].value),
                now[q].lsb as int,
                now[q].width as nat,
            ) by {
                if q < r {
                    assert(parts@[q] == was[q] && now[q] == old_runs[q]);
                    assert(word_of(module@, env, was[q]) == extract_bits(
                        word_of(start, env, old_runs[q].value),
                        old_runs[q].lsb as int,
                        old_runs[q].width as nat,
                    ));
                } else {
                    assert(word_of(before, env, run.value) == word_of(start, env, run.value));
                    lemma_eval_width(start, env, run.value.raw as int);
                    if run.lsb == 0 && run.width == width {
                        assert(extract_bits(word_of(start, env, run.value), 0, run.width as nat)
                            =~= word_of(start, env, run.value));
                    }
                }
            }
            assert forall|q: int| 0 <= q < parts@.len() implies module@.has(#[trigger] parts@[q])
                && module@.ty(parts@[q]).width == now[q].width by {
                if q < r {
                    assert(parts@[q] == was[q] && now[q] == old_runs[q]);
                    assert(module@.has(was[q]));
                }
            }
        }
        r += 1;
    }
    assert(runs@.take(r as int) =~= runs@);
    let ghost built = module@;
    let ghost ordered = parts@;
    let single: bool = parts.len() == 1;
    let mut value = parts[0];
    proof {
        assert(built.has(parts@[0]));
        lemma_parts_width(built, runs@, ordered);
        assert forall|env: Env| joined_words(#[trigger] part_words(built, env, ordered))
            == bits_word(start, env, bits@) by {
            let words = part_words(built, env, ordered);
            assert forall|r: int| 0 <= r < words.len() implies #[trigger] words[r] == extract_bits(
                word_of(start, env, runs@[r].value),
                runs@[r].lsb as int,
                runs@[r].width as nat,
            ) by {
                assert(word_of(built, env, ordered[r]) == words[r]);
            }
            lemma_parts_word(start, env, runs@, words);
        }
    }
    if single {
        proof {
            assert forall|env: Env| #[trigger] word_of(built, env, value) == bits_word(
                start,
                env,
                bits@,
            ) by {
                let words = part_words(built, env, ordered);
                assert(words.drop_last() =~= seq![]);
                assert(joined_words(words.drop_last()) =~= seq![]);
                assert(joined_words(words) =~= words.last());
            }
            lemma_parts_width_single(built, ordered);
            assert(holds_run(built, ordered[0], runs@[0]));
            assert(gathers(built, value, runs@));
        }
    } else {
        let mut reversed: Vec<ValueId> = Vec::new();
        let mut left: usize = parts.len();
        while left > 0
            invariant
                left <= parts@.len(),
                ordered == parts@,
                reversed@.len() == ordered.len() - left,
                forall|i: int|
                    0 <= i < reversed@.len() ==> #[trigger] reversed@[i] == ordered[ordered.len()
                        - 1 - i],
            decreases left,
        {
            left -= 1;
            reversed.push(parts[left]);
        }
        proof {
            assert(reversed@ =~= ordered.reverse());
            lemma_width_reversed(built, ordered);
            assert forall|i: int| 0 <= i < reversed@.len() implies built.has(
                #[trigger] reversed@[i],
            ) by {
                assert(built.has(ordered[ordered.len() - 1 - i]));
            }
        }
        let ghost held = reversed@;
        value = match module.emit_concat(reversed, source) {
            Ok(value) => value,
            Err(error) => return Err(error),
        };
        proof {
            assert forall|env: Env| #[trigger] word_of(module@, env, value) == bits_word(
                start,
                env,
                bits@,
            ) by {
                let words = part_words(built, env, ordered);
                assert(Seq::new(held.len(), |i: int| word_of(built, env, held[i]))
                    =~= words.reverse());
                lemma_concat_reversed(words);
                assert(joined_words(words) == bits_word(start, env, bits@));
            }
            assert forall|q: int| 0 <= q < held.len() implies module@.has(#[trigger] held[q])
                && holds_run(module@, held[q], runs@[runs@.len() - 1 - q]) by {
                let from = ordered.len() - 1 - q;
                assert(held[q] == ordered[from]);
                assert(built.has(ordered[from]));
                assert(holds_run(built, ordered[from], runs@[from]));
                assert(run_ok(start, runs@[from]));
                assert(built.ty(runs@[from].value) == start.ty(runs@[from].value));
                lemma_holds_on(built, module@, held[q], runs@[from]);
            }
            assert(gathers(module@, value, runs@));
        }
    }
    let ghost joined = module@;
    let made_type = module.values[value.raw as usize].ty;
    assert(made_type == joined.ty(value));
    assert(made_type.width == ty.width);
    if made_type != ty {
        let kind = if ty.signed {
            CastKind::SignExtend
        } else {
            CastKind::ZeroExtend
        };
        let ghost inner = value;
        value = match module.emit_cast(kind, value, ty, source) {
            Ok(value) => value,
            Err(error) => return Err(error),
        };
        proof {
            assert forall|q: int| 0 <= q < runs@.len() implies joined.has(
                (#[trigger] runs@[q]).value,
            ) by {
                assert(run_ok(start, runs@[q]));
                assert(joined.ty(runs@[q].value) == start.ty(runs@[q].value));
            }
            lemma_gathers_on(joined, module@, inner, runs@);
            assert(module@.ty(inner) == joined.ty(inner));
            assert forall|env: Env| #[trigger] word_of(module@, env, value) == bits_word(
                start,
                env,
                bits@,
            ) by {
                lemma_eval_width(joined, env, inner.raw as int);
                assert(cast_bits(kind, word_of(joined, env, inner), ty) =~= word_of(
                    joined,
                    env,
                    inner,
                ));
            }
        }
    } else {
        proof {
            lemma_stable(joined, joined);
        }
    }
    Ok(value)
}

proof fn lemma_parts_width_single(module: ModuleView, parts: Seq<ValueId>)
    requires
        parts.len() == 1,
    ensures
        parts_width(module, parts) == module.ty(parts[0]).width,
{
    assert(parts.drop_last() =~= seq![]);
    assert(parts_width(module, parts.drop_last()) == 0);
}


/// The coalescible signals among the first ones, in order.
pub open spec fn coalesced_signals(module: ModuleView, count: nat) -> Seq<SignalId>
    decreases count,
{
    if count == 0 {
        seq![]
    } else {
        let below = coalesced_signals(module, (count - 1) as nat);
        let signal = SignalId { raw: (count - 1) as u32 };
        if coalescible(module, signal) {
            below.push(signal)
        } else {
            below
        }
    }
}

/// The connections to other signals.
pub open spec fn kept_connects(module: ModuleView, connects: Seq<Connect>) -> Seq<Connect>
    decreases connects.len(),
{
    if connects.len() == 0 {
        seq![]
    } else {
        let below = kept_connects(module, connects.drop_last());
        if coalescible(module, connects.last().target.signal) {
            below
        } else {
            below.push(connects.last())
        }
    }
}

/// A bit goes on where a run ends.
pub open spec fn goes_on(run: BitRun, bit: ValueBit) -> bool {
    run.value == bit.value && run.lsb + run.width == bit.bit
}

/// Bits cut into the longest runs of bits that follow each other in one value.
pub open spec fn runs_of(bits: Seq<ValueBit>) -> Seq<BitRun>
    decreases bits.len(),
{
    if bits.len() == 0 {
        seq![]
    } else {
        let below = runs_of(bits.drop_last());
        let bit = bits.last();
        if below.len() > 0 && goes_on(below.last(), bit) {
            below.update(
                below.len() - 1,
                BitRun { width: (below.last().width + 1) as u32, ..below.last() },
            )
        } else {
            below.push(BitRun { value: bit.value, lsb: bit.bit, width: 1 })
        }
    }
}

/// A value holds a run: it is the value that the run covers, or an extraction of it.
pub open spec fn holds_run(module: ModuleView, part: ValueId, run: BitRun) -> bool {
    if run.lsb == 0 && run.width == module.ty(run.value).width {
        part == run.value
    } else {
        module.op_of(part) == Some(
            OpView::Extract { value: run.value, lsb: run.lsb, width: run.width },
        )
    }
}

/// The parts hold the runs, the first run in the last part.
pub open spec fn holds_runs(module: ModuleView, parts: Seq<ValueId>, runs: Seq<BitRun>) -> bool {
    &&& parts.len() == runs.len()
    &&& forall|r: int|
        0 <= r < parts.len() ==> module.has(#[trigger] parts[r]) && holds_run(
            module,
            parts[r],
            runs[runs.len() - 1 - r],
        )
}

/// A value puts runs together: one run needs nothing, several are concatenated.
pub open spec fn gathers(module: ModuleView, value: ValueId, runs: Seq<BitRun>) -> bool {
    if runs.len() == 1 {
        holds_run(module, value, runs[0])
    } else {
        module.op_of(value) matches Some(OpView::Concat { parts }) && holds_runs(
            module,
            parts,
            runs,
        )
    }
}

/// How a value is given a type of its own width.
pub open spec fn retyping(ty: WordType) -> CastKind {
    if ty.signed {
        CastKind::SignExtend
    } else {
        CastKind::ZeroExtend
    }
}

/// A value puts bits together; only where the type does not come by itself, it is a
/// cast.
pub open spec fn joins(module: ModuleView, value: ValueId, bits: Seq<ValueBit>, ty: WordType) -> bool {
    exists|inner: ValueId|
        module.has(inner) && #[trigger] gathers(module, inner, runs_of(bits)) && if module.ty(inner)
            == ty {
            value == inner
        } else {
            module.op_of(value) == Some(
                OpView::Cast { kind: retyping(ty), value: inner, target: ty },
            )
        }
}

/// The first connection to a signal.
pub open spec fn drives_first(module: ModuleView, signal: SignalId, i: int) -> bool {
    &&& 0 <= i < module.connects.len()
    &&& module.connects[i].target.signal == signal
    &&& forall|j: int| 0 <= j < i ==> (#[trigger] module.connects[j]).target.signal != signal
}

/// The place that a signal's first connection comes from.
pub open spec fn from_first(module: ModuleView, signal: SignalId, source: SourceSpan) -> bool {
    exists|i: int| #[trigger] drives_first(module, signal, i) && module.connects[i].source == source
}

/// The bits that drive a signal.
pub open spec fn driver_bits(module: ModuleView, signal: SignalId) -> Seq<ValueBit> {
    Seq::new(
        module.signals[signal.raw as int].ty.width as nat,
        |b: int| bit_driver(module, signal, b)->0,
    )
}

/// A connection of a whole signal to the value that its drivers make up, from where the
/// first of them comes.
pub open spec fn whole_driver(before: ModuleView, after: ModuleView, signal: SignalId, connect: Connect) -> bool {
    &&& connect.target == LValue::whole(signal)
    &&& after.has(connect.value)
    &&& after.ty(connect.value) == before.signals[signal.raw as int].ty
    &&& joins(
        after,
        connect.value,
        driver_bits(before, signal),
        before.signals[signal.raw as int].ty,
    )
    &&& from_first(before, signal, connect.source)
    &&& forall|env: Env| #[trigger]
        word_of(after, env, connect.value) == driver_word(before, env, signal)
}

/// Whole connections in place of the pieces.
pub open spec fn coalesced(before: ModuleView, after: ModuleView) -> bool {
    let signals = coalesced_signals(before, before.signals.len());
    let kept = kept_connects(before, before.connects);
    &&& after.connects.len() == kept.len() + signals.len()
    &&& forall|i: int| 0 <= i < kept.len() ==> #[trigger] after.connects[i] == kept[i]
    &&& forall|k: int|
        0 <= k < signals.len() ==> whole_driver(
            before,
            after,
            #[trigger] signals[k],
            after.connects[kept.len() + k],
        )
}

proof fn lemma_holds_on(before: ModuleView, after: ModuleView, part: ValueId, run: BitRun)
    requires
        stable(before, after),
        before.has(part),
        before.has(run.value),
        holds_run(before, part, run),
    ensures
        holds_run(after, part, run),
{
    assert(before.value_ok(part.raw as int));
    assert(after.values[part.raw as int] == before.values[part.raw as int]);
    assert(after.ty(run.value) == before.ty(run.value));
}

proof fn lemma_gathers_on(before: ModuleView, after: ModuleView, value: ValueId, runs: Seq<BitRun>)
    requires
        stable(before, after),
        before.has(value),
        forall|r: int| 0 <= r < runs.len() ==> before.has((#[trigger] runs[r]).value),
        gathers(before, value, runs),
    ensures
        gathers(after, value, runs),
{
    assert(before.value_ok(value.raw as int));
    assert(after.values[value.raw as int] == before.values[value.raw as int]);
    if runs.len() == 1 {
        assert(before.has(runs[0].value));
        lemma_holds_on(before, after, value, runs[0]);
    } else if let Some(OpView::Concat { parts }) = before.op_of(value) {
        assert forall|r: int| 0 <= r < parts.len() implies after.has(#[trigger] parts[r])
            && holds_run(after, parts[r], runs[runs.len() - 1 - r]) by {
            assert(before.has(parts[r]));
            assert(before.has(runs[runs.len() - 1 - r].value));
            lemma_holds_on(before, after, parts[r], runs[runs.len() - 1 - r]);
            assert(after.ty(parts[r]) == before.ty(parts[r]));
        }
    }
}

/// The runs of bits that are there are cut out of values that are there.
proof fn lemma_runs_known(module: ModuleView, bits: Seq<ValueBit>)
    requires
        forall|b: int| 0 <= b < bits.len() ==> module.has((#[trigger] bits[b]).value),
    ensures
        forall|r: int|
            0 <= r < runs_of(bits).len() ==> module.has((#[trigger] runs_of(bits)[r]).value),
    decreases bits.len(),
{
    if bits.len() > 0 {
        let below = bits.drop_last();
        assert forall|b: int| 0 <= b < below.len() implies module.has((#[trigger] below[b]).value) by {
            assert(below[b] == bits[b]);
        }
        lemma_runs_known(module, below);
        let runs = runs_of(bits);
        let before = runs_of(below);
        assert(module.has(bits[bits.len() - 1].value));
        assert forall|r: int| 0 <= r < runs.len() implies module.has((#[trigger] runs[r]).value) by {
            if r < before.len() {
                assert(module.has(before[r].value));
                assert(runs[r].value == before[r].value);
            }
        }
    }
}

proof fn lemma_joins_on(
    before: ModuleView,
    after: ModuleView,
    value: ValueId,
    bits: Seq<ValueBit>,
    ty: WordType,
)
    requires
        stable(before, after),
        before.has(value),
        forall|b: int| 0 <= b < bits.len() ==> before.has((#[trigger] bits[b]).value),
        joins(before, value, bits, ty),
    ensures
        joins(after, value, bits, ty),
{
    assert(before.value_ok(value.raw as int));
    assert(after.values[value.raw as int] == before.values[value.raw as int]);
    let inner = choose|inner: ValueId|
        before.has(inner) && #[trigger] gathers(before, inner, runs_of(bits)) && if before.ty(inner)
            == ty {
            value == inner
        } else {
            before.op_of(value) == Some(
                OpView::Cast { kind: retyping(ty), value: inner, target: ty },
            )
        };
    lemma_runs_known(before, bits);
    lemma_gathers_on(before, after, inner, runs_of(bits));
    assert(after.ty(inner) == before.ty(inner));
}

/// What a value puts together does not depend on the connections.
proof fn lemma_joins_connects(
    module: ModuleView,
    connects: Seq<Connect>,
    value: ValueId,
    bits: Seq<ValueBit>,
    ty: WordType,
)
    requires
        joins(module, value, bits, ty),
    ensures
        joins(module.with_connects(connects), value, bits, ty),
{
    let after = module.with_connects(connects);
    let inner = choose|inner: ValueId|
        module.has(inner) && #[trigger] gathers(module, inner, runs_of(bits)) && if module.ty(inner)
            == ty {
            value == inner
        } else {
            module.op_of(value) == Some(
                OpView::Cast { kind: retyping(ty), value: inner, target: ty },
            )
        };
    let runs = runs_of(bits);
    assert forall|part: ValueId, run: BitRun| #[trigger]
        holds_run(module, part, run) implies holds_run(after, part, run) by {}
    assert(gathers(after, inner, runs));
}

/// Whether the connections to a signal are all to fixed runs, and the source
/// of the first of them.
fn static_drivers(module: &WordModule, signal: SignalId) -> (found: Option<(usize, SourceSpan)>)
    requires
        module@.wf(),
        signal.raw < module@.signals.len(),
    ensures
        found is Some <==> (forall|i: int|
            0 <= i < module@.connects.len() && (#[trigger] module@.connects[i]).target.signal
                == signal ==> is_static(module@, module@.connects[i])),
        found matches Some((count, source)) ==> count == connected_values(
            module@,
            signal,
            module@.connects.len(),
        ).len() && (count > 0 ==> from_first(module@, signal, source)),
{
    let ghost view = module@;
    let width: u32 = module.signals[signal.raw as usize].ty.width;
    let mut count: usize = 0;
    let mut source = SourceSpan { id: 0 };
    let mut i: usize = 0;
    while i < module.connects.len()
        invariant
            view == module@,
            view.wf(),
            signal.raw < view.signals.len(),
            width == view.signals[signal.raw as int].ty.width,
            i <= view.connects.len(),
            count <= i,
            count == connected_values(view, signal, i as nat).len(),
            count > 0 ==> from_first(view, signal, source),
            count == 0 ==> forall|j: int|
                0 <= j < i ==> (#[trigger] view.connects[j]).target.signal != signal,
            forall|j: int|
                0 <= j < i && (#[trigger] view.connects[j]).target.signal == signal ==> is_static(
                    view,
                    view.connects[j],
                ),
        decreases module.connects.len() - i,
    {
        let connect = module.connects[i];
        assert(view.connect_ok(view.connects[i as int]));
        if connect.target.signal == signal {
            let value_width: u32 = module.values[connect.value.raw as usize].ty.width;
            assert(value_width == view.ty(connect.value).width);
            assert(view.value_ok(connect.value.raw as int));
            let fixed: bool = connect.target.dynamic.is_none() && match connect.target.range {
                None => value_width == width,
                Some(range) => range.msb >= range.lsb && range.msb < width && value_width - 1
                    == range.msb - range.lsb,
            };
            assert(fixed == is_static(view, connect));
            if !fixed {
                assert(!is_static(view, view.connects[i as int]));
                return None;
            }
            if count == 0 {
                source = connect.source;
                assert(drives_first(view, signal, i as int));
            }
            count += 1;
        }
        i += 1;
    }
    Some((count, source))
}

/// A signal to be put together: its bits and where it was driven.
struct WireCandidate {
    signal: SignalId,
    bits: Vec<ValueBit>,
    source: SourceSpan,
}

spec fn candidate_ok(module: ModuleView, candidate: WireCandidate) -> bool {
    &&& candidate.signal.raw < module.signals.len()
    &&& coalescible(module, candidate.signal)
    &&& from_first(module, candidate.signal, candidate.source)
    &&& candidate.bits@.len() == module.signals[candidate.signal.raw as int].ty.width
    &&& forall|b: int|
        0 <= b < candidate.bits@.len() ==> Some(#[trigger] candidate.bits@[b]) == bit_driver(
            module,
            candidate.signal,
            b,
        )
}

/// The candidate of a signal, if it is one.
fn wire_candidate(module: &WordModule, drivers: &SignalDriverIndex, signal: SignalId)
    -> (candidate: Option<WireCandidate>)
    requires
        module@.wf(),
        drivers.describes(module@),
        signal.raw < module@.signals.len(),
    ensures
        candidate is Some <==> coalescible(module@, signal),
        candidate matches Some(found) ==> found.signal == signal && candidate_ok(module@, found),
{
    let ghost view = module@;
    let stored = module.signals[signal.raw as usize];
    let wire: bool = match stored.kind {
        SignalKind::Wire => true,
        _ => false,
    };
    if !wire || stored.ty.width <= 1 || stored.preserved {
        return None;
    }
    let (count, source) = match static_drivers(module, signal) {
        Some(found) => found,
        None => return None,
    };
    if count < 2 {
        return None;
    }
    let mut bits: Vec<ValueBit> = Vec::new();
    let mut b: u32 = 0;
    proof {
        assert(SignalId { raw: signal.raw as int as u32 } == signal);
        assert(drivers.bits@[signal.raw as int]@.len() == stored.ty.width);
    }
    while b < stored.ty.width
        invariant
            view == module@,
            drivers.describes(view),
            signal.raw < view.signals.len(),
            stored == view.signals[signal.raw as int],
            (SignalId { raw: signal.raw as int as u32 }) == signal,
            drivers.bits@[signal.raw as int]@.len() == stored.ty.width,
            b <= stored.ty.width,
            bits@.len() == b,
            forall|c: int|
                0 <= c < b ==> Some(#[trigger] bits@[c]) == bit_driver(view, signal, c),
        decreases stored.ty.width - b,
    {
        let driver = drivers.bits[signal.raw as usize][b as usize];
        assert(drivers.bits@[signal.raw as int]@[b as int] == bit_driver(view, signal, b as int));
        match driver {
            Some(bit) => {
                bits.push(bit);
            },
            None => {
                assert(bit_driver(view, signal, b as int) is None);
                return None;
            },
        }
        b += 1;
    }
    proof {
        assert forall|c: int| 0 <= c < stored.ty.width implies (#[trigger] bit_driver(
            view,
            signal,
            c,
        )) is Some by {
            assert(Some(bits@[c]) == bit_driver(view, signal, c));
        }
    }
    Some(WireCandidate { signal, bits, source })
}

/// Replaces the pieces of each coalescible wire by one connection of the whole.
#[verifier::rlimit(80)]
pub fn coalesce_static_wire_drivers(module: &mut WordModule) -> (result: Result<(), SynthError>)
    requires
        old(module)@.wf(),
    ensures
        final(module)@.wf(),
        result is Ok ==> {
            &&& coalesced(old(module)@, final(module)@)
            &&& old(module)@.with_connects(final(module)@.connects).grows_to(final(module)@)
        },
        result matches Err(error) ==> ran_out(final(module)@, error) && old(module)@.grows_to(
            final(module)@,
        ),
{
    let ghost start = module@;
    let drivers = SignalDriverIndex::new(module);
    let mut candidates: Vec<WireCandidate> = Vec::new();
    let mut s: usize = 0;
    while s < module.signals.len()
        invariant
            start == module@,
            start.wf(),
            drivers.describes(start),
            s <= start.signals.len(),
            candidates@.len() == coalesced_signals(start, s as nat).len(),
            forall|k: int|
                0 <= k < candidates@.len() ==> candidate_ok(start, #[trigger] candidates@[k])
                    && candidates@[k].signal == coalesced_signals(start, s as nat)[k],
        decreases module.signals.len() - s,
    {
        let signal = SignalId { raw: s as u32 };
        let ghost before = candidates@;
        let ghost below = coalesced_signals(start, s as nat);
        match wire_candidate(module, &drivers, signal) {
            Some(candidate) => {
                candidates.push(candidate);
            },
            None => {},
        }
        proof {
            let now = coalesced_signals(start, (s + 1) as nat);
            assert forall|k: int| 0 <= k < candidates@.len() implies candidate_ok(
                start,
                #[trigger] candidates@[k],
            ) && candidates@[k].signal == now[k] by {
                if k < before.len() {
                    assert(candidates@[k] == before[k]);
                }
            }
        }
        s += 1;
    }
    let ghost signals = coalesced_signals(start, start.signals.len());
    proof {
        lemma_stable(start, start);
    }
    let mut connects: Vec<Connect> = Vec::new();
    let mut i: usize = 0;
    assert(start.connects.take(0) =~= seq![]);
    while i < module.connects.len()
        invariant
            start == module@,
            start.wf(),
            signals == coalesced_signals(start, start.signals.len()),
            i <= start.connects.len(),
            connects@ == kept_connects(start, start.connects.take(i as int)),
            candidates@.len() == signals.len(),
            forall|k: int|
                0 <= k < candidates@.len() ==> candidate_ok(start, #[trigger] candidates@[k])
                    && candidates@[k].signal == signals[k],
            forall|j: int| 0 <= j < connects@.len() ==> start.connect_ok(#[trigger] connects@[j]),
        decreases module.connects.len() - i,
    {
        let connect = module.connects[i];
        assert(start.connect_ok(start.connects[i as int]));
        assert(start.connects.take(i + 1).drop_last() =~= start.connects.take(i as int));
        let mut replaced: bool = false;
        let mut k: usize = 0;
        while k < candidates.len()
            invariant
                k <= candidates@.len(),
                replaced == exists|j: int|
                    0 <= j < k && (#[trigger] candidates@[j]).signal == connect.target.signal,
            decreases candidates.len() - k,
        {
            if candidates[k].signal == connect.target.signal {
                replaced = true;
                assert(candidates@[k as int].signal == connect.target.signal);
            }
            k += 1;
        }
        proof {
            if replaced {
                let j = choose|j: int|
                    0 <= j < candidates@.len() && (#[trigger] candidates@[j]).signal
                        == connect.target.signal;
                assert(candidate_ok(start, candidates@[j]));
            } else if coalescible(start, connect.target.signal) {
                lemma_signal_listed(start, start.signals.len(), connect.target.signal);
                let j = choose|j: int|
                    0 <= j < signals.len() && signals[j] == connect.target.signal;
                assert(candidates@[j].signal == signals[j]);
            }
        }
        if !replaced {
            connects.push(connect);
        }
        i += 1;
    }
    assert(start.connects.take(i as int) =~= start.connects);
    let ghost kept = connects@;
    let mut k: usize = 0;
    while k < candidates.len()
        invariant
            start == old(module)@,
            stable(start, module@),
            signals == coalesced_signals(start, start.signals.len()),
            k <= candidates@.len(),
            candidates@.len() == signals.len(),
            forall|k: int|
                0 <= k < candidates@.len() ==> candidate_ok(start, #[trigger] candidates@[k])
                    && candidates@[k].signal == signals[k],
            connects@.len() == kept.len() + k,
            forall|i: int| 0 <= i < kept.len() ==> #[trigger] connects@[i] == kept[i],
            forall|j: int|
                0 <= j < k ==> whole_driver(
                    start,
                    module@,
                    #[trigger] signals[j],
                    connects@[kept.len() + j],
                ),
        decreases candidates.len() - k,
    {
        let candidate = &candidates[k];
        let ghost before = module@;
        let ghost was = connects@;
        assert(candidate_ok(start, candidates@[k as int]));
        let ty = module.signals[candidate.signal.raw as usize].ty;
        proof {
            assert forall|b: int| 0 <= b < candidate.bits@.len() implies before.has(
                (#[trigger] candidate.bits@[b]).value,
            ) && candidate.bits@[b].bit < before.ty(candidate.bits@[b].value).width by {
                assert(Some(candidate.bits@[b]) == bit_driver(start, candidate.signal, b));
                crate::word::drivers::lemma_folded_driver(
                    start,
                    candidate.signal,
                    b,
                    start.connects.len(),
                );
                assert(before.ty(candidate.bits@[b].value) == start.ty(
                    candidate.bits@[b].value,
                ));
            }
        }
        let value = match assemble(module, &candidate.bits, ty, candidate.source) {
            Ok(value) => value,
            Err(error) => return Err(error),
        };
        let connect = Connect {
            target: LValue::signal(candidate.signal),
            value,
            source: candidate.source,
        };
        connects.push(connect);
        proof {
            assert forall|j: int| 0 <= j < k + 1 implies whole_driver(
                start,
                module@,
                #[trigger] signals[j],
                connects@[kept.len() + j],
            ) by {
                if j < k {
                    assert(connects@[kept.len() + j] == was[kept.len() + j]);
                    let earlier = was[kept.len() + j];
                    assert(whole_driver(start, before, signals[j], earlier));
                    assert(module@.ty(earlier.value) == before.ty(earlier.value));
                    assert(candidate_ok(start, candidates@[j]));
                    let bits = driver_bits(start, signals[j]);
                    assert forall|b: int| 0 <= b < bits.len() implies before.has(
                        (#[trigger] bits[b]).value,
                    ) by {
                        assert(Some(candidates@[j].bits@[b]) == bit_driver(start, signals[j], b));
                        crate::word::drivers::lemma_folded_driver(
                            start,
                            signals[j],
                            b,
                            start.connects.len(),
                        );
                        assert(before.ty(bits[b].value) == start.ty(bits[b].value));
                    }
                    lemma_joins_on(
                        before,
                        module@,
                        earlier.value,
                        bits,
                        start.signals[signals[j].raw as int].ty,
                    );
                    assert forall|env: Env| #[trigger] word_of(module@, env, earlier.value)
                        == driver_word(start, env, signals[j]) by {
                        assert(word_of(before, env, earlier.value) == driver_word(
                            start,
                            env,
                            signals[j],
                        ));
                    }
                } else {
                    assert(candidate.bits@ =~= driver_bits(start, candidate.signal)) by {
                        assert forall|b: int| 0 <= b < candidate.bits@.len() implies candidate.bits@[b]
                            == driver_bits(start, candidate.signal)[b] by {
                            assert(Some(candidate.bits@[b]) == bit_driver(
                                start,
                                candidate.signal,
                                b,
                            ));
                        }
                    }
                    assert forall|env: Env| #[trigger] word_of(module@, env, value) == driver_word(
                        start,
                        env,
                        signals[j],
                    ) by {
                        assert(bits_word(before, env, candidate.bits@) =~= driver_word(
                            start,
                            env,
                            candidate.signal,
                        )) by {
                            assert forall|b: int| 0 <= b < candidate.bits@.len() implies bits_word(
                                before,
                                env,
                                candidate.bits@,
                            )[b] == driver_word(start, env, candidate.signal)[b] by {
                                assert(Some(candidate.bits@[b]) == bit_driver(
                                    start,
                                    candidate.signal,
                                    b,
                                ));
                                crate::word::drivers::lemma_folded_driver(
                                    start,
                                    candidate.signal,
                                    b,
                                    start.connects.len(),
                                );
                                assert(word_of(before, env, candidate.bits@[b].value) == word_of(
                                    start,
                                    env,
                                    candidate.bits@[b].value,
                                ));
                            }
                        }
                    }
                }
            }
        }
        k += 1;
    }
    let ghost built = module@;
    proof {
        assert forall|i: int| 0 <= i < connects@.len() implies built.connect_ok(
            #[trigger] connects@[i],
        ) by {
            if i < kept.len() {
                assert(start.connect_ok(kept[i]));
            } else {
                let j = i - kept.len();
                assert(whole_driver(start, built, signals[j], connects@[kept.len() + j]));
                assert(candidate_ok(start, candidates@[j]));
            }
        }
        crate::word::builders::lemma_with_connects(built, connects@);
    }
    module.connects = connects;
    proof {
        let done = module@;
        assert(done == built.with_connects(connects@));
        assert forall|j: int| 0 <= j < signals.len() implies whole_driver(
            start,
            done,
            #[trigger] signals[j],
            done.connects[kept.len() + j],
        ) by {
            let connect = connects@[kept.len() + j];
            assert(whole_driver(start, built, signals[j], connect));
            lemma_joins_connects(
                built,
                connects@,
                connect.value,
                driver_bits(start, signals[j]),
                start.signals[signals[j].raw as int].ty,
            );
            assert forall|env: Env| #[trigger] word_of(done, env, connect.value) == driver_word(
                start,
                env,
                signals[j],
            ) by {
                crate::word::semantics::lemma_eval_grows(
                    built,
                    done,
                    env,
                    connect.value.raw as int,
                );
                assert(word_of(built, env, connect.value) == driver_word(start, env, signals[j]));
            }
        }
    }
    Ok(())
}

proof fn lemma_signal_listed(module: ModuleView, count: nat, signal: SignalId)
    requires
        count <= module.signals.len(),
        module.signals.len() <= u32::MAX,
        signal.raw < count,
        coalescible(module, signal),
    ensures
        coalesced_signals(module, count).contains(signal),
    decreases count,
{
    let below = coalesced_signals(module, (count - 1) as nat);
    let now = coalesced_signals(module, count);
    if signal.raw == count - 1 {
        assert(now[below.len() as int] == signal);
    } else {
        lemma_signal_listed(module, (count - 1) as nat, signal);
        let k = choose|k: int| 0 <= k < below.len() && below[k] == signal;
        assert(now[k] == signal);
    }
}

} // verus!
