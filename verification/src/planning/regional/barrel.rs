//! Single bits of dynamic extractions, chosen step by step.

use super::carry::lemma_operation_word;
use super::failure::{leads, Place};
use super::importer::{
    bit_agrees, extraction_of, high_bits, lemma_stands_step, lemma_step_linked, lemma_step_trans,
    lemma_stops_layer, lemma_stops_next, lemma_stops_spent, linked, select_stages, shifted_bit,
    stands_for, Import, RegionalWordImporter,
};
use super::operations::{lemma_bit_from, lemma_bit_to};
use super::pieces::{bit_fn, lemma_made};
use super::toll::{
    barrel_breadth, breadth, lemma_costs, lemma_few_cost, lemma_nothing_passed, lemma_passed,
    lemma_passed_both, lemma_passed_few, lemma_passed_more,
};
use crate::error::{Invariant, SynthError};
use crate::planning::architecture::{bit_length_is_tight, length_of, lemma_length_bound, stride};
use crate::word::bits::{
    any_bit, bit_nat, bits_of, lemma_any_bit, lemma_nat_bound, lemma_nat_push, lemma_nat_split,
    nat_of,
};
use crate::word::module::ModuleView;
use crate::word::semantics::{extract_bits, lemma_eval_width, word_of, Env};
use crate::word::types::{op_inputs, BinaryOp, OpId, OpView, SourceSpan, ValueId};
use vstd::arithmetic::power2::{lemma2_to64, lemma_pow2_pos, lemma_pow2_strictly_increases, pow2};
use vstd::prelude::*;

verus! {

/// The bit that lies above another by the low bits of an offset, as long as the
/// whole run stays inside of the value.
pub open spec fn barrel_bit(
    source: ModuleView,
    value: ValueId,
    offset: ValueId,
    stage: nat,
    bit: nat,
    base: nat,
    maximum: nat,
) -> spec_fn(Env) -> bool {
    |env: Env|
        {
            let low = nat_of(word_of(source, env, offset).take(stage as int));
            base + low <= maximum && word_of(source, env, value)[(bit + low) as int]
        }
}

/// A dynamic extraction of the region.
pub open spec fn is_extraction(
    importer: &RegionalWordImporter,
    operation: OpId,
    value: ValueId,
    offset: ValueId,
    width: u32,
) -> bool {
    &&& importer.in_region(operation)
    &&& importer.source@.operations[operation.raw as int].kind == (OpView::DynamicExtract {
        value,
        offset,
        width,
    })
}

/// What the types of an extraction say.
proof fn lemma_extraction_types(
    importer: &RegionalWordImporter,
    operation: OpId,
    value: ValueId,
    offset: ValueId,
    width: u32,
)
    requires
        importer.inv(),
        is_extraction(importer, operation, value, offset, width),
    ensures
        importer.source@.has(value),
        importer.source@.has(offset),
        importer.source@.ty(value).width >= 1,
        importer.source@.ty(offset).width >= 1,
        importer.source@.ty(importer.source@.operations[operation.raw as int].result).width == width,
        extraction_of(importer.source@, operation.raw as int) == Some((value, offset, width)),
{
    let source = importer.source@;
    assert(source.operation_ok(operation.raw as int));
    let inputs = op_inputs(source.operations[operation.raw as int].kind);
    assert(inputs[0] == value && inputs[1] == offset);
    assert(source.value_ok(value.raw as int));
    assert(source.value_ok(offset.raw as int));
}

/// The word of an extraction.
proof fn lemma_extraction_word(
    importer: &RegionalWordImporter,
    operation: OpId,
    value: ValueId,
    offset: ValueId,
    width: u32,
    env: Env,
    bit: int,
)
    requires
        importer.inv(),
        is_extraction(importer, operation, value, offset, width),
        0 <= bit < width,
    ensures
        word_of(
            importer.source@,
            env,
            importer.source@.operations[operation.raw as int].result,
        )[bit] == (nat_of(word_of(importer.source@, env, offset)) + width <= importer.source@.ty(
            value,
        ).width && word_of(importer.source@, env, value)[nat_of(
            word_of(importer.source@, env, offset),
        ) + bit]),
{
    let source = importer.source@;
    lemma_extraction_types(importer, operation, value, offset, width);
    lemma_operation_word(source, env, operation.raw as int);
    lemma_eval_width(source, env, value.raw as int);
    let word = word_of(source, env, value);
    let number = nat_of(word_of(source, env, offset));
    if number + width <= word.len() {
        assert(extract_bits(word, number as int, width as nat)[bit] == word[number + bit]);
    } else {
        lemma_pow2_pos(bit as nat);
        assert(0int / (pow2(bit as nat) as int) == 0) by (nonlinear_arith)
            requires
                pow2(bit as nat) > 0,
        ;
        assert(bits_of(0, width as nat)[bit] == false);
    }
}

/// One more bit of an offset.
proof fn lemma_next_bit(word: Seq<bool>, stage: int)
    requires
        0 <= stage < word.len(),
    ensures
        nat_of(word.take(stage + 1)) == nat_of(word.take(stage)) + bit_nat(word[stage]) * pow2(
            stage as nat,
        ),
{
    assert(word.take(stage + 1) =~= word.take(stage).push(word[stage]));
    lemma_nat_push(word.take(stage), word[stage]);
}

fn two_to(stage: u32) -> (power: u64)
    requires
        stage <= 32,
    ensures
        power == pow2(stage as nat),
        1 <= power <= 0x1_0000_0000,
{
    proof {
        lemma2_to64();
        lemma_pow2_pos(stage as nat);
        if stage < 32 {
            lemma_pow2_strictly_increases(stage as nat, 32);
        }
    }
    stride(stage) as u64
}

impl<'a> RegionalWordImporter<'a> {
    /// A bit of an extraction at an offset that is known, or not.
    pub fn active_extraction(
        &mut self,
        operation: OpId,
        value: ValueId,
        offset: ValueId,
        width: u32,
        bit: u32,
        span: SourceSpan,
        fuel: u128,
    ) -> (result: Result<ValueId, SynthError>)
        requires
            old(self).inv(),
            old(self).operands_within(operation),
            is_extraction(old(self), operation, value, offset, width),
            bit < width,
        ensures
            old(self).costs(final(self), Place::Extraction(operation)),
            result matches Ok(local) ==> old(self).went_on(final(self)) && bit_agrees(
                final(self).x(),
                old(self).source@.operations[operation.raw as int].result,
                bit as int,
                local,
            ),
            result matches Err(error) ==> old(self).stops(
                final(self),
                Place::Extraction(operation),
                fuel as int,
                67,
                error,
            ),
        decreases fuel,
    {
        let ghost start = *self;
        let ghost whole_place = Place::Extraction(operation);
        proof {
            lemma_few_cost(&start, self, whole_place);
            lemma_nothing_passed(&start, self, whole_place);
        }
        let ghost source = self.source@;
        let ghost output = source.operations[operation.raw as int].result;
        if fuel == 0 {
            proof {
                lemma_stops_spent(&start, self, Place::Extraction(operation), 0, 67);
            }
            return Err(SynthError::Invariant(Invariant::CombinationalCycle));
        }
        proof {
            lemma_extraction_types(&start, operation, value, offset, width);
            assert(op_inputs(source.operations[operation.raw as int].kind)[0] == value);
            assert(op_inputs(source.operations[operation.raw as int].kind)[1] == offset);
            assert(source.operation_ok(operation.raw as int));
        }
        let input_width: u32 = self.source.values[value.raw as usize].ty.width;
        match self.known_number(offset) {
            Some(number) => {
                if number as u64 + width as u64 <= input_width as u64 {
                    let result = self.import_value_bit(value, number + bit, span, fuel - 1);
                    proof {
                        let next = Place::Bit(value, number + bit);
                        lemma_chosen_leads(&start, operation, value, number + bit);
                        lemma_passed(&start, &start, self, whole_place, next, 0, 0);
                        lemma_costs(&start, self, whole_place, 1, 0);
                        if result is Err {
                            let error = result->Err_0;
                            lemma_chosen_stops(
                                &start,
                                &start,
                                self,
                                operation,
                                value,
                                number + bit,
                                fuel as int,
                                67,
                                error,
                            );
                        }
                        if result is Ok {
                            let y = self.x();
                            lemma_step_linked(start.x(), y);
                            let f = bit_fn(source, value, number + bit);
                            lemma_bit_to(y, value, number + bit, result->Ok_0);
                            assert forall|outer: Env, inner: Env| #[trigger]
                                linked(y, outer, inner) implies f(outer) == word_of(
                                y.source,
                                outer,
                                output,
                            )[bit as int] by {
                                assert(linked(start.x(), outer, inner));
                                lemma_extraction_word(
                                    &start,
                                    operation,
                                    value,
                                    offset,
                                    width,
                                    outer,
                                    bit as int,
                                );
                            }
                            lemma_bit_from(y, output, bit as int, result->Ok_0, f);
                        }
                    }
                    result
                } else {
                    let result = self.constant_bit(false, span);
                    proof {
                        lemma_few_cost(&start, self, whole_place);
                        if result is Ok {
                            let y = self.x();
                            lemma_step_linked(start.x(), y);
                            let f = |env: Env| false;
                            assert forall|outer: Env, inner: Env| #[trigger]
                                linked(y, outer, inner) implies f(outer) == word_of(
                                y.source,
                                outer,
                                output,
                            )[bit as int] by {
                                assert(linked(start.x(), outer, inner));
                                lemma_extraction_word(
                                    &start,
                                    operation,
                                    value,
                                    offset,
                                    width,
                                    outer,
                                    bit as int,
                                );
                            }
                            lemma_bit_from(y, output, bit as int, result->Ok_0, f);
                        }
                    }
                    result
                }
            },
            None => {
                let result = self.import_dynamic_extract_bit(
                    operation,
                    value,
                    offset,
                    width,
                    bit,
                    span,
                    fuel - 1,
                );
                proof {
                    if result is Err {
                        let error = result->Err_0;
                        lemma_stops_layer(
                            &start,
                            &start,
                            self,
                            Place::Extraction(operation),
                            fuel as int,
                            67,
                            fuel - 1,
                            66,
                            error,
                        );
                    }
                }
                result
            },
        }
    }

    /// A bit of an extraction: chosen by the low bits of the offset, and clear
    /// where a high bit is set.
    #[verifier::rlimit(60)]
    fn import_dynamic_extract_bit(
        &mut self,
        operation: OpId,
        value: ValueId,
        offset: ValueId,
        width: u32,
        bit: u32,
        span: SourceSpan,
        fuel: u128,
    ) -> (result: Result<ValueId, SynthError>)
        requires
            old(self).inv(),
            old(self).operands_within(operation),
            is_extraction(old(self), operation, value, offset, width),
            bit < width,
        ensures
            old(self).costs(final(self), Place::Extraction(operation)),
            result matches Ok(local) ==> old(self).went_on(final(self)) && bit_agrees(
                final(self).x(),
                old(self).source@.operations[operation.raw as int].result,
                bit as int,
                local,
            ),
            result matches Err(error) ==> old(self).stops(
                final(self),
                Place::Extraction(operation),
                fuel as int,
                66,
                error,
            ),
        decreases fuel,
    {
        let ghost start = *self;
        let ghost whole_place = Place::Extraction(operation);
        proof {
            lemma_few_cost(&start, self, whole_place);
            lemma_nothing_passed(&start, self, whole_place);
        }
        assert(self.within(value) && self.within(offset)) by {
            let inputs = op_inputs(self.source@.operations[operation.raw as int].kind);
            assert(inputs[0] == value && inputs[1] == offset);
        }
        let ghost source = self.source@;
        let ghost output = source.operations[operation.raw as int].result;
        if fuel == 0 {
            proof {
                lemma_stops_spent(&start, self, Place::Extraction(operation), 0, 66);
            }
            return Err(SynthError::Invariant(Invariant::CombinationalCycle));
        }
        proof {
            lemma_extraction_types(&start, operation, value, offset, width);
            assert(source.operation_ok(operation.raw as int));
        }
        let input_width: u32 = self.source.values[value.raw as usize].ty.width;
        let offset_width: u32 = self.source.values[offset.raw as usize].ty.width;
        let length: u32 = length_of(input_width as u128);
        proof {
            lemma2_to64();
            lemma_length_bound(input_width as nat, 32);
        }
        let stages: u32 = if offset_width <= length {
            offset_width
        } else {
            length
        };
        if width > input_width {
            assert(false);
            return Err(SynthError::Invariant(Invariant::WidthMismatch));
        }
        let maximum: u32 = input_width - width;
        let chosen_bit = self.import_dynamic_barrel_bit(
            operation,
            value,
            offset,
            width,
            stages,
            bit,
            0,
            span,
            fuel - 1,
        );
        let ghost taken = barrel_breadth(stages as nat);
        let ghost high_taken = offset_width as nat;
        let ghost used = 2 * taken + 2 * high_taken + 2;
        proof {
            assert(stages as nat == select_stages(offset_width as nat, input_width as nat));
            assert(breadth(source, whole_place) == taken + high_taken);
            assert(taken >= 1);
            lemma_costs(&start, self, whole_place, taken, 2 * taken);
        }
        let selected = match chosen_bit {
            Ok(selected) => selected,
            Err(error) => {
                proof {
                    lemma_stops_layer(
                        &start,
                        &start,
                        self,
                        Place::Extraction(operation),
                        fuel as int,
                        66,
                        fuel - 1,
                        2 * stages + 1,
                        error,
                    );
                }
                return Err(error);
            },
        };
        let ghost chosen = *self;
        let ghost f = barrel_bit(
            source,
            value,
            offset,
            stages as nat,
            bit as nat,
            0,
            maximum as nat,
        );
        if stages == offset_width {
            proof {
                let y = self.x();
                assert forall|outer: Env, inner: Env| #[trigger]
                    linked(y, outer, inner) implies f(outer) == word_of(
                    y.source,
                    outer,
                    output,
                )[bit as int] by {
                    lemma_extraction_word(
                        &start,
                        operation,
                        value,
                        offset,
                        width,
                        outer,
                        bit as int,
                    );
                    lemma_eval_width(source, outer, offset.raw as int);
                    assert(word_of(source, outer, offset).take(stages as int) =~= word_of(
                        source,
                        outer,
                        offset,
                    ));
                }
                lemma_bit_from(y, output, bit as int, selected, f);
            }
            return Ok(selected);
        }
        let high_bit = self.import_high_bits(
            operation,
            value,
            offset,
            width,
            stages,
            span,
            fuel - 1,
        );
        proof {
            lemma_passed_both(
                &start,
                &chosen,
                self,
                whole_place,
                taken,
                2 * taken,
                high_taken,
                2 * high_taken + 2,
            );
            lemma_costs(&start, self, whole_place, taken + high_taken, used);
        }
        let high = match high_bit {
            Ok(high) => high,
            Err(error) => {
                proof {
                    lemma_stops_layer(
                        &start,
                        &chosen,
                        self,
                        Place::Extraction(operation),
                        fuel as int,
                        66,
                        fuel - 1,
                        1,
                        error,
                    );
                }
                return Err(error);
            },
        };
        let ghost above = *self;
        let ghost h = high_bits(source, offset, stages as nat);
        proof {
            lemma_step_trans(start.x(), chosen.x(), above.x());
            lemma_stands_step(chosen.x(), above.x(), selected, f);
        }
        let nothing = self.constant_bit(false, span);
        proof {
            lemma_passed_few(&start, &above, self, whole_place, taken + high_taken, used, 2);
            lemma_costs(&start, self, whole_place, taken + high_taken, used + 2);
        }
        let zero = match nothing {
            Ok(zero) => zero,
            Err(error) => return Err(error),
        };
        let ghost ready = *self;
        let ghost z = |env: Env| false;
        proof {
            lemma_step_trans(start.x(), above.x(), ready.x());
            lemma_stands_step(above.x(), ready.x(), selected, f);
            lemma_stands_step(above.x(), ready.x(), high, h);
        }
        let result = self.put_choice(
            high,
            zero,
            selected,
            span,
            Ghost(h),
            Ghost(z),
            Ghost(f),
            Ghost(operation),
        );
        proof {
            lemma_passed_few(&start, &ready, self, whole_place, taken + high_taken, used + 2, 2);
            lemma_costs(&start, self, whole_place, taken + high_taken, used + 4);
            if result is Ok {
                lemma_step_trans(start.x(), ready.x(), self.x());
                let y = self.x();
                let whole = |env: Env|
                    if h(env) {
                        z(env)
                    } else {
                        f(env)
                    };
                assert forall|outer: Env, inner: Env| #[trigger]
                    linked(y, outer, inner) implies whole(outer) == word_of(
                    y.source,
                    outer,
                    output,
                )[bit as int] by {
                    lemma_extraction_word(
                        &start,
                        operation,
                        value,
                        offset,
                        width,
                        outer,
                        bit as int,
                    );
                    let word = word_of(source, outer, offset);
                    lemma_eval_width(source, outer, offset.raw as int);
                    lemma_nat_split(word, stages as int);
                    lemma_any_bit(word.skip(stages as int));
                    bit_length_is_tight(input_width as nat);
                    let rest = nat_of(word.skip(stages as int));
                    if rest != 0 {
                        assert(pow2(stages as nat) * rest >= pow2(stages as nat)) by (
                            nonlinear_arith)
                            requires
                                rest >= 1,
                        ;
                    } else {
                        assert(pow2(stages as nat) * rest == 0) by (nonlinear_arith)
                            requires
                                rest == 0,
                        ;
                    }
                }
                lemma_bit_from(y, output, bit as int, result->Ok_0, whole);
            }
        }
        result
    }

    /// Whether a high bit of the offset of an extraction is set.
    #[verifier::rlimit(60)]
    fn import_high_bits(
        &mut self,
        operation: OpId,
        value: ValueId,
        offset: ValueId,
        width: u32,
        stages: u32,
        span: SourceSpan,
        fuel: u128,
    ) -> (result: Result<ValueId, SynthError>)
        requires
            old(self).inv(),
            old(self).operands_within(operation),
            is_extraction(old(self), operation, value, offset, width),
            stages == select_stages(
                old(self).source@.ty(offset).width as nat,
                old(self).source@.ty(value).width as nat,
            ),
        ensures
            old(self).passed(
                final(self),
                Place::Extraction(operation),
                old(self).source@.ty(offset).width as nat,
                2 * old(self).source@.ty(offset).width as nat + 2,
            ),
            result matches Ok(local) ==> old(self).went_on(final(self)) && stands_for(
                final(self).x(),
                local,
                high_bits(old(self).source@, offset, stages as nat),
            ),
            result matches Err(error) ==> old(self).stops(
                final(self),
                Place::Extraction(operation),
                fuel as int,
                1,
                error,
            ),
        decreases fuel,
    {
        let ghost start = *self;
        let ghost whole_place = Place::Extraction(operation);
        proof {
            lemma_few_cost(&start, self, whole_place);
            lemma_nothing_passed(&start, self, whole_place);
            lemma_passed_more(
                &start,
                self,
                whole_place,
                0,
                0,
                start.source@.ty(offset).width as nat,
                2 * start.source@.ty(offset).width as nat + 2,
            );
        }
        let ghost source = self.source@;
        if fuel == 0 {
            proof {
                lemma_stops_spent(&start, self, Place::Extraction(operation), 0, 1);
            }
            return Err(SynthError::Invariant(Invariant::CombinationalCycle));
        }
        proof {
            lemma_extraction_types(&start, operation, value, offset, width);
            assert(op_inputs(source.operations[operation.raw as int].kind)[0] == value);
            assert(op_inputs(source.operations[operation.raw as int].kind)[1] == offset);
            lemma_made(&start, self);
        }
        let ghost whole = high_bits(source, offset, stages as nat);
        if let Some(high) = self.recall(3, operation.raw as u64, 0, 0) {
            self.extend_sources(high);
            proof {
                lemma_nothing_passed(&start, self, whole_place);
                lemma_passed_more(
                    &start,
                    self,
                    whole_place,
                    0,
                    0,
                    source.ty(offset).width as nat,
                    2 * source.ty(offset).width as nat + 2,
                );
            }
            return Ok(high);
        }
        let offset_width: u32 = self.source.values[offset.raw as usize].ty.width;
        let mut high: Option<ValueId> = None;
        let mut done = false;
        let mut place: u32 = stages;
        proof {
            let nothing = some_between(source, offset, stages as int, stages as int);
            assert forall|outer: Env, inner: Env| #[trigger]
                linked(start.x(), outer, inner) implies !nothing(outer) by {
                lemma_eval_width(source, outer, offset.raw as int);
                assert(word_of(source, outer, offset).subrange(stages as int, stages as int).len()
                    == 0);
            }
        }
        while place < offset_width && !done
            invariant
                fuel > 0,
                start == *old(self),
                whole_place == Place::Extraction(operation),
                start.passed(
                    self,
                    whole_place,
                    (place - stages) as nat,
                    2 * (place - stages) as nat + if done {
                        2nat
                    } else {
                        0nat
                    },
                ),
                extraction_of(source, operation.raw as int) == Some((value, offset, width)),
                start.inv(),
                start.within(offset),
                start.operands_within(operation),
                is_extraction(&start, operation, value, offset, width),
                start.went_on(self),
                source == start.source@,
                source.has(offset),
                offset_width == source.ty(offset).width,
                stages <= place <= offset_width,
                done ==> high is Some && stands_for(self.x(), high->0, |env: Env| true),
                done ==> forall|outer: Env, inner: Env| #[trigger]
                    linked(start.x(), outer, inner) ==> whole(outer),
                whole == high_bits(source, offset, stages as nat),
                !done ==> match high {
                    Some(local) => stands_for(
                        self.x(),
                        local,
                        some_between(source, offset, stages as int, place as int),
                    ),
                    None => forall|outer: Env, inner: Env| #[trigger]
                        linked(start.x(), outer, inner) ==> !some_between(
                            source,
                            offset,
                            stages as int,
                            place as int,
                        )(outer),
                },
            decreases offset_width - place, (if done {
                0int
            } else {
                1int
            }),
        {
            let ghost before = *self;
            let ghost span_before = some_between(source, offset, stages as int, place as int);
            let ghost span_after = some_between(source, offset, stages as int, place + 1);
            let ghost here = bit_fn(source, offset, place as int);
            proof {
                lemma_step_linked(start.x(), self.x());
                assert forall|env: Env| #[trigger] span_after(env) == (span_before(env) || here(
                    env,
                )) by {
                    lemma_some_more(source, offset, stages as int, place as int, env);
                }
            }
            match self.known_bit(offset, place) {
                Some(false) => {
                    proof {
                        if let Some(local) = high {
                            assert forall|outer: Env, inner: Env| #[trigger]
                                linked(self.x(), outer, inner) implies word_of(
                                self.module@,
                                inner,
                                local,
                            ) == seq![span_after(outer)] by {
                                assert(span_after(outer) == (span_before(outer) || here(outer)));
                            }
                        } else {
                            assert forall|outer: Env, inner: Env| #[trigger]
                                linked(start.x(), outer, inner) implies !span_after(outer) by {
                                assert(span_after(outer) == (span_before(outer) || here(outer)));
                                lemma_known_carries(&start, self, offset, place);
                            }
                        }
                    }
                    proof {
                        lemma_passed_more(
                            &start,
                            self,
                            whole_place,
                            (place - stages) as nat,
                            2 * (place - stages) as nat,
                            (place + 1 - stages) as nat,
                            2 * (place + 1 - stages) as nat,
                        );
                    }
                    place += 1;
                },
                Some(true) => {
                    proof {
                        assert forall|outer: Env, inner: Env| #[trigger]
                            linked(start.x(), outer, inner) implies whole(outer) by {
                            lemma_known_carries(&start, self, offset, place);
                            lemma_eval_width(source, outer, offset.raw as int);
                            assert(word_of(source, outer, offset).skip(stages as int)[place
                                - stages] == word_of(source, outer, offset)[place as int]);
                        }
                    }
                    let set = self.constant_bit(true, span);
                    proof {
                        let count = (place - stages) as nat;
                        lemma_passed_few(&start, &before, self, whole_place, count, 2 * count, 2);
                        lemma_passed_more(
                            &start,
                            self,
                            whole_place,
                            count,
                            2 * count + 2,
                            offset_width as nat,
                            2 * offset_width as nat + 2,
                        );
                    }
                    let one = match set {
                        Ok(one) => one,
                        Err(error) => return Err(error),
                    };
                    proof {
                        lemma_step_trans(start.x(), before.x(), self.x());
                    }
                    high = Some(one);
                    done = true;
                },
                None => {
                    let carried = self.import_value_bit(offset, place, span, fuel - 1);
                    let ghost count = (place - stages) as nat;
                    proof {
                        let next = Place::Bit(offset, place as int);
                        lemma_chosen_leads(&start, operation, offset, place as int);
                        lemma_passed(&start, &before, self, whole_place, next, count, 2 * count);
                        lemma_passed_more(
                            &start,
                            self,
                            whole_place,
                            count + 1,
                            2 * count,
                            offset_width as nat,
                            2 * offset_width as nat + 2,
                        );
                        lemma_passed_more(
                            &start,
                            self,
                            whole_place,
                            count + 1,
                            2 * count,
                            count + 1,
                            2 * count + 2,
                        );
                    }
                    let part = match carried {
                        Ok(part) => part,
                        Err(error) => {
                            proof {
                            lemma_chosen_stops(
                                &start,
                                &before,
                                self,
                                operation,
                                offset,
                                place as int,
                                fuel as int,
                                1,
                                error,
                            );
                            }
                            return Err(error);
                        },
                    };
                    let ghost between = *self;
                    proof {
                        lemma_step_trans(start.x(), before.x(), between.x());
                        lemma_bit_to(between.x(), offset, place as int, part);
                    }
                    match high {
                        Some(previous) => {
                            proof {
                                lemma_stands_step(
                                    before.x(),
                                    between.x(),
                                    previous,
                                    span_before,
                                );
                            }
                            let either = self.put_binary(
                                BinaryOp::BitOr,
                                previous,
                                part,
                                span,
                                Ghost(span_before),
                                Ghost(here),
                                Ghost(operation),
                            );
                            proof {
                                lemma_passed_few(
                                    &start,
                                    &between,
                                    self,
                                    whole_place,
                                    count + 1,
                                    2 * count,
                                    2,
                                );
                                lemma_passed_more(
                                    &start,
                                    self,
                                    whole_place,
                                    count + 1,
                                    2 * count + 2,
                                    offset_width as nat,
                                    2 * offset_width as nat + 2,
                                );
                            }
                            let joined = match either {
                                Ok(joined) => joined,
                                Err(error) => return Err(error),
                            };
                            proof {
                                lemma_step_trans(start.x(), between.x(), self.x());
                                assert forall|outer: Env, inner: Env| #[trigger]
                                    linked(self.x(), outer, inner) implies word_of(
                                    self.module@,
                                    inner,
                                    joined,
                                ) == seq![span_after(outer)] by {
                                    assert(span_after(outer) == (span_before(outer) || here(
                                        outer,
                                    )));
                                }
                            }
                            high = Some(joined);
                        },
                        None => {
                            proof {
                                lemma_step_linked(start.x(), between.x());
                                assert forall|outer: Env, inner: Env| #[trigger]
                                    linked(between.x(), outer, inner) implies word_of(
                                    between.module@,
                                    inner,
                                    part,
                                ) == seq![span_after(outer)] by {
                                    assert(linked(start.x(), outer, inner));
                                    assert(!span_before(outer));
                                    assert(span_after(outer) == (span_before(outer) || here(
                                        outer,
                                    )));
                                }
                            }
                            high = Some(part);
                        },
                    }
                    place += 1;
                },
            }
        }
        let ghost ended = *self;
        proof {
            let count = (place - stages) as nat;
            let used = 2 * count + if done {
                2nat
            } else {
                0nat
            };
            lemma_passed_more(
                &start,
                self,
                whole_place,
                count,
                used,
                offset_width as nat,
                2 * offset_width as nat + 2,
            );
        }
        let local: ValueId = match high {
            Some(local) => local,
            None => {
                let nothing = self.constant_bit(false, span);
                proof {
                    let count = (place - stages) as nat;
                    lemma_passed_few(&start, &ended, self, whole_place, count, 2 * count, 2);
                    lemma_passed_more(
                        &start,
                        self,
                        whole_place,
                        count,
                        2 * count + 2,
                        offset_width as nat,
                        2 * offset_width as nat + 2,
                    );
                }
                let zero = match nothing {
                    Ok(zero) => zero,
                    Err(error) => return Err(error),
                };
                proof {
                    lemma_step_trans(start.x(), ended.x(), self.x());
                }
                zero
            },
        };
        proof {
            let y = self.x();
            lemma_step_linked(start.x(), y);
            let all = some_between(source, offset, stages as int, offset_width as int);
            assert forall|outer: Env, inner: Env| #[trigger] linked(y, outer, inner) implies word_of(
                y.module,
                inner,
                local,
            ) == seq![whole(outer)] by {
                assert(linked(start.x(), outer, inner));
                lemma_some_all(source, offset, stages as int, outer);
                assert(all(outer) == whole(outer));
            }
            assert(stands_for(y, local, whole));
        }
        let ghost made = *self;
        self.remember(3, operation.raw as u64, 0, 0, local);
        proof {
            lemma_step_trans(start.x(), made.x(), self.x());
            lemma_passed_few(
                &start,
                &made,
                self,
                whole_place,
                offset_width as nat,
                2 * offset_width as nat + 2,
                0,
            );
        }
        Ok(local)
    }

    /// One step of the choice: by one bit of the offset between what the lower
    /// bits choose, with that bit clear and with it set.
    #[verifier::rlimit(100)]
    #[verifier::spinoff_prover]
    fn import_dynamic_barrel_bit(
        &mut self,
        operation: OpId,
        value: ValueId,
        offset: ValueId,
        width: u32,
        stage: u32,
        bit: u32,
        base: u64,
        span: SourceSpan,
        fuel: u128,
    ) -> (result: Result<ValueId, SynthError>)
        requires
            old(self).inv(),
            old(self).operands_within(operation),
            is_extraction(old(self), operation, value, offset, width),
            stage <= 32,
            stage <= old(self).source@.ty(offset).width,
            width <= old(self).source@.ty(value).width,
            base <= bit < base + width,
            bit < old(self).source@.ty(value).width,
        ensures
            old(self).passed(
                final(self),
                Place::Extraction(operation),
                barrel_breadth(stage as nat),
                2 * barrel_breadth(stage as nat),
            ),
            result matches Ok(local) ==> old(self).went_on(final(self)) && stands_for(
                final(self).x(),
                local,
                barrel_bit(
                    old(self).source@,
                    value,
                    offset,
                    stage as nat,
                    bit as nat,
                    base as nat,
                    (old(self).source@.ty(value).width - width) as nat,
                ),
            ),
            result matches Err(error) ==> old(self).stops(
                final(self),
                Place::Extraction(operation),
                fuel as int,
                2 * stage + 1,
                error,
            ),
        decreases fuel,
    {
        let ghost start = *self;
        let ghost whole_place = Place::Extraction(operation);
        proof {
            lemma_few_cost(&start, self, whole_place);
            lemma_nothing_passed(&start, self, whole_place);
        }
        let ghost taken = barrel_breadth(stage as nat);
        proof {
            assert(taken >= 1);
            lemma_passed_more(&start, self, whole_place, 0, 0, taken, 2 * taken);
        }
        assert(self.within(value) && self.within(offset)) by {
            let inputs = op_inputs(self.source@.operations[operation.raw as int].kind);
            assert(inputs[0] == value && inputs[1] == offset);
        }
        let ghost source = self.source@;
        if fuel == 0 {
            proof {
                lemma_stops_spent(&start, self, Place::Extraction(operation), 0, 2 * stage + 1);
            }
            return Err(SynthError::Invariant(Invariant::CombinationalCycle));
        }
        proof {
            lemma_extraction_types(&start, operation, value, offset, width);
            lemma_made(&start, self);
        }
        let input_width: u32 = self.source.values[value.raw as usize].ty.width;
        let maximum: u64 = (input_width - width) as u64;
        let ghost whole = barrel_bit(
            source,
            value,
            offset,
            stage as nat,
            bit as nat,
            base as nat,
            maximum as nat,
        );
        if base > maximum {
            let result = self.constant_bit(false, span);
            proof {
                lemma_passed_few(&start, &start, self, whole_place, 0, 0, 2);
                lemma_passed_more(&start, self, whole_place, 0, 2, taken, 2 * taken);
                if result is Ok {
                    let f = |env: Env| false;
                    assert forall|outer: Env| #[trigger] whole(outer) == f(outer) by {}
                    lemma_same_function(self.x(), result->Ok_0, f, whole);
                }
            }
            return result;
        }
        let reach: u64 = two_to(stage) - 1;
        let inside = base + reach <= maximum;
        let ghost free = shifted_bit(source, value, offset, stage as nat, bit as nat);
        proof {
            if inside {
                assert forall|outer: Env| #[trigger] whole(outer) == free(outer) by {
                    lemma_eval_width(source, outer, offset.raw as int);
                    lemma_nat_bound(word_of(source, outer, offset).take(stage as int));
                }
            }
        }
        if inside {
            if let Some(local) = self.recall(2, operation.raw as u64, stage as u64, bit as u64) {
                self.extend_sources(local);
                proof {
                    lemma_nothing_passed(&start, self, whole_place);
                    lemma_passed_more(&start, self, whole_place, 0, 0, taken, 2 * taken);
                    lemma_same_function(self.x(), local, free, whole);
                }
                return Ok(local);
            }
        }
        let local: ValueId = if stage == 0 {
            let carried = self.import_value_bit(value, bit, span, fuel - 1);
            proof {
                let next = Place::Bit(value, bit as int);
                lemma_chosen_leads(&start, operation, value, bit as int);
                lemma_passed(&start, &start, self, whole_place, next, 0, 0);
                lemma_passed_more(&start, self, whole_place, 1, 0, taken, 2 * taken);
            }
            let part = match carried {
                Ok(part) => part,
                Err(error) => {
                    proof {
                        lemma_chosen_stops(
                            &start,
                            &start,
                            self,
                            operation,
                            value,
                            bit as int,
                            fuel as int,
                            2 * stage + 1,
                            error,
                        );
                    }
                    return Err(error);
                },
            };
            proof {
                let f = bit_fn(source, value, bit as int);
                lemma_bit_to(self.x(), value, bit as int, part);
                assert forall|outer: Env| #[trigger] whole(outer) == f(outer) by {
                    assert(word_of(source, outer, offset).take(0).len() == 0);
                }
                lemma_same_function(self.x(), part, f, whole);
            }
            part
        } else {
            let below: u32 = stage - 1;
            let ghost half = barrel_breadth(below as nat);
            assert(taken == 2 * half + 1);
            let shift: u64 = two_to(below);
            let ghost lower_fn = barrel_bit(
                source,
                value,
                offset,
                below as nat,
                bit as nat,
                base as nat,
                maximum as nat,
            );
            let ghost upper_fn = barrel_bit(
                source,
                value,
                offset,
                below as nat,
                (bit + shift) as nat,
                (base + shift) as nat,
                maximum as nat,
            );
            let ghost select = bit_fn(source, offset, below as int);
            proof {
                assert forall|outer: Env| #[trigger] whole(outer) == (if select(outer) {
                    upper_fn(outer)
                } else {
                    lower_fn(outer)
                }) by {
                    lemma_eval_width(source, outer, offset.raw as int);
                    lemma_next_bit(word_of(source, outer, offset), below as int);
                    assert(1 * pow2(below as nat) == pow2(below as nat));
                    assert(0 * pow2(below as nat) == 0);
                }
            }
            let known = self.known_bit(offset, below);
            match known {
                Some(set) => {
                    let result = if set {
                        self.upper_branch(
                            operation,
                            value,
                            offset,
                            width,
                            below,
                            bit,
                            base,
                            shift,
                            span,
                            fuel - 1,
                        )
                    } else {
                        self.import_dynamic_barrel_bit(
                            operation,
                            value,
                            offset,
                            width,
                            below,
                            bit,
                            base,
                            span,
                            fuel - 1,
                        )
                    };
                    proof {
                        lemma_passed_more(&start, self, whole_place, half, 2 * half, taken, 2 * taken);
                    }
                    let local = match result {
                        Ok(local) => local,
                        Err(error) => {
                            proof {
                                if set {
                                    lemma_stops_layer(
                                        &start,
                                        &start,
                                        self,
                                        Place::Extraction(operation),
                                        fuel as int,
                                        2 * stage + 1,
                                        fuel - 1,
                                        2 * below + 2,
                                        error,
                                    );
                                } else {
                                    lemma_stops_layer(
                                        &start,
                                        &start,
                                        self,
                                        Place::Extraction(operation),
                                        fuel as int,
                                        2 * stage + 1,
                                        fuel - 1,
                                        2 * below + 1,
                                        error,
                                    );
                                }
                            }
                            return Err(error);
                        },
                    };
                    proof {
                        let y = self.x();
                        lemma_step_linked(start.x(), y);
                        assert forall|outer: Env, inner: Env| #[trigger]
                            linked(y, outer, inner) implies word_of(y.module, inner, local)
                            == seq![whole(outer)] by {
                            assert(linked(start.x(), outer, inner));
                            assert(select(outer) == set);
                            assert(whole(outer) == (if select(outer) {
                                upper_fn(outer)
                            } else {
                                lower_fn(outer)
                            }));
                        }
                    }
                    local
                },
                None => {
                    let lower_carried = self.import_dynamic_barrel_bit(
                        operation,
                        value,
                        offset,
                        width,
                        below,
                        bit,
                        base,
                        span,
                        fuel - 1,
                    );
                    proof {
                        lemma_passed_more(&start, self, whole_place, half, 2 * half, taken, 2 * taken);
                    }
                    let lower = match lower_carried {
                        Ok(lower) => lower,
                        Err(error) => {
                            proof {
                            lemma_stops_layer(
                                &start,
                                &start,
                                self,
                                Place::Extraction(operation),
                                fuel as int,
                                2 * stage + 1,
                                fuel - 1,
                                2 * below + 1,
                                error,
                            );
                            }
                            return Err(error);
                        },
                    };
                    let ghost one = *self;
                    let upper_carried = self.upper_branch(
                        operation,
                        value,
                        offset,
                        width,
                        below,
                        bit,
                        base,
                        shift,
                        span,
                        fuel - 1,
                    );
                    proof {
                        lemma_passed_both(
                            &start,
                            &one,
                            self,
                            whole_place,
                            half,
                            2 * half,
                            half,
                            2 * half,
                        );
                        lemma_passed_more(
                            &start,
                            self,
                            whole_place,
                            half + half,
                            2 * half + 2 * half,
                            taken,
                            2 * taken,
                        );
                    }
                    let upper = match upper_carried {
                        Ok(upper) => upper,
                        Err(error) => {
                            proof {
                            lemma_stops_layer(
                                &start,
                                &one,
                                self,
                                Place::Extraction(operation),
                                fuel as int,
                                2 * stage + 1,
                                fuel - 1,
                                2 * below + 2,
                                error,
                            );
                            }
                            return Err(error);
                        },
                    };
                    let ghost two = *self;
                    proof {
                        lemma_step_trans(start.x(), one.x(), two.x());
                        lemma_stands_step(one.x(), two.x(), lower, lower_fn);
                    }
                    let choice_carried = self.import_value_bit(offset, below, span, fuel - 1);
                    proof {
                        let next = Place::Bit(offset, below as int);
                        lemma_chosen_leads(&start, operation, offset, below as int);
                        let used = 2 * half + 2 * half;
                        lemma_passed(&start, &two, self, whole_place, next, half + half, used);
                        lemma_passed_more(
                            &start,
                            self,
                            whole_place,
                            half + half + 1,
                            used,
                            taken,
                            2 * taken,
                        );
                    }
                    let choice = match choice_carried {
                        Ok(choice) => choice,
                        Err(error) => {
                            proof {
                            lemma_chosen_stops(
                                &start,
                                &two,
                                self,
                                operation,
                                offset,
                                below as int,
                                fuel as int,
                                2 * stage + 1,
                                error,
                            );
                            }
                            return Err(error);
                        },
                    };
                    let ghost three = *self;
                    proof {
                        lemma_step_trans(start.x(), two.x(), three.x());
                        lemma_stands_step(two.x(), three.x(), lower, lower_fn);
                        lemma_stands_step(two.x(), three.x(), upper, upper_fn);
                        lemma_bit_to(three.x(), offset, below as int, choice);
                    }
                    let chosen = self.put_choice(
                        choice,
                        upper,
                        lower,
                        span,
                        Ghost(select),
                        Ghost(upper_fn),
                        Ghost(lower_fn),
                        Ghost(operation),
                    );
                    proof {
                        let used = 2 * half + 2 * half;
                        lemma_passed_few(
                            &start,
                            &three,
                            self,
                            whole_place,
                            half + half + 1,
                            used,
                            2,
                        );
                    }
                    let local = match chosen {
                        Ok(local) => local,
                        Err(error) => return Err(error),
                    };
                    proof {
                        lemma_step_trans(start.x(), three.x(), self.x());
                        let f = |env: Env|
                            if select(env) {
                                upper_fn(env)
                            } else {
                                lower_fn(env)
                            };
                        assert forall|outer: Env| #[trigger] whole(outer) == f(outer) by {}
                        lemma_same_function(self.x(), local, f, whole);
                    }
                    local
                },
            }
        };
        if inside {
            let ghost made = *self;
            proof {
                assert forall|outer: Env| #[trigger] free(outer) == whole(outer) by {
                    assert(whole(outer) == free(outer));
                }
                lemma_same_function(self.x(), local, whole, free);
            }
            self.remember(2, operation.raw as u64, stage as u64, bit as u64, local);
            proof {
                lemma_step_trans(start.x(), made.x(), self.x());
                lemma_passed_few(&start, &made, self, whole_place, taken, 2 * taken, 0);
            }
        }
        Ok(local)
    }

    /// The side of a choice on which a bit of the offset is set.
    fn upper_branch(
        &mut self,
        operation: OpId,
        value: ValueId,
        offset: ValueId,
        width: u32,
        below: u32,
        bit: u32,
        base: u64,
        shift: u64,
        span: SourceSpan,
        fuel: u128,
    ) -> (result: Result<ValueId, SynthError>)
        requires
            old(self).inv(),
            old(self).operands_within(operation),
            is_extraction(old(self), operation, value, offset, width),
            below < 32,
            below <= old(self).source@.ty(offset).width,
            width <= old(self).source@.ty(value).width,
            base <= bit < base + width,
            bit < old(self).source@.ty(value).width,
            1 <= shift <= 0x1_0000_0000,
        ensures
            old(self).passed(
                final(self),
                Place::Extraction(operation),
                barrel_breadth(below as nat),
                2 * barrel_breadth(below as nat),
            ),
            result matches Ok(local) ==> old(self).went_on(final(self)) && stands_for(
                final(self).x(),
                local,
                barrel_bit(
                    old(self).source@,
                    value,
                    offset,
                    below as nat,
                    (bit + shift) as nat,
                    (base + shift) as nat,
                    (old(self).source@.ty(value).width - width) as nat,
                ),
            ),
            result matches Err(error) ==> old(self).stops(
                final(self),
                Place::Extraction(operation),
                fuel as int,
                2 * below + 2,
                error,
            ),
        decreases fuel,
    {
        let ghost start = *self;
        let ghost whole_place = Place::Extraction(operation);
        proof {
            lemma_few_cost(&start, self, whole_place);
            lemma_nothing_passed(&start, self, whole_place);
            assert(barrel_breadth(below as nat) >= 1);
            let taken = barrel_breadth(below as nat);
            lemma_passed_more(&start, self, whole_place, 0, 0, taken, 2 * taken);
        }
        let ghost source = self.source@;
        if fuel == 0 {
            proof {
                lemma_stops_spent(&start, self, Place::Extraction(operation), 0, 2 * below + 2);
            }
            return Err(SynthError::Invariant(Invariant::CombinationalCycle));
        }
        proof {
            lemma_extraction_types(&start, operation, value, offset, width);
        }
        let input_width: u32 = self.source.values[value.raw as usize].ty.width;
        let place: u64 = bit as u64 + shift;
        if place < input_width as u64 {
            let result = self.import_dynamic_barrel_bit(
                operation,
                value,
                offset,
                width,
                below,
                place as u32,
                base + shift,
                span,
                fuel - 1,
            );
            proof {
                if result is Err {
                    let error = result->Err_0;
                    lemma_stops_layer(
                        &start,
                        &start,
                        self,
                        Place::Extraction(operation),
                        fuel as int,
                        2 * below + 2,
                        fuel - 1,
                        2 * below + 1,
                        error,
                    );
                }
            }
            result
        } else {
            let result = self.constant_bit(false, span);
            proof {
                let taken = barrel_breadth(below as nat);
                lemma_passed_few(&start, &start, self, whole_place, 0, 0, 2);
                lemma_passed_more(&start, self, whole_place, 0, 2, taken, 2 * taken);
                if result is Ok {
                    let f = |env: Env| false;
                    let whole = barrel_bit(
                        source,
                        value,
                        offset,
                        below as nat,
                        (bit + shift) as nat,
                        (base + shift) as nat,
                        (source.ty(value).width - width) as nat,
                    );
                    assert forall|outer: Env| #[trigger] whole(outer) == f(outer) by {}
                    lemma_same_function(self.x(), result->Ok_0, f, whole);
                }
            }
            result
        }
    }
}

/// An extraction leads to the bits that it chooses from or by.
proof fn lemma_chosen_leads(
    start: &RegionalWordImporter,
    operation: OpId,
    value: ValueId,
    bit: int,
)
    requires
        extraction_of(start.source@, operation.raw as int) matches Some(found) && (value
            == found.0 || value == found.1),
        0 <= bit < start.source@.ty(value).width,
    ensures
        leads(
            start.graph(),
            start.visiting@,
            Place::Extraction(operation),
            start.visiting@,
            Place::Bit(value, bit),
        ),
{
    reveal(leads);
}

/// Carrying a bit that an extraction chooses from or by over stopped, so carrying
/// a bit of the extraction over does.
proof fn lemma_chosen_stops(
    start: &RegionalWordImporter,
    before: &RegionalWordImporter,
    after: &RegionalWordImporter,
    operation: OpId,
    value: ValueId,
    bit: int,
    fuel: int,
    slack: int,
    error: SynthError,
)
    requires
        start.same_frame(before),
        extraction_of(start.source@, operation.raw as int) matches Some(found) && (value
            == found.0 || value == found.1),
        start.source@.has(value),
        0 <= bit < start.source@.ty(value).width,
        before.bit_stops(after, value, bit, fuel - 1, error),
        slack >= 1,
    ensures
        start.stops(after, Place::Extraction(operation), fuel, slack, error),
{
    let place = Place::Extraction(operation);
    let next = Place::Bit(value, bit);
    assert(leads(start.graph(), start.visiting@, place, start.visiting@, next)) by {
        reveal(leads);
    }
    lemma_stops_next(start, before, after, place, fuel, slack, next, fuel - 1, error);
}

/// What is known of a bit holds of the environments of an earlier state too.
proof fn lemma_known_carries(
    start: &RegionalWordImporter,
    after: &RegionalWordImporter,
    value: ValueId,
    bit: u32,
)
    requires
        start.inv(),
        start.went_on(after),
        start.source@.has(value),
        bit < start.source@.ty(value).width,
        value.raw < start.known@.len(),
        bit < start.known@[value.raw as int]@.len(),
        start.known@[value.raw as int]@[bit as int] is Some,
    ensures
        forall|outer: Env, inner: Env| #[trigger]
            linked(start.x(), outer, inner) ==> word_of(start.source@, outer, value)[bit as int]
                == start.known@[value.raw as int]@[bit as int]->0,
{
    reveal(linked);
}

/// Functions that agree everywhere are interchangeable.
pub proof fn lemma_same_function(
    x: Import,
    local: ValueId,
    f: spec_fn(Env) -> bool,
    g: spec_fn(Env) -> bool,
)
    requires
        stands_for(x, local, f),
        forall|env: Env| #[trigger] g(env) == f(env),
    ensures
        stands_for(x, local, g),
{
    assert forall|outer: Env, inner: Env| #[trigger] linked(x, outer, inner) implies word_of(
        x.module,
        inner,
        local,
    ) == seq![g(outer)] by {
        assert(g(outer) == f(outer));
    }
}

/// Whether a bit of a value between two places is set.
pub open spec fn some_between(source: ModuleView, value: ValueId, from: int, to: int) -> spec_fn(
    Env,
) -> bool {
    |env: Env| any_bit(word_of(source, env, value).subrange(from, to))
}

proof fn lemma_some_more(source: ModuleView, value: ValueId, from: int, to: int, env: Env)
    requires
        source.wf(),
        source.has(value),
        0 <= from <= to < source.ty(value).width,
    ensures
        some_between(source, value, from, to + 1)(env) == (some_between(source, value, from, to)(
            env,
        ) || word_of(source, env, value)[to]),
{
    lemma_eval_width(source, env, value.raw as int);
    let word = word_of(source, env, value);
    let short = word.subrange(from, to);
    let long = word.subrange(from, to + 1);
    assert(long =~= short.push(word[to]));
    if any_bit(long) {
        let i = choose|i: int| 0 <= i < long.len() && long[i];
        if i < short.len() {
            assert(short[i]);
        }
    }
    if any_bit(short) {
        let i = choose|i: int| 0 <= i < short.len() && short[i];
        assert(long[i]);
    }
    if word[to] {
        assert(long[short.len() as int]);
    }
}

proof fn lemma_some_all(source: ModuleView, value: ValueId, from: int, env: Env)
    requires
        source.wf(),
        source.has(value),
        0 <= from <= source.ty(value).width,
    ensures
        some_between(source, value, from, source.ty(value).width as int)(env) == high_bits(
            source,
            value,
            from as nat,
        )(env),
{
    lemma_eval_width(source, env, value.raw as int);
    let word = word_of(source, env, value);
    assert(word.subrange(from, word.len() as int) =~= word.skip(from));
}

} // verus!
