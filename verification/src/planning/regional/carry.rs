//! What is remembered while a region is carried over, and what is known of bits.

use super::tracing::{imaged, lemma_traced_left, parts_ready};
use super::following::{computed, boundary_value, from_wanted};
use super::importer::{
    agrees, all_reached, ascends, binds, lemma_bound_settled, entry_ok, insert_ascending, linked, memory_ok, on_path, path_reached, rows_reached, source_reached, rows_ascend,
    RegionalWordImporter,
};
use super::pieces::lemma_made;
use crate::word::bits::{bit_nat, lemma_nat_push, nat_of};
use crate::word::module::{KindView, ModuleView, ValueKind};
use crate::word::semantics::{
    concat_bits, lemma_eval_operation, lemma_eval_width, op_bits, word_of, Env,
};
use crate::word::types::{OpId, ValueId};
use vstd::arithmetic::power2::{lemma2_to64, lemma_pow2_strictly_increases, lemma_pow2_unfold, pow2};
use vstd::prelude::*;

verus! {

/// The word of an operation is what the operation makes of its operands.
pub proof fn lemma_operation_word(source: ModuleView, env: Env, operation: int)
    requires
        source.wf(),
        0 <= operation < source.operations.len(),
        source.values[source.operations[operation].result.raw as int].kind
            == crate::word::module::KindView::Operation(OpId { raw: operation as u32 }),
    ensures
        word_of(source, env, source.operations[operation].result) == op_bits(
            source,
            env,
            source.operations[operation].result.raw as int,
            source.operations[operation].kind,
            source.ty(source.operations[operation].result),
            |operand: ValueId| word_of(source, env, operand),
        ),
{
    assert(source.operation_ok(operation));
    lemma_eval_operation(source, env, source.operations[operation].result.raw as int);
}

/// The last part of a concatenation holds the low bits.
pub proof fn lemma_concat_last(words: Seq<Seq<bool>>)
    requires
        words.len() > 0,
    ensures
        concat_bits(words) == words.last() + concat_bits(words.drop_last()),
    decreases words.len(),
{
    if words.len() == 1 {
        assert(words.skip(1).len() == 0);
        assert(words.drop_last().len() == 0);
        assert(concat_bits(words.skip(1)) =~= seq![]);
        assert(concat_bits(words) =~= words.last() + concat_bits(words.drop_last()));
    } else {
        lemma_concat_last(words.skip(1));
        assert(words.skip(1).last() == words.last());
        assert(words.skip(1).drop_last() =~= words.drop_last().skip(1));
        assert(words.drop_last()[0] == words[0]);
        assert(concat_bits(words) =~= words.last() + concat_bits(words.drop_last()));
    }
}

pub open spec fn cache_key(tag: u64, a: u64, b: u64, c: u64) -> Seq<u64> {
    seq![tag, a, b, c]
}

/// The sources of an operation after a value is used once more: those of the
/// operation of the value gain the operations on the path.
pub open spec fn adds_sources(
    importer: &RegionalWordImporter,
    local: ValueId,
    place: int,
    row: Seq<OpId>,
) -> bool {
    let before = importer.operation_sources@[place]@;
    if importer.module@.kind(local) == KindView::Operation(OpId { raw: place as u32 }) {
        &&& ascends(row)
        &&& forall|op: OpId|
            #[trigger] row.contains(op) <==> before.contains(op) || on_path(
                importer.source@,
                importer.operation_regions@,
                importer.region,
                importer.import_path@,
                op,
                importer.import_path@.len(),
            )
    } else {
        row == before
    }
}

/// What is known of a bit.
pub open spec fn known_at(known: Seq<Vec<Option<bool>>>, value: ValueId, bit: int) -> Option<bool> {
    if value.raw < known.len() && 0 <= bit < known[value.raw as int]@.len() {
        known[value.raw as int]@[bit]
    } else {
        None
    }
}

/// Sources that were added from the path are reached.
proof fn lemma_extended_reached(
    start: &RegionalWordImporter,
    after: &RegionalWordImporter,
    local: ValueId,
)
    requires
        start.inv(),
        after.graph() == start.graph(),
        after.operation_sources@.len() == start.operation_sources@.len(),
        forall|k: int|
            0 <= k < start.operation_sources@.len() ==> adds_sources(
                start,
                local,
                k,
                (#[trigger] after.operation_sources@[k])@,
            ),
    ensures
        rows_reached(after.graph(), after.operation_sources@),
{
    reveal(rows_reached);
    reveal(path_reached);
    let path = start.import_path@;
    assert forall|k: int, op: OpId|
        0 <= k < after.operation_sources@.len() && #[trigger] after.operation_sources@[k]@.contains(
            op,
        ) implies source_reached(after.graph(), op) by {
        assert(adds_sources(start, local, k, after.operation_sources@[k]@));
        if !start.operation_sources@[k]@.contains(op) {
            let i = choose|i: int|
                0 <= i < path.len() && start.source@.has(#[trigger] path[i]) && start.source@.kind(
                    path[i],
                ) == KindView::Operation(op) && start.operation_regions@[op.raw as int] == Some(
                    start.region,
                );
            assert(start.source@.value_ok(path[i].raw as int));
            assert(start.source@.operations[op.raw as int].result == path[i]);
        }
    }
}

impl<'a> RegionalWordImporter<'a> {
    /// What was remembered under a key.
    pub fn recall(&self, tag: u64, a: u64, b: u64, c: u64) -> (found: Option<ValueId>)
        requires
            self.inv(),
        ensures
            found == if self.cache@.dom().contains(cache_key(tag, a, b, c)) {
                Some(ValueId { raw: self.cache@[cache_key(tag, a, b, c)] as u32 })
            } else {
                None
            },
            found matches Some(local) ==> entry_ok(self.x(), cache_key(tag, a, b, c), local),
    {
        let key: Vec<u64> = vec![tag, a, b, c];
        assert(key@ =~= cache_key(tag, a, b, c));
        match self.cache.get(&key) {
            Some(local) => {
                proof {
                    reveal(memory_ok);
                }
                Some(ValueId { raw: local as u32 })
            },
            None => None,
        }
    }

    /// Remembers a local value under a key.
    pub fn remember(&mut self, tag: u64, a: u64, b: u64, c: u64, local: ValueId)
        requires
            old(self).inv(),
            entry_ok(old(self).x(), cache_key(tag, a, b, c), local),
        ensures
            old(self).went_on(final(self)),
            final(self).x() == old(self).x(),
            *final(self) == (RegionalWordImporter { cache: final(self).cache, ..*old(self) }),
            final(self).cache@ == old(self).cache@.insert(
                cache_key(tag, a, b, c),
                local.raw as u64,
            ),
    {
        let key: Vec<u64> = vec![tag, a, b, c];
        assert(key@ =~= cache_key(tag, a, b, c));
        let ghost held = self.cache@;
        self.cache.insert(key, local.raw as u64);
        proof {
            reveal(memory_ok);
            let x = self.x();
            assert forall|k: Seq<u64>| #[trigger] self.cache@.dom().contains(k) implies self.cache@[k]
                <= u32::MAX && entry_ok(x, k, ValueId { raw: self.cache@[k] as u32 }) by {
                if k != cache_key(tag, a, b, c) {
                    assert(held.dom().contains(k));
                } else {
                    assert(ValueId { raw: self.cache@[k] as u32 } == local);
                }
            }
        }
    }

    /// Remembers what stands for the value that is being carried over, and goes back to
    /// what it is a part of.
    pub fn leave(&mut self, value: ValueId, local: ValueId)
        requires
            old(self).inv(),
            agrees(old(self).x(), value, local),
            from_wanted(old(self).graph(), value),
            old(self).source_to_local@[value.raw as int] is None,
            old(self).import_path@.len() > 0,
            old(self).import_path@.last() == value,
            computed(old(self).graph(), value) ==> imaged(
                old(self).module@,
                old(self).operation_sources@,
                local,
                old(self).source@.kind(value)->Operation_0,
            ),
            parts_ready(
                old(self).graph(),
                old(self).source_to_local@,
                old(self).visiting@,
                value,
            ),
            boundary_value(old(self).graph(), value) ==> binds(
                old(self).boundary_bindings@,
                value,
                local,
            ),
        ensures
            final(self).inv(),
            final(self).x() == old(self).x(),
            *final(self) == (RegionalWordImporter {
                source_to_local: final(self).source_to_local,
                order: final(self).order,
                visiting: final(self).visiting,
                import_path: final(self).import_path,
                ..*old(self)
            }),
            final(self).source_to_local@ == old(self).source_to_local@.update(
                value.raw as int,
                Some(local),
            ),
            final(self).visiting@ == old(self).visiting@.update(value.raw as int, false),
            final(self).import_path@ == old(self).import_path@.drop_last(),
            final(self).order@ == (
                old(self).order@.0.insert(value, old(self).order@.1),
                old(self).order@.1 + 1,
            ),
    {
        let ghost start = *self;
        proof {
            reveal(memory_ok);
            reveal(all_reached);
            reveal(path_reached);
            assert(ValueId { raw: value.raw as int as u32 } == value);
            lemma_bound_settled(
                self.graph(),
                self.source_to_local@,
                self.visiting@,
                self.boundary_bindings@,
                value,
                local,
            );
            self.order@ = (self.order@.0.insert(value, self.order@.1), self.order@.1 + 1);
        }
        self.import_path.pop();
        self.visiting.set(value.raw as usize, false);
        self.source_to_local.set(value.raw as usize, Some(local));
        assert(memory_ok(self.x(), self.source_to_local@, self.cache@));
        assert(self.graph() == start.graph());
        proof {
            lemma_traced_left(&start, self, value, local);
        }
    }

    /// Adds the operations on the path to the sources of a shared operation.
    pub fn extend_sources(&mut self, local: ValueId)
        requires
            old(self).inv(),
            old(self).module@.has(local),
        ensures
            old(self).went_on(final(self)),
            final(self).x() == old(self).x(),
            *final(self) == (RegionalWordImporter {
                operation_sources: final(self).operation_sources,
                ..*old(self)
            }),
            forall|k: int|
                0 <= k < old(self).operation_sources@.len() ==> adds_sources(
                    old(self),
                    local,
                    k,
                    (#[trigger] final(self).operation_sources@[k])@,
                ),
    {
        let ghost start = *self;
        assert(self.module@.value_ok(local.raw as int));
        if let ValueKind::Operation(operation) = self.module.values[local.raw as usize].kind {
            let at: usize = operation.raw as usize;
            let added = self.current_operation_sources();
            let mut i: usize = 0;
            while i < added.len()
                invariant
                    at < self.operation_sources@.len(),
                    *self == (RegionalWordImporter {
                        operation_sources: self.operation_sources,
                        ..start
                    }),
                    self.operation_sources@.len() == start.operation_sources@.len(),
                    rows_ascend(self.operation_sources@),
                    i <= added@.len(),
                    forall|k: int|
                        0 <= k < self.operation_sources@.len() && k != at
                            ==> #[trigger] self.operation_sources@[k]
                            == start.operation_sources@[k],
                    forall|op: OpId| #[trigger]
                        self.operation_sources@[at as int]@.contains(op)
                            <==> start.operation_sources@[at as int]@.contains(op)
                            || added@.take(i as int).contains(op),
                decreases added.len() - i,
            {
                let ghost more = added@.take(i + 1);
                proof {
                    assert(more =~= added@.take(i as int).push(added@[i as int]));
                    assert forall|op: OpId| #[trigger] more.contains(op) <==> added@.take(
                        i as int,
                    ).contains(op) || op == added@[i as int] by {
                        if added@.take(i as int).contains(op) {
                            let k = choose|k: int|
                                0 <= k < i && added@.take(i as int)[k] == op;
                            assert(more[k] == op);
                        }
                        assert(more[i as int] == added@[i as int]);
                    }
                }
                let ghost rows = self.operation_sources@;
                assert(ascends(rows[at as int]@));
                let mut row: Vec<OpId> = Vec::new();
                std::mem::swap(&mut row, &mut self.operation_sources[at]);
                insert_ascending(&mut row, added[i]);
                self.operation_sources.set(at, row);
                proof {
                    assert forall|k: int| 0 <= k < self.operation_sources@.len() implies ascends(
                        (#[trigger] self.operation_sources@[k])@,
                    ) by {
                        if k != at {
                            assert(ascends(rows[k]@));
                        }
                    }
                }
                i += 1;
            }
            assert(added@.take(i as int) =~= added@);
            assert forall|k: int| 0 <= k < start.operation_sources@.len() implies adds_sources(
                &start,
                local,
                k,
                (#[trigger] self.operation_sources@[k])@,
            ) by {
                if k == at {
                    assert(ascends(self.operation_sources@[k]@));
                }
            }
        }
        proof {
            assert(rows_reached(self.graph(), self.operation_sources@)) by {
                lemma_extended_reached(&start, self, local);
            }
            lemma_made(&start, self);
        }
    }

    /// What is known of a bit.
    pub fn known_bit(&self, value: ValueId, bit: u32) -> (known: Option<bool>)
        requires
            self.source@.has(value),
            bit < self.source@.ty(value).width,
        ensures
            known matches Some(held) ==> forall|outer: Env, inner: Env| #[trigger]
                linked(self.x(), outer, inner) ==> word_of(self.source@, outer, value)[bit as int]
                    == held,
            known == known_at(self.known@, value, bit as int),
    {
        let place: usize = value.raw as usize;
        if place < self.known.len() && (bit as usize) < self.known[place].len() {
            proof {
                reveal(linked);
            }
            self.known[place][bit as usize]
        } else {
            None
        }
    }

    /// The number that a value is known to be, where it has at most 32 bits.
    pub fn known_number(&self, value: ValueId) -> (known: Option<u32>)
        requires
            self.inv(),
            self.source@.has(value),
        ensures
            known matches Some(number) ==> forall|outer: Env, inner: Env| #[trigger]
                linked(self.x(), outer, inner) ==> nat_of(word_of(self.source@, outer, value))
                    == number,
            known is Some <==> forall|bit: int|
                0 <= bit < self.source@.ty(value).width ==> (#[trigger] known_at(
                    self.known@,
                    value,
                    bit,
                )) is Some && (bit >= 32 ==> known_at(self.known@, value, bit) == Some(false)),
    {
        let ghost x = self.x();
        let width: u32 = self.source.values[value.raw as usize].ty.width;
        let mut number: u64 = 0;
        let mut power: u64 = 1;
        let mut bit: u32 = 0;
        proof {
            lemma2_to64();
            assert forall|outer: Env, inner: Env| #[trigger] linked(x, outer, inner) implies nat_of(
                word_of(x.source, outer, value).take(0),
            ) == 0 by {}
        }
        while bit < width
            invariant
                self.inv(),
                x == self.x(),
                self.source@.has(value),
                width == self.source@.ty(value).width,
                bit <= width,
                forall|b: int|
                    0 <= b < bit ==> (#[trigger] known_at(self.known@, value, b)) is Some && (b
                        >= 32 ==> known_at(self.known@, value, b) == Some(false)),
                bit <= 32 ==> power == pow2(bit as nat),
                number < 0x1_0000_0000,
                bit <= 32 ==> number < pow2(bit as nat),
                forall|outer: Env, inner: Env| #[trigger]
                    linked(x, outer, inner) ==> nat_of(
                        word_of(x.source, outer, value).take(bit as int),
                    ) == number,
            decreases width - bit,
        {
            let known: bool = match self.known_bit(value, bit) {
                Some(known) => known,
                None => {
                    assert(known_at(self.known@, value, bit as int) is None);
                    return None;
                },
            };
            if known && bit >= 32 {
                assert(known_at(self.known@, value, bit as int) == Some(true));
                return None;
            }
            let ghost before = number;
            proof {
                lemma2_to64();
                lemma_pow2_unfold((bit + 1) as nat);
                if bit < 32 {
                    lemma_pow2_unfold((bit + 1) as nat);
                    if bit + 1 < 32 {
                        lemma_pow2_strictly_increases((bit + 1) as nat, 32);
                    }
                }
                assert forall|outer: Env, inner: Env| #[trigger]
                    linked(x, outer, inner) implies nat_of(
                    word_of(x.source, outer, value).take(bit + 1),
                ) == before + bit_nat(known) * pow2(bit as nat) by {
                    let word = word_of(x.source, outer, value);
                    lemma_eval_width(x.source, outer, value.raw as int);
                    assert(word.take(bit + 1) =~= word.take(bit as int).push(word[bit as int]));
                    lemma_nat_push(word.take(bit as int), word[bit as int]);
                }
            }
            if known {
                number = number + power;
            }
            if bit < 32 {
                power = power * 2;
            }
            bit += 1;
        }
        proof {
            assert forall|outer: Env, inner: Env| #[trigger] linked(x, outer, inner) implies nat_of(
                word_of(x.source, outer, value),
            ) == number by {
                let word = word_of(x.source, outer, value);
                lemma_eval_width(x.source, outer, value.raw as int);
                assert(word.take(bit as int) =~= word);
            }
        }
        Some(number as u32)
    }
}

} // verus!
