//! Finite state sets and the codes that stand for them.

use super::symbolic::selection::states_view;
use crate::word::bits::{bits_of, lemma_nat_of_bits, nat_of};
use crate::word::numbers::{all_known, constant_from, known_word, number_bits};
use crate::word::types::{BitVal, ConstBits};
use vstd::arithmetic::power2::{lemma_pow2_strictly_increases, lemma_pow2_unfold, pow2};
use crate::error::{Resource, SynthError};
use vstd::prelude::*;

verus! {

/// The largest number of states that a machine may have.
pub const MAX_STATES: usize = 64;

/// The widest state register that is looked at.
pub const MAX_STATE_WIDTH: u32 = 128;

/// The largest number of values in a transition cone.
pub const MAX_TRANSITION_VALUES: usize = 4096;

/// What a machine's encoding is chosen for.
#[derive(Clone, Copy, PartialEq, Eq, Structural, Debug)]
pub enum FsmObjective {
    Area,
    Timing,
}

/// Whether a constant has no unknown bit.
pub fn is_boolean(bits: &ConstBits) -> (boolean: bool)
    ensures
        boolean == all_known(bits@),
{
    let mut index: usize = 0;
    while index < bits.bits.len()
        invariant
            index <= bits@.len(),
            forall|i: int| 0 <= i < index ==> (#[trigger] bits@[i]).known(),
        decreases bits.bits.len() - index,
    {
        if !bits.bits[index].is_known() {
            assert(!bits@[index as int].known());
            return false;
        }
        index += 1;
    }
    true
}

pub open spec fn all_zero(bits: Seq<BitVal>) -> bool {
    forall|i: int| 0 <= i < bits.len() ==> (#[trigger] bits[i]) is Zero
}

/// Whether every bit of a constant is zero.
pub fn is_zero(bits: &ConstBits) -> (zero: bool)
    ensures
        zero == all_zero(bits@),
{
    let mut index: usize = 0;
    while index < bits.bits.len()
        invariant
            index <= bits@.len(),
            forall|i: int| 0 <= i < index ==> (#[trigger] bits@[i]) is Zero,
        decreases bits.bits.len() - index,
    {
        if bits.bits[index] != BitVal::Zero {
            assert(!(bits@[index as int] is Zero));
            return false;
        }
        index += 1;
    }
    true
}

/// The place of a bit value in the order of states.
pub open spec fn rank(bit: BitVal) -> int {
    match bit {
        BitVal::Zero => 0,
        BitVal::One => 1,
        BitVal::X => 2,
        BitVal::Z => 3,
    }
}

pub fn bit_rank(bit: BitVal) -> (place: u8)
    ensures
        place == rank(bit),
{
    match bit {
        BitVal::Zero => 0,
        BitVal::One => 1,
        BitVal::X => 2,
        BitVal::Z => 3,
    }
}

/// The digits of a number as a constant of a width.
pub fn binary_constant(width: u32, value: u64) -> (constant: ConstBits)
    ensures
        constant@.len() == width,
        all_known(constant@),
        known_word(constant@) == bits_of(value as int, width as nat),
{
    let digits = number_bits(value, width as usize);
    constant_from(&digits)
}

/// The word with at most one bit set.
pub open spec fn hot_word(width: nat, hot: Option<u32>) -> Seq<bool> {
    Seq::new(width, |i: int| hot matches Some(bit) && bit == i)
}

/// A constant with at most one bit set.
pub fn boolean_constant(width: u32, hot_bit: Option<u32>) -> (constant: ConstBits)
    ensures
        constant@.len() == width,
        all_known(constant@),
        known_word(constant@) == hot_word(width as nat, hot_bit),
{
    let mut word: Vec<bool> = Vec::new();
    let mut index: u32 = 0;
    while index < width
        invariant
            index <= width,
            word@.len() == index,
            forall|i: int|
                0 <= i < index ==> #[trigger] word@[i] == (hot_bit matches Some(bit) && bit == i),
        decreases width - index,
    {
        let hot: bool = match hot_bit {
            Some(bit) => bit == index,
            None => false,
        };
        word.push(hot);
        index += 1;
    }
    assert(word@ =~= hot_word(width as nat, hot_bit));
    constant_from(&word)
}

/// Whether a state is in a list, by its bits.
pub fn contains_state(states: &Vec<ConstBits>, state: &ConstBits) -> (found: bool)
    ensures
        found == states_view(states@).contains(state@),
{
    match find_state(states, state) {
        Some(index) => {
            assert(states_view(states@)[index as int] == state@);
            true
        },
        None => false,
    }
}

/// The first place of a state in a list.
pub fn find_state(states: &Vec<ConstBits>, state: &ConstBits) -> (place: Option<usize>)
    ensures
        place matches Some(index) ==> index < states@.len() && states@[index as int]@ == state@
            && forall|i: int| 0 <= i < index ==> (#[trigger] states@[i])@ != state@,
        place is None ==> forall|i: int|
            0 <= i < states@.len() ==> (#[trigger] states@[i])@ != state@,
        place is Some <==> states_view(states@).contains(state@),
{
    let mut index: usize = 0;
    while index < states.len()
        invariant
            index <= states@.len(),
            forall|i: int| 0 <= i < index ==> (#[trigger] states@[i])@ != state@,
        decreases states.len() - index,
    {
        if states[index].same(state) {
            assert(states_view(states@)[index as int] == state@);
            return Some(index);
        }
        index += 1;
    }
    assert forall|i: int| 0 <= i < states_view(states@).len() implies states_view(states@)[i]
        != state@ by {
        assert(states_view(states@)[i] == states@[i]@);
    }
    None
}

/// Appends a state that is not there yet.
pub fn push_unique(states: &mut Vec<ConstBits>, state: ConstBits)
    ensures
        states_view(final(states)@) == (if states_view(old(states)@).contains(state@) {
            states_view(old(states)@)
        } else {
            states_view(old(states)@).push(state@)
        }),
{
    if !contains_state(states, &state) {
        states.push(state);
        assert(states_view(states@) =~= states_view(old(states)@).push(state@));
    }
}

/// The order of states: by their bits, the most significant first.
pub open spec fn state_before(left: Seq<BitVal>, right: Seq<BitVal>) -> bool
    decreases left.len(),
{
    if right.len() == 0 {
        false
    } else if left.len() == 0 {
        true
    } else if rank(left[0]) != rank(right[0]) {
        rank(left[0]) < rank(right[0])
    } else {
        state_before(left.skip(1), right.skip(1))
    }
}

fn comes_before(left: &ConstBits, right: &ConstBits) -> (before: bool)
    ensures
        before == state_before(left@, right@),
{
    let mut index: usize = 0;
    assert(left@.skip(0) =~= left@ && right@.skip(0) =~= right@);
    while index < left.bits.len() && index < right.bits.len()
        invariant
            index <= left@.len(),
            index <= right@.len(),
            state_before(left@, right@) == state_before(
                left@.skip(index as int),
                right@.skip(index as int),
            ),
        decreases left.bits.len() - index,
    {
        let l: u8 = bit_rank(left.bits[index]);
        let r: u8 = bit_rank(right.bits[index]);
        assert(left@.skip(index as int)[0] == left@[index as int]);
        assert(right@.skip(index as int)[0] == right@[index as int]);
        if l != r {
            return l < r;
        }
        assert(left@.skip(index as int).skip(1) =~= left@.skip(index + 1));
        assert(right@.skip(index as int).skip(1) =~= right@.skip(index + 1));
        index += 1;
    }
    index < right.bits.len()
}

proof fn lemma_before_total(left: Seq<BitVal>, right: Seq<BitVal>)
    ensures
        left == right || state_before(left, right) || state_before(right, left),
        !(state_before(left, right) && state_before(right, left)),
    decreases left.len(),
{
    if left.len() > 0 && right.len() > 0 {
        lemma_before_total(left.skip(1), right.skip(1));
        if rank(left[0]) == rank(right[0]) {
            assert(left[0] == right[0]);
            if left.skip(1) == right.skip(1) {
                assert(left =~= seq![left[0]] + left.skip(1));
                assert(right =~= seq![right[0]] + right.skip(1));
            }
        }
    } else if left.len() == 0 && right.len() == 0 {
        assert(left =~= right);
    }
}

proof fn lemma_before_trans(a: Seq<BitVal>, b: Seq<BitVal>, c: Seq<BitVal>)
    requires
        state_before(a, b),
        state_before(b, c),
    ensures
        state_before(a, c),
    decreases a.len(),
{
    if a.len() > 0 && b.len() > 0 && c.len() > 0 {
        if rank(a[0]) == rank(b[0]) && rank(b[0]) == rank(c[0]) {
            lemma_before_trans(a.skip(1), b.skip(1), c.skip(1));
        }
    }
}

/// Listed in the order of states.
pub open spec fn in_order(states: Seq<Seq<BitVal>>) -> bool {
    forall|i: int, j: int|
        0 <= i < j < states.len() ==> !state_before(#[trigger] states[j], #[trigger] states[i])
}

/// The place at which a state is inserted into an ordered list.
fn insert_state(states: &mut Vec<ConstBits>, state: ConstBits)
    requires
        in_order(states_view(old(states)@)),
        old(states)@.len() < usize::MAX,
    ensures
        in_order(states_view(final(states)@)),
        states_view(final(states)@).to_multiset() == states_view(old(states)@).to_multiset().insert(
            state@,
        ),
        final(states)@.len() == old(states)@.len() + 1,
{
    let ghost before = states_view(states@);
    let mut index: usize = 0;
    while index < states.len() && !comes_before(&state, &states[index])
        invariant
            index <= states@.len(),
            before == states_view(states@),
            in_order(before),
            forall|i: int| 0 <= i < index ==> !state_before(state@, #[trigger] before[i]),
        decreases states.len() - index,
    {
        assert(before[index as int] == states@[index as int]@);
        index += 1;
    }
    let ghost view = state@;
    states.insert(index, state);
    proof {
        let after = states_view(states@);
        assert(after =~= before.insert(index as int, view));
        assert(index < before.len() ==> before[index as int] == old(states)@[index as int]@);
        assert forall|i: int, j: int| 0 <= i < j < after.len() implies !state_before(
            #[trigger] after[j],
            #[trigger] after[i],
        ) by {
            if j < index {
                assert(after[i] == before[i] && after[j] == before[j]);
            } else if j == index {
                assert(after[i] == before[i]);
            } else if i == index {
                assert(after[j] == before[j - 1]);
                lemma_before_total(view, before[index as int]);
                lemma_before_total(view, before[j - 1]);
                if state_before(before[j - 1], view) {
                    lemma_before_trans(before[j - 1], view, before[index as int]);
                    if index < j - 1 {
                        assert(!state_before(before[j - 1], before[index as int]));
                    } else {
                        lemma_before_total(before[j - 1], before[j - 1]);
                    }
                }
            } else if i < index {
                assert(after[i] == before[i] && after[j] == before[j - 1]);
            } else {
                assert(after[i] == before[i - 1] && after[j] == before[j - 1]);
            }
        }
        lemma_insert_multiset(before, index as int, view);
    }
}

proof fn lemma_insert_multiset(states: Seq<Seq<BitVal>>, place: int, state: Seq<BitVal>)
    requires
        0 <= place <= states.len(),
    ensures
        states.insert(place, state).to_multiset() == states.to_multiset().insert(state),
{
    let after = states.insert(place, state);
    assert(after.remove(place) =~= states);
    after.to_multiset_ensures();
    states.to_multiset_ensures();
    assert(after[place] == state);
    assert(after.contains(state));
    assert(after.to_multiset() =~= after.to_multiset().remove(state).insert(state));
}

/// Puts states in order and exchanges the first with the primary reset state.
pub fn order_states(states: &mut Vec<ConstBits>, primary_reset: &ConstBits)
    ensures
        exists|sorted: Seq<Seq<BitVal>>|
            {
                &&& in_order(sorted)
                &&& sorted.to_multiset() == states_view(old(states)@).to_multiset()
                &&& #[trigger] exchanged(sorted, primary_reset@, states_view(final(states)@))
            },
{
    let ghost before = states_view(states@);
    let mut sorted: Vec<ConstBits> = Vec::new();
    let mut index: usize = 0;
    proof {
        assert(states_view(sorted@) =~= seq![]);
        assert(before.take(0) =~= seq![]);
    }
    while index < states.len()
        invariant
            index <= states@.len(),
            sorted@.len() == index,
            before == states_view(states@),
            in_order(states_view(sorted@)),
            states_view(sorted@).to_multiset() == before.take(index as int).to_multiset(),
        decreases states.len() - index,
    {
        assert(before[index as int] == states@[index as int]@);
        insert_state(&mut sorted, states[index].duplicate());
        proof {
            assert(before.take(index + 1) =~= before.take(index as int).push(
                before[index as int],
            ));
            lemma_insert_multiset(before.take(index as int), index as int, before[index as int]);
            assert(before.take(index as int).insert(index as int, before[index as int])
                =~= before.take(index as int).push(before[index as int]));
        }
        index += 1;
    }
    assert(before.take(index as int) =~= before);
    let ghost ordered = states_view(sorted@);
    proof {
        ordered.index_of_first_ensures(primary_reset@);
    }
    if let Some(place) = find_state(&sorted, primary_reset) {
        let first = sorted[0].duplicate();
        let reset = sorted[place].duplicate();
        sorted.set(place, first);
        sorted.set(0, reset);
        assert(ordered[place as int] == primary_reset@);
        assert(states_view(sorted@) =~= ordered.update(place as int, ordered[0]).update(
            0,
            ordered[place as int],
        ));
        proof {
            assert forall|i: int| 0 <= i < place implies ordered[i] != primary_reset@ by {}
            assert(ordered.contains(primary_reset@));
            lemma_first_index(ordered, primary_reset@, place as int);
        }
    }
    assert(exchanged(ordered, primary_reset@, states_view(sorted@)));
    *states = sorted;
}

proof fn lemma_first_index(states: Seq<Seq<BitVal>>, state: Seq<BitVal>, place: int)
    requires
        0 <= place < states.len(),
        states[place] == state,
        forall|i: int| 0 <= i < place ==> states[i] != state,
    ensures
        states.index_of_first(state) == Some(place),
{
    states.index_of_first_ensures(state);
    let found = states.index_of_first(state)->0;
    if found < place {
        assert(states[found] == state);
    } else if place < found {
        assert(states[place] != state);
    }
}

/// A list with its first element and the first occurrence of `state` exchanged.
pub open spec fn exchanged(
    before: Seq<Seq<BitVal>>,
    state: Seq<BitVal>,
    after: Seq<Seq<BitVal>>,
) -> bool {
    match before.index_of_first(state) {
        Some(place) => after == before.update(place, before[0]).update(0, before[place]),
        None => after == before,
    }
}

/// The number of states before `count` that are not zero.
pub open spec fn hot_count(states: Seq<Seq<BitVal>>, count: int) -> nat
    decreases count,
{
    if count <= 0 {
        0
    } else {
        hot_count(states, count - 1) + (if all_zero(states[count - 1]) {
            0nat
        } else {
            1nat
        })
    }
}

pub open spec fn has_zero(states: Seq<Seq<BitVal>>) -> bool {
    exists|i: int| 0 <= i < states.len() && all_zero(#[trigger] states[i])
}

/// One bit per state that is not zero, at least one.
pub open spec fn one_hot_width(states: Seq<Seq<BitVal>>) -> int {
    let hot = states.len() - (if has_zero(states) {
        1int
    } else {
        0int
    });
    if hot < 1 {
        1
    } else {
        hot
    }
}

/// The least width, at least one, in which `count` numbers differ.
pub open spec fn is_binary_width(count: nat, width: nat) -> bool {
    &&& width >= 1
    &&& count <= pow2(width)
    &&& width > 1 ==> count > pow2((width - 1) as nat)
}

pub open spec fn picks_one_hot(
    states: Seq<Seq<BitVal>>,
    original_width: u32,
    objective: FsmObjective,
) -> bool {
    objective is Timing && one_hot_width(states) < original_width
}

/// The code of state `index`.
pub open spec fn state_code(
    states: Seq<Seq<BitVal>>,
    one_hot: bool,
    width: nat,
    index: int,
) -> Seq<bool> {
    if !one_hot {
        bits_of(index, width)
    } else if all_zero(states[index]) {
        hot_word(width, None)
    } else {
        hot_word(width, Some(hot_count(states, index) as u32))
    }
}

fn binary_width(count: usize) -> (width: u32)
    requires
        count <= u32::MAX,
    ensures
        is_binary_width(count as nat, width as nat),
        width <= 32,
{
    let mut width: u32 = 1;
    let mut reach: u64 = 2;
    proof {
        vstd::arithmetic::power2::lemma2_to64();
    }
    while reach < count as u64
        invariant
            1 <= width <= 32,
            reach == pow2(width as nat),
            count <= u32::MAX,
            width > 1 ==> count > pow2((width - 1) as nat),
        decreases 32 - width,
    {
        proof {
            vstd::arithmetic::power2::lemma2_to64();
            lemma_pow2_unfold((width + 1) as nat);
            if width < 32 {
                lemma_pow2_strictly_increases(width as nat, 32);
            }
        }
        reach = reach * 2;
        width += 1;
    }
    width
}

/// Chooses codes for states: one-hot for timing where that is narrower than
/// the states themselves, binary otherwise.
pub fn choose_encoding(states: &Vec<ConstBits>, original_width: u32, objective: FsmObjective)
    -> (result: Result<(u32, Vec<ConstBits>), SynthError>)
    ensures
        result is Err <==> states@.len() > u32::MAX,
        result matches Err(error) ==> error == SynthError::Capacity(Resource::Width),
        result matches Ok(encoding) ==> ({
            let view = states_view(states@);
            let one_hot = picks_one_hot(view, original_width, objective);
            let (width, codes) = encoding;
            &&& if one_hot {
                width == one_hot_width(view)
            } else {
                is_binary_width(view.len(), width as nat)
            }
            &&& codes@.len() == view.len()
            &&& forall|i: int|
                0 <= i < codes@.len() ==> (#[trigger] codes@[i])@.len() == width && all_known(
                    codes@[i]@,
                ) && known_word(codes@[i]@) == state_code(view, one_hot, width as nat, i)
        }),
{
    if states.len() > u32::MAX as usize {
        return Err(SynthError::Capacity(Resource::Width));
    }
    let ghost view = states_view(states@);
    let mut zero: bool = false;
    let mut index: usize = 0;
    while index < states.len()
        invariant
            index <= states@.len(),
            view == states_view(states@),
            zero == exists|i: int| 0 <= i < index && all_zero(#[trigger] view[i]),
        decreases states.len() - index,
    {
        let here: bool = is_zero(&states[index]);
        assert(view[index as int] == states@[index as int]@);
        zero = zero || here;
        index += 1;
    }
    let hot: u32 = (states.len() - (if zero {
        1usize
    } else {
        0usize
    })) as u32;
    let one_hot_size: u32 = if hot < 1 {
        1
    } else {
        hot
    };
    let use_one_hot: bool = objective == FsmObjective::Timing && one_hot_size < original_width;
    let width: u32 = if use_one_hot {
        one_hot_size
    } else {
        binary_width(states.len())
    };
    let mut next_hot_bit: u32 = 0;
    let mut codes: Vec<ConstBits> = Vec::new();
    let mut place: usize = 0;
    while place < states.len()
        invariant
            place <= states@.len(),
            states@.len() <= u32::MAX,
            view == states_view(states@),
            use_one_hot == picks_one_hot(view, original_width, objective),
            use_one_hot ==> next_hot_bit == hot_count(view, place as int),
            next_hot_bit <= place,
            codes@.len() == place,
            forall|i: int|
                0 <= i < codes@.len() ==> (#[trigger] codes@[i])@.len() == width && all_known(
                    codes@[i]@,
                ) && known_word(codes@[i]@) == state_code(view, use_one_hot, width as nat, i),
        decreases states.len() - place,
    {
        assert(view[place as int] == states@[place as int]@);
        if use_one_hot {
            if is_zero(&states[place]) {
                codes.push(boolean_constant(width, None));
            } else {
                codes.push(boolean_constant(width, Some(next_hot_bit)));
                next_hot_bit += 1;
            }
        } else {
            codes.push(binary_constant(width, place as u64));
        }
        place += 1;
    }
    Ok((width, codes))
}

proof fn lemma_hot_bound(states: Seq<Seq<BitVal>>, count: int)
    requires
        0 <= count <= states.len(),
    ensures
        hot_count(states, count) <= count,
        (exists|i: int| 0 <= i < count && all_zero(#[trigger] states[i])) ==> hot_count(
            states,
            count,
        ) < count,
    decreases count,
{
    if count > 0 {
        lemma_hot_bound(states, count - 1);
    }
}

proof fn lemma_hot_order(states: Seq<Seq<BitVal>>, i: int, j: int)
    requires
        0 <= i < j <= states.len(),
        !all_zero(states[i]),
    ensures
        hot_count(states, i) < hot_count(states, j),
    decreases j,
{
    if i + 1 < j {
        lemma_hot_order(states, i, j - 1);
    }
}

/// Different states get different codes, if at most one of them is zero.
pub proof fn codes_are_distinct(
    states: Seq<Seq<BitVal>>,
    one_hot: bool,
    width: nat,
    i: int,
    j: int,
)
    requires
        0 <= i < j < states.len(),
        states.len() <= u32::MAX,
        one_hot ==> width == one_hot_width(states),
        !one_hot ==> states.len() <= pow2(width),
        !(all_zero(states[i]) && all_zero(states[j])),
    ensures
        state_code(states, one_hot, width, i) != state_code(states, one_hot, width, j),
{
    if one_hot {
        lemma_hot_bound(states, states.len() as int);
        lemma_hot_bound(states, i);
        lemma_hot_bound(states, j);
        let a = state_code(states, one_hot, width, i);
        let b = state_code(states, one_hot, width, j);
        if !all_zero(states[j]) {
            lemma_hot_order(states, j, states.len() as int);
            let k = hot_count(states, j) as int;
            assert(b[k]);
            if !all_zero(states[i]) {
                lemma_hot_order(states, i, j);
            }
            assert(!a[k]);
        } else {
            lemma_hot_order(states, i, states.len() as int);
            let k = hot_count(states, i) as int;
            assert(has_zero(states));
            assert(a[k]);
            assert(!b[k]);
        }
    } else {
        lemma_nat_of_bits(i, width);
        lemma_nat_of_bits(j, width);
        vstd::arithmetic::div_mod::lemma_small_mod(i as nat, pow2(width));
        vstd::arithmetic::div_mod::lemma_small_mod(j as nat, pow2(width));
    }
}

/// The state with a number among those that are not zero.
proof fn lemma_hot_state(states: Seq<Seq<BitVal>>, count: int, place: int) -> (index: int)
    requires
        0 <= count <= states.len(),
        0 <= place < hot_count(states, count),
    ensures
        0 <= index < count,
        !all_zero(states[index]),
        hot_count(states, index) == place,
    decreases count,
{
    if !all_zero(states[count - 1]) && hot_count(states, count - 1) == place {
        count - 1
    } else {
        lemma_hot_state(states, count - 1, place)
    }
}

proof fn lemma_hot_total(states: Seq<Seq<BitVal>>, count: int)
    requires
        0 <= count <= states.len(),
        forall|i: int, j: int|
            0 <= i < j < states.len() ==> !(all_zero(#[trigger] states[i]) && all_zero(
                #[trigger] states[j],
            )),
    ensures
        hot_count(states, count) >= count - 1,
        (forall|i: int| 0 <= i < count ==> !all_zero(#[trigger] states[i])) ==> hot_count(
            states,
            count,
        ) == count,
    decreases count,
{
    if count > 0 {
        lemma_hot_total(states, count - 1);
    }
}

/// Of one-hot codes, that of a zero state has no bit set and that of any other state has just
/// one; and no bit is idle.
pub proof fn one_hot_codes_have_one_bit(states: Seq<Seq<BitVal>>, index: int, place: int)
    requires
        states.len() <= u32::MAX,
        0 <= index < states.len(),
        states.len() >= 2,
        0 <= place < one_hot_width(states),
        forall|i: int, j: int|
            0 <= i < j < states.len() ==> !(all_zero(#[trigger] states[i]) && all_zero(
                #[trigger] states[j],
            )),
    ensures
        ({
            let width = one_hot_width(states) as nat;
            let code = state_code(states, true, width, index);
            &&& code.len() == width
            &&& all_zero(states[index]) ==> forall|k: int| 0 <= k < width ==> !(#[trigger] code[k])
            &&& !all_zero(states[index]) ==> exists|k: int|
                0 <= k < width && #[trigger] code[k] && forall|l: int|
                    0 <= l < width && #[trigger] code[l] ==> l == k
            &&& exists|i: int|
                0 <= i < states.len() && #[trigger] state_code(states, true, width, i)[place]
        }),
{
    let width = one_hot_width(states) as nat;
    let code = state_code(states, true, width, index);
    let total = states.len() as int;
    lemma_hot_bound(states, total);
    lemma_hot_total(states, total);
    lemma_hot_bound(states, index);
    if !all_zero(states[index]) {
        lemma_hot_order(states, index, total);
        let k = hot_count(states, index) as int;
        assert(code[k]);
    }
    let i = lemma_hot_state(states, total, place);
    lemma_hot_bound(states, i);
    assert(state_code(states, true, width, i)[place]);
}

/// Binary codes are the numbers of their states.
pub proof fn binary_codes_are_numbers(states: Seq<Seq<BitVal>>, width: nat, index: int)
    requires
        is_binary_width(states.len(), width),
        0 <= index < states.len(),
    ensures
        state_code(states, false, width, index).len() == width,
        nat_of(state_code(states, false, width, index)) == index,
{
    lemma_nat_of_bits(index, width);
    vstd::arithmetic::div_mod::lemma_small_mod(index as nat, pow2(width));
}

/// Numbers rows by the order in which different ones first occur.
pub fn group_signatures(signatures: &Vec<Vec<u64>>) -> (classes: Vec<usize>)
    ensures
        grouped(rows_view(signatures@), classes@),
{
    let ghost rows = rows_view(signatures@);
    let mut classes: Vec<usize> = Vec::new();
    let mut next: usize = 0;
    let mut index: usize = 0;
    assert(rows.take(0).to_set() =~= Set::empty());
    while index < signatures.len()
        invariant
            index <= signatures@.len(),
            rows == rows_view(signatures@),
            classes@.len() == index,
            next <= index,
            next == rows.take(index as int).to_set().len(),
            grouped(rows.take(index as int), classes@),
            forall|i: int| 0 <= i < index ==> #[trigger] classes@[i] < next,
        decreases signatures.len() - index,
    {
        let ghost before = classes@;
        let ghost seen = rows.take(index as int);
        let mut found: Option<usize> = None;
        let mut earlier: usize = 0;
        while earlier < index && found.is_none()
            invariant
                earlier <= index,
                index < signatures@.len(),
                classes@.len() == index,
                classes@ == before,
                rows == rows_view(signatures@),
                found is None ==> forall|i: int|
                    0 <= i < earlier ==> rows[i] != rows[index as int],
                found matches Some(class) ==> exists|i: int|
                    0 <= i < index && rows[i] == rows[index as int] && #[trigger] classes@[i]
                        == class,
            decreases index - earlier,
                (if found is None {
                    1int
                } else {
                    0int
                }),
        {
            assert(rows[earlier as int] == signatures@[earlier as int]@);
            assert(rows[index as int] == signatures@[index as int]@);
            if same_row(&signatures[earlier], &signatures[index]) {
                found = Some(classes[earlier]);
                assert(classes@[earlier as int] == classes[earlier as int]);
            } else {
                earlier += 1;
            }
        }
        let class: usize = match found {
            Some(class) => class,
            None => {
                let class: usize = next;
                next += 1;
                class
            },
        };
        classes.push(class);
        proof {
            let now = rows.take(index + 1);
            assert(now =~= seen.push(rows[index as int]));
            assert(now.to_set() =~= seen.to_set().insert(rows[index as int])) by {
                assert forall|x: Seq<u64>| #[trigger]
                    now.to_set().contains(x) == seen.to_set().insert(rows[index as int]).contains(
                        x,
                    ) by {
                    if now.contains(x) {
                        let k = choose|k: int| 0 <= k < now.len() && now[k] == x;
                        if k < index {
                            assert(seen[k] == x);
                        }
                    }
                    if seen.contains(x) {
                        let k = choose|k: int| 0 <= k < seen.len() && seen[k] == x;
                        assert(now[k] == x);
                    }
                    assert(now[index as int] == rows[index as int]);
                }
            }
            seen.lemma_cardinality_of_set();
            if found is Some {
                let i = choose|i: int|
                    0 <= i < index && rows[i] == rows[index as int] && #[trigger] before[i]
                        == found->0;
                assert(seen[i] == rows[index as int]);
                assert(seen.to_set().contains(rows[index as int]));
                assert(now.to_set() =~= seen.to_set());
            } else {
                assert(!seen.contains(rows[index as int])) by {
                    if seen.contains(rows[index as int]) {
                        let k = choose|k: int|
                            0 <= k < seen.len() && seen[k] == rows[index as int];
                        assert(rows[k] == rows[index as int]);
                    }
                }
            }
            lemma_grouped_push(seen, before, rows[index as int], class);
        }
        index += 1;
    }
    assert(rows.take(index as int) =~= rows);
    classes
}

pub open spec fn rows_view(rows: Seq<Vec<u64>>) -> Seq<Seq<u64>> {
    rows.map_values(|row: Vec<u64>| row@)
}

fn same_row(left: &Vec<u64>, right: &Vec<u64>) -> (same: bool)
    ensures
        same == (left@ == right@),
{
    if left.len() != right.len() {
        return false;
    }
    let mut index: usize = 0;
    while index < left.len()
        invariant
            index <= left@.len(),
            left@.len() == right@.len(),
            forall|i: int| 0 <= i < index ==> left@[i] == right@[i],
        decreases left.len() - index,
    {
        if left[index] != right[index] {
            return false;
        }
        index += 1;
    }
    assert(left@ =~= right@);
    true
}

/// Equal rows share a class, different rows do not, and the class of a row that
/// is new is the number of different rows before it.
pub open spec fn grouped(rows: Seq<Seq<u64>>, classes: Seq<usize>) -> bool {
    &&& classes.len() == rows.len()
    &&& forall|i: int, j: int|
        0 <= i < rows.len() && 0 <= j < rows.len() ==> (#[trigger] classes[i] == #[trigger]
        classes[j]) == (rows[i] == rows[j])
    &&& forall|i: int|
        0 <= i < rows.len() && !rows.take(i).contains(rows[i]) ==> #[trigger] classes[i]
            == rows.take(i).to_set().len()
}

proof fn lemma_grouped_push(
    rows: Seq<Seq<u64>>,
    classes: Seq<usize>,
    row: Seq<u64>,
    class: usize,
)
    requires
        grouped(rows, classes),
        forall|i: int| 0 <= i < rows.len() ==> #[trigger] classes[i] < rows.to_set().len(),
        rows.contains(row) ==> exists|i: int|
            0 <= i < rows.len() && rows[i] == row && #[trigger] classes[i] == class,
        !rows.contains(row) ==> class == rows.to_set().len(),
    ensures
        grouped(rows.push(row), classes.push(class)),
{
    let all = rows.push(row);
    let now = classes.push(class);
    let n = rows.len() as int;
    assert forall|i: int, j: int| 0 <= i < all.len() && 0 <= j < all.len() implies (
    #[trigger] now[i] == #[trigger] now[j]) == (all[i] == all[j]) by {
        if rows.contains(row) {
            let k = choose|k: int| 0 <= k < rows.len() && rows[k] == row && #[trigger] classes[k]
                == class;
            if i < n && j == n {
                assert((classes[i] == classes[k]) == (rows[i] == rows[k]));
            }
            if i == n && j < n {
                assert((classes[j] == classes[k]) == (rows[j] == rows[k]));
            }
        } else {
            if i < n && j == n {
                assert(rows.contains(rows[i]));
                assert(classes[i] < rows.to_set().len());
            }
            if i == n && j < n {
                assert(rows.contains(rows[j]));
                assert(classes[j] < rows.to_set().len());
            }
        }
        if i < n && j < n {
            assert(now[i] == classes[i] && now[j] == classes[j]);
        }
    }
    assert forall|i: int| 0 <= i < all.len() && !all.take(i).contains(all[i]) implies
        #[trigger] now[i] == all.take(i).to_set().len() by {
        if i < n {
            assert(all.take(i) =~= rows.take(i));
            assert(now[i] == classes[i]);
        } else {
            assert(all.take(i) =~= rows);
        }
    }
}

} // verus!
