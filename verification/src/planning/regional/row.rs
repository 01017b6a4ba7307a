//! Short ascending rows of numbers.

use vstd::prelude::*;

verus! {

/// Numbers in a `smallvec::SmallVec` with room for one of them in place.
#[verifier::external_body]
pub struct NumberRow {
    items: smallvec::SmallVec<[u32; 1]>,
}

/// The numbers that a `smallvec::SmallVec<[u32; 1]>` holds, in order.
pub uninterp spec fn number_row_items(row: NumberRow) -> Seq<u32>;

impl View for NumberRow {
    type V = Seq<u32>;

    open spec fn view(&self) -> Seq<u32> {
        number_row_items(*self)
    }
}

/// Numbers ascend, and may repeat.
pub open spec fn sorted(numbers: Seq<u32>) -> bool {
    forall|i: int, j: int| 0 <= i <= j < numbers.len() ==> numbers[i] <= numbers[j]
}

/// Numbers ascend without repetition.
pub open spec fn ascending(numbers: Seq<u32>) -> bool {
    forall|i: int, j: int| 0 <= i < j < numbers.len() ==> numbers[i] < numbers[j]
}

/// The numbers without those that equal the one before them.
pub open spec fn without_repeats(numbers: Seq<u32>) -> Seq<u32>
    decreases numbers.len(),
{
    if numbers.len() == 0 {
        seq![]
    } else {
        let before = without_repeats(numbers.drop_last());
        if before.len() > 0 && before.last() == numbers.last() {
            before
        } else {
            before.push(numbers.last())
        }
    }
}

impl NumberRow {
    /// `smallvec::SmallVec::new`: a row without numbers.
    #[verifier::external_body]
    pub(crate) fn new() -> (row: Self)
        ensures
            number_row_items(row) == Seq::<u32>::empty(),
    {
        NumberRow { items: smallvec::SmallVec::new() }
    }

    /// `smallvec::SmallVec::push`: the number comes last.
    #[verifier::external_body]
    pub(crate) fn push(&mut self, number: u32)
        ensures
            number_row_items(*final(self)) == number_row_items(*old(self)).push(number),
    {
        self.items.push(number);
    }

    /// `sort_unstable` of the slice that a `smallvec::SmallVec` is read as: the
    /// same numbers, ascending.
    #[verifier::external_body]
    pub(crate) fn sort_unstable(&mut self)
        ensures
            sorted(number_row_items(*final(self))),
            number_row_items(*final(self)).to_multiset() == number_row_items(
                *old(self),
            ).to_multiset(),
    {
        self.items.sort_unstable();
    }

    /// `smallvec::SmallVec::dedup`: of equal numbers next to each other the first
    /// one stays.
    #[verifier::external_body]
    pub(crate) fn dedup(&mut self)
        ensures
            number_row_items(*final(self)) == without_repeats(number_row_items(*old(self))),
    {
        self.items.dedup();
    }

    /// `smallvec::SmallVec::len`: how many numbers there are.
    #[verifier::external_body]
    pub(crate) fn len(&self) -> (length: usize)
        ensures
            length == number_row_items(*self).len(),
    {
        self.items.len()
    }

    /// Indexing of a `smallvec::SmallVec`: the number at a place.
    #[verifier::external_body]
    pub(crate) fn get(&self, place: usize) -> (number: u32)
        requires
            place < number_row_items(*self).len(),
        ensures
            number == number_row_items(*self)[place as int],
    {
        self.items[place]
    }
}

/// A number occurs once its repeats are gone exactly where it occurred before,
/// and what was sorted ascends.
pub proof fn lemma_without_repeats(numbers: Seq<u32>)
    ensures
        forall|number: u32|
            #[trigger] without_repeats(numbers).contains(number) <==> numbers.contains(number),
        sorted(numbers) ==> ascending(without_repeats(numbers)),
        numbers.len() > 0 ==> without_repeats(numbers).len() > 0 && without_repeats(numbers).last()
            == numbers.last(),
    decreases numbers.len(),
{
    if numbers.len() > 0 {
        let short = numbers.drop_last();
        lemma_without_repeats(short);
        let before = without_repeats(short);
        let all = without_repeats(numbers);
        let last = numbers.last();
        assert forall|number: u32| #[trigger] all.contains(number) <==> numbers.contains(number) by {
            if numbers.contains(number) {
                let i = choose|i: int| 0 <= i < numbers.len() && numbers[i] == number;
                if i < short.len() {
                    assert(short[i] == number);
                    assert(before.contains(number));
                    let j = choose|j: int| 0 <= j < before.len() && before[j] == number;
                    assert(all[j] == number);
                } else {
                    assert(all[all.len() - 1] == number);
                }
            }
            if all.contains(number) {
                let j = choose|j: int| 0 <= j < all.len() && all[j] == number;
                if j < before.len() {
                    assert(before[j] == number);
                    assert(before.contains(number));
                    let i = choose|i: int| 0 <= i < short.len() && short[i] == number;
                    assert(numbers[i] == number);
                } else {
                    assert(numbers[numbers.len() - 1] == number);
                }
            }
        }
        if sorted(numbers) {
            assert forall|i: int, j: int| 0 <= i <= j < short.len() implies short[i] <= short[j] by {
                assert(numbers[i] <= numbers[j]);
            }
            assert forall|i: int, j: int| 0 <= i < j < all.len() implies all[i] < all[j] by {
                if j < before.len() {
                    assert(before[i] < before[j]);
                } else {
                    assert(short.len() > 0);
                    assert(before.last() == short.last());
                    assert(numbers[short.len() - 1] <= numbers[numbers.len() - 1]);
                    if i < before.len() - 1 {
                        assert(before[i] < before[before.len() - 1]);
                    }
                }
            }
        }
    }
}

/// A row ascends and holds exactly the numbers of a list.
pub open spec fn holds_exactly(row: Seq<u32>, numbers: Seq<u32>) -> bool {
    &&& ascending(row)
    &&& forall|number: u32| #[trigger] row.contains(number) <==> numbers.contains(number)
}

/// The row of the numbers of a list.
pub fn normalized(numbers: &Vec<u32>) -> (row: NumberRow)
    ensures
        holds_exactly(row@, numbers@),
{
    let mut row = NumberRow::new();
    let mut i: usize = 0;
    while i < numbers.len()
        invariant
            i <= numbers@.len(),
            row@ == numbers@.take(i as int),
        decreases numbers.len() - i,
    {
        row.push(numbers[i]);
        assert(row@ =~= numbers@.take(i + 1));
        i += 1;
    }
    assert(numbers@.take(i as int) =~= numbers@);
    row.sort_unstable();
    let ghost middle = row@;
    row.dedup();
    proof {
        lemma_without_repeats(middle);
        assert forall|number: u32| #[trigger] middle.contains(number) <==> numbers@.contains(number) by {
            middle.to_multiset_ensures();
            numbers@.to_multiset_ensures();
            assert(middle.to_multiset().count(number) == numbers@.to_multiset().count(number));
        }
        assert forall|number: u32| #[trigger] row@.contains(number) <==> numbers@.contains(number) by {
            assert(middle.contains(number) <==> numbers@.contains(number));
        }
    }
    row
}

/// The numbers of a row as a list.
pub fn listed(row: &NumberRow) -> (numbers: Vec<u32>)
    ensures
        numbers@ == row@,
{
    let mut numbers: Vec<u32> = Vec::new();
    let mut i: usize = 0;
    let total: usize = row.len();
    while i < total
        invariant
            total == row@.len(),
            i <= total,
            numbers@ == row@.take(i as int),
        decreases total - i,
    {
        numbers.push(row.get(i));
        assert(numbers@ =~= row@.take(i + 1));
        i += 1;
    }
    assert(row@.take(i as int) =~= row@);
    numbers
}

/// Two rows of the same numbers are one.
pub proof fn rows_are_determined(left: Seq<u32>, right: Seq<u32>, numbers: Seq<u32>)
    requires
        holds_exactly(left, numbers),
        holds_exactly(right, numbers),
    ensures
        left == right,
    decreases left.len() + right.len(),
{
    if left.len() == 0 {
        if right.len() > 0 {
            assert(right.contains(right[0]));
            assert(left.contains(right[0]));
        }
        assert(left =~= right);
    } else if right.len() == 0 {
        assert(left.contains(left[0]));
        assert(right.contains(left[0]));
    } else {
        let a = left.last();
        let b = right.last();
        assert(left.contains(a) && right.contains(b));
        assert(right.contains(a) && left.contains(b));
        let i = choose|i: int| 0 <= i < right.len() && right[i] == a;
        let j = choose|j: int| 0 <= j < left.len() && left[j] == b;
        assert(a == b) by {
            if i < right.len() - 1 {
                assert(right[i] < right[right.len() - 1]);
            }
            if j < left.len() - 1 {
                assert(left[j] < left[left.len() - 1]);
            }
        }
        let x = left.drop_last();
        let y = right.drop_last();
        assert forall|number: u32| #[trigger] y.contains(number) <==> x.contains(number) by {
            if x.contains(number) {
                let k = choose|k: int| 0 <= k < x.len() && x[k] == number;
                assert(left[k] < left[left.len() - 1]);
                assert(left.contains(number));
                assert(right.contains(number));
                let m = choose|m: int| 0 <= m < right.len() && right[m] == number;
                assert(y[m] == number);
            }
            if y.contains(number) {
                let k = choose|k: int| 0 <= k < y.len() && y[k] == number;
                assert(right[k] < right[right.len() - 1]);
                assert(right.contains(number));
                assert(left.contains(number));
                let m = choose|m: int| 0 <= m < left.len() && left[m] == number;
                assert(x[m] == number);
            }
        }
        rows_are_determined(x, y, x);
        assert(left =~= x.push(a));
        assert(right =~= y.push(b));
    }
}

} // verus!
