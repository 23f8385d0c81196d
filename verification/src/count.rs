//! Counts that stop at the largest machine integer.

use vstd::prelude::*;

verus! {

/// A machine count that stops at the largest one.
pub open spec fn saturated(count: nat) -> nat {
    if count > usize::MAX {
        usize::MAX as nat
    } else {
        count
    }
}

/// A product that stops at the largest machine integer.
pub fn saturating_product(left: usize, right: usize) -> (product: usize)
    ensures
        product == saturated((left * right) as nat),
{
    match left.checked_mul(right) {
        Some(product) => product,
        None => usize::MAX,
    }
}

/// The larger of two counts.
pub fn larger(left: u64, right: u64) -> (largest: u64)
    ensures
        largest == (if left < right {
            right
        } else {
            left
        }),
{
    if left < right {
        right
    } else {
        left
    }
}

/// How many marks are set.
pub open spec fn count_true(marks: Seq<bool>) -> nat
    decreases marks.len(),
{
    if marks.len() == 0 {
        0
    } else {
        count_true(marks.drop_last()) + (if marks.last() {
            1nat
        } else {
            0nat
        })
    }
}

/// No more marks are set than there are.
pub proof fn lemma_count_bound(marks: Seq<bool>)
    ensures
        count_true(marks) <= marks.len(),
        (forall|i: int| 0 <= i < marks.len() ==> !#[trigger] marks[i]) ==> count_true(marks) == 0,
        (exists|i: int| 0 <= i < marks.len() && !#[trigger] marks[i]) ==> count_true(marks)
            < marks.len(),
    decreases marks.len(),
{
    if marks.len() > 0 {
        let front = marks.drop_last();
        lemma_count_bound(front);
        if forall|i: int| 0 <= i < marks.len() ==> !#[trigger] marks[i] {
            assert forall|i: int| 0 <= i < front.len() implies !#[trigger] front[i] by {
                assert(!marks[i]);
            }
            assert(!marks[marks.len() - 1]);
        }
        if exists|i: int| 0 <= i < marks.len() && !#[trigger] marks[i] {
            let i = choose|i: int| 0 <= i < marks.len() && !#[trigger] marks[i];
            if i < front.len() {
                assert(!front[i]);
            }
        }
    }
}

/// With fewer marks set than there are, one is unset.
pub proof fn lemma_count_full(marks: Seq<bool>)
    ensures
        (forall|i: int| 0 <= i < marks.len() ==> #[trigger] marks[i]) ==> count_true(marks)
            == marks.len(),
    decreases marks.len(),
{
    if marks.len() > 0 {
        let front = marks.drop_last();
        lemma_count_full(front);
        if forall|i: int| 0 <= i < marks.len() ==> #[trigger] marks[i] {
            assert forall|i: int| 0 <= i < front.len() implies #[trigger] front[i] by {
                assert(marks[i]);
            }
            assert(marks[marks.len() - 1]);
        }
    }
}

/// Setting a mark adds one.
pub proof fn lemma_count_set(marks: Seq<bool>, i: int)
    requires
        0 <= i < marks.len(),
        !marks[i],
    ensures
        count_true(marks.update(i, true)) == count_true(marks) + 1,
    decreases marks.len(),
{
    let more = marks.update(i, true);
    if i == marks.len() - 1 {
        assert(more.drop_last() =~= marks.drop_last());
    } else {
        lemma_count_set(marks.drop_last(), i);
        assert(more.drop_last() =~= marks.drop_last().update(i, true));
    }
}

/// How many marks are set.
pub fn count_marks(marks: &Vec<bool>) -> (count: usize)
    ensures
        count == count_true(marks@),
{
    let mut count: usize = 0;
    let mut index: usize = 0;
    while index < marks.len()
        invariant
            index <= marks@.len(),
            count <= index,
            count == count_true(marks@.take(index as int)),
        decreases marks@.len() - index,
    {
        assert(marks@.take(index + 1).drop_last() =~= marks@.take(index as int));
        if marks[index] {
            count += 1;
        }
        index += 1;
    }
    assert(marks@.take(index as int) =~= marks@);
    count
}

/// As many unset marks as asked for.
pub fn unset_marks(count: usize) -> (marks: Vec<bool>)
    ensures
        marks@.len() == count,
        forall|i: int| 0 <= i < count ==> !#[trigger] marks@[i],
{
    let mut marks: Vec<bool> = Vec::new();
    let mut made: usize = 0;
    while made < count
        invariant
            made == marks@.len() <= count,
            forall|i: int| 0 <= i < made ==> !#[trigger] marks@[i],
        decreases count - made,
    {
        marks.push(false);
        made += 1;
    }
    marks
}

/// As many empty lists as asked for.
pub fn empty_lists<T>(count: usize) -> (lists: Vec<Vec<T>>)
    ensures
        lists@.len() == count,
        forall|i: int| 0 <= i < count ==> (#[trigger] lists@[i])@.len() == 0,
{
    let mut lists: Vec<Vec<T>> = Vec::new();
    let mut made: usize = 0;
    while made < count
        invariant
            made == lists@.len() <= count,
            forall|i: int| 0 <= i < made ==> (#[trigger] lists@[i])@.len() == 0,
        decreases count - made,
    {
        lists.push(Vec::new());
        made += 1;
    }
    lists
}

/// `Vec::capacity`: how many elements fit without another allocation, which is no fewer than there
/// are.
#[verifier::external_body]
pub(crate) fn vec_capacity<T>(list: &Vec<T>) -> (capacity: usize)
    ensures
        capacity >= list@.len(),
{
    list.capacity()
}

} // verus!
