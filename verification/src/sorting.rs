//! Sorted lists of numbers.

use vstd::prelude::*;

use crate::earley;

verus! {

/// `slice::sort_unstable`: the same numbers, each as often as before, in ascending order.
#[verifier::external_body]
pub(crate) fn sort_numbers(list: &mut Vec<u32>)
    ensures
        final(list)@.to_multiset() == old(list)@.to_multiset(),
        forall|i: int, j: int|
            0 <= i < j < final(list)@.len() ==> final(list)@[i] <= final(list)@[j],
{
    list.sort_unstable();
}

/// Whether a list ascends without repetition.
pub open spec fn ascending(list: Seq<u32>) -> bool {
    forall|i: int, j: int| 0 <= i < j < list.len() ==> list[i] < list[j]
}

/// The same numbers in ascending order, each once.
pub fn sorted_unique(list: Vec<u32>) -> (sorted: Vec<u32>)
    ensures
        ascending(sorted@),
        forall|x: u32| #[trigger] sorted@.contains(x) <==> list@.contains(x),
{
    let mut all = list;
    sort_numbers(&mut all);
    proof {
        broadcast use vstd::seq_lib::group_to_multiset_ensures;

        assert forall|x: u32| #[trigger] all@.contains(x) <==> list@.contains(x) by {
            assert(all@.to_multiset().count(x) == list@.to_multiset().count(x));
        }
    }
    let mut sorted: Vec<u32> = Vec::new();
    let mut index: usize = 0;
    while index < all.len()
        invariant
            index <= all@.len(),
            forall|i: int, j: int| 0 <= i < j < all@.len() ==> all@[i] <= all@[j],
            ascending(sorted@),
            forall|i: int| 0 <= i < index ==> sorted@.contains(#[trigger] all@[i]),
            forall|i: int| 0 <= i < sorted@.len() ==> all@.contains(#[trigger] sorted@[i]),
            sorted@.len() > 0 ==> index > 0 && sorted@.last() == all@[index - 1],
            sorted@.len() == 0 ==> index == 0,
        decreases all@.len() - index,
    {
        let value: u32 = all[index];
        let fresh = if sorted.len() == 0 {
            true
        } else {
            sorted[sorted.len() - 1] != value
        };
        if fresh {
            let ghost then = sorted@;
            sorted.push(value);
            proof {
                assert forall|i: int| 0 <= i < index + 1 implies sorted@.contains(
                    #[trigger] all@[i],
                ) by {
                    earley::lemma_push_contains(then, value, all@[i]);
                }
                assert forall|i: int, j: int| 0 <= i < j < sorted@.len() implies sorted@[i]
                    < sorted@[j] by {
                    if j == then.len() && then.len() > 0 {
                        assert(then[i] <= then[then.len() - 1]);
                    }
                }
            }
        } else {
            assert(sorted@[sorted@.len() - 1] == all@[index as int]);
        }
        index += 1;
    }
    assert forall|x: u32| #[trigger] sorted@.contains(x) <==> list@.contains(x) by {
        assert(all@.contains(x) <==> list@.contains(x));
        if all@.contains(x) {
            let i = choose|i: int| 0 <= i < all@.len() && all@[i] == x;
            assert(sorted@.contains(all@[i]));
        }
        if sorted@.contains(x) {
            let i = choose|i: int| 0 <= i < sorted@.len() && sorted@[i] == x;
            assert(all@.contains(sorted@[i]));
        }
    }
    sorted
}

} // verus!
