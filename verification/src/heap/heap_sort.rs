use vstd::prelude::*;
use vstd::multiset::Multiset;

use crate::heap::min_heap::MinHeap;
use crate::sort::simple_sort::sorted;

verus! {

broadcast use vstd::seq_lib::group_to_multiset_ensures, vstd::multiset::group_multiset_axioms;

/// Sorts the vector by pouring it into a min-heap and drawing the least
/// element back out until the heap is empty; the result is the ascending
/// ordering of the old contents.
pub fn heap_sort(array: &mut Vec<i64>)
    ensures
        sorted(final(array)@),
        final(array)@.to_multiset() == old(array)@.to_multiset(),
        final(array)@.len() == old(array)@.len(),
{
    let ghost orig = array@;
    let mut heap = MinHeap::from_elements(array);
    let n = heap.size();
    let mut k: usize = 0;
    proof {
        assert(array@.to_multiset() =~= Multiset::<i64>::empty());
        assert(array@.to_multiset().add(heap@) =~= orig.to_multiset());
    }
    while k < n
        invariant
            heap.well_formed(),
            k <= n,
            array@.len() == k,
            heap@.len() == n - k,
            array@.to_multiset().add(heap@) == orig.to_multiset(),
            sorted(array@),
            forall|a: int, x: i64|
                0 <= a < array@.len() && heap@.count(x) > 0 ==> array@[a] <= x,
        decreases n - k,
    {
        let ghost pre_heap = heap@;
        let ghost pre_arr = array@;
        let v = heap.remove_root().unwrap();
        array.push(v);
        k += 1;
        proof {
            assert(array@ == pre_arr.push(v));
            assert(array@.to_multiset() =~= pre_arr.to_multiset().insert(v));
            assert(array@.to_multiset().add(heap@) =~= orig.to_multiset()) by {
                assert(pre_heap.count(v) > 0);
                assert(heap@ == pre_heap.remove(v));
            }
            assert forall|a: int, b: int| 0 <= a <= b < array@.len() implies array@[a]
                <= array@[b] by {
                if b == array@.len() - 1 && a < b {
                    assert(pre_arr[a] <= v);
                }
            }
            assert forall|a: int, x: i64|
                0 <= a < array@.len() && heap@.count(x) > 0 implies array@[a] <= x by {
                assert(pre_heap.count(x) > 0);
                assert(v <= x);
                if a < array@.len() - 1 {
                    assert(pre_arr[a] <= x);
                }
            }
        }
    }
    proof {
        assert(heap@ =~= Multiset::<i64>::empty()) by {
            assert forall|x: i64| heap@.count(x) == 0 by {
                assert(heap@.count(x) <= heap@.len());
            }
        }
        assert(array@.to_multiset() =~= orig.to_multiset());
        assert(array@.to_multiset().len() == orig.to_multiset().len());
    }
}

} // verus!
