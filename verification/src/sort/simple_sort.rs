use vstd::prelude::*;

verus! {

broadcast use vstd::seq_lib::group_to_multiset_ensures;

/// The sequence is in ascending order.
pub open spec fn sorted(s: Seq<i64>) -> bool {
    forall|a: int, b: int| 0 <= a <= b < s.len() ==> s[a] <= s[b]
}

/// A sequence whose every adjacent pair is ordered is sorted.
pub proof fn lemma_adjacent_sorted(s: Seq<i64>, a: int, b: int)
    requires
        forall|k: int| 0 <= k < s.len() - 1 ==> #[trigger] s[k] <= s[k + 1],
        0 <= a <= b < s.len(),
    ensures
        s[a] <= s[b],
    decreases b - a,
{
    if a < b {
        lemma_adjacent_sorted(s, a, b - 1);
        assert(s[b - 1] <= s[b]);
    }
}

/// Exchanges two elements of a vector; the contents are unchanged as a
/// multiset.
pub(crate) fn swap_elems(v: &mut Vec<i64>, i: usize, j: usize)
    requires
        i < old(v)@.len(),
        j < old(v)@.len(),
    ensures
        final(v)@ == old(v)@.update(i as int, old(v)@[j as int]).update(
            j as int,
            old(v)@[i as int],
        ),
        final(v)@.to_multiset() == old(v)@.to_multiset(),
        final(v)@.len() == old(v)@.len(),
{
    let ghost pre = v@;
    let a = v[i];
    let b = v[j];
    v.set(i, b);
    v.set(j, a);
    proof {
        broadcast use vstd::multiset::group_multiset_axioms;

        assert(v@.to_multiset() =~= pre.to_multiset());
    }
}

/// Sorts the vector in place by repeatedly selecting the least remaining
/// element; the result is the ascending ordering of the old contents.
pub fn selection_sort(array: &mut Vec<i64>)
    requires
        old(array)@.len() >= 1,
    ensures
        sorted(final(array)@),
        final(array)@.to_multiset() == old(array)@.to_multiset(),
        final(array)@.len() == old(array)@.len(),
{
    let n = array.len();
    let mut i: usize = 0;
    while i < n - 1
        invariant
            n == array@.len(),
            n >= 1,
            i <= n - 1,
            array@.to_multiset() == old(array)@.to_multiset(),
            forall|a: int, b: int| 0 <= a <= b < i ==> array@[a] <= array@[b],
            forall|a: int, b: int| 0 <= a < i && i <= b < n ==> array@[a] <= array@[b],
        decreases n - i,
    {
        let mut min: usize = i;
        let mut j = i + 1;
        while j < n
            invariant
                i < n,
                i <= min < n,
                i < j <= n,
                n == array@.len(),
                forall|k: int| i <= k < j ==> array@[min as int] <= array@[k],
            decreases n - j,
        {
            if array[j] < array[min] {
                min = j;
            }
            j += 1;
        }
        swap_elems(array, i, min);
        i += 1;
    }
    proof {
        assert(sorted(array@));
    }
}

/// Sorts the vector in place by inserting each element into the sorted run
/// before it; the result is the ascending ordering of the old contents.
pub fn insertion_sort(array: &mut Vec<i64>)
    ensures
        sorted(final(array)@),
        final(array)@.to_multiset() == old(array)@.to_multiset(),
        final(array)@.len() == old(array)@.len(),
{
    let n = array.len();
    let mut i: usize = 1;
    while i < n
        invariant
            n == array@.len(),
            1 <= i || n == 0,
            i <= n || n == 0,
            array@.to_multiset() == old(array)@.to_multiset(),
            forall|a: int, b: int| 0 <= a <= b < i && b < n ==> array@[a] <= array@[b],
        decreases n - i,
    {
        let mut j = i;
        while j > 0 && array[j] < array[j - 1]
            invariant
                j <= i < n,
                n == array@.len(),
                array@.to_multiset() == old(array)@.to_multiset(),
                forall|a: int, b: int|
                    0 <= a <= b <= i && a != j && b != j ==> array@[a] <= array@[b],
                forall|b: int| j < b <= i ==> array@[j as int] <= array@[b],
            decreases j,
        {
            swap_elems(array, j - 1, j);
            j -= 1;
        }
        proof {
            assert forall|a: int, b: int| 0 <= a <= b <= i implies array@[a] <= array@[b] by {
                if a == b {
                } else if b == j {
                    assert(array@[j - 1] <= array@[j as int]);
                    if a < j - 1 {
                        assert(array@[a] <= array@[j - 1]);
                    }
                } else if a == j {
                    assert(array@[j as int] <= array@[b]);
                }
            }
        }
        i += 1;
    }
    proof {
        assert(sorted(array@));
    }
}

/// Sorts the vector in place by bubbling larger elements towards the end,
/// stopping early once a pass makes no exchange; the result is the ascending
/// ordering of the old contents.
pub fn bubble_sort(array: &mut Vec<i64>)
    requires
        old(array)@.len() >= 1,
    ensures
        sorted(final(array)@),
        final(array)@.to_multiset() == old(array)@.to_multiset(),
        final(array)@.len() == old(array)@.len(),
{
    let n = array.len();
    let mut i: usize = 0;
    while i < n
        invariant_except_break
            n == array@.len(),
            n >= 1,
            i <= n,
            array@.to_multiset() == old(array)@.to_multiset(),
            forall|a: int, b: int| n - i <= a <= b < n ==> array@[a] <= array@[b],
            forall|a: int, b: int| 0 <= a < n - i && n - i <= b < n ==> array@[a] <= array@[b],
        ensures
            n == array@.len(),
            array@.to_multiset() == old(array)@.to_multiset(),
            sorted(array@),
        decreases n - i,
    {
        let mut swapped = false;
        let mut j: usize = 0;
        while j < n - i - 1
            invariant
                i < n,
                n == array@.len(),
                j <= n - i - 1,
                array@.to_multiset() == old(array)@.to_multiset(),
                forall|k: int| 0 <= k < j ==> array@[k] <= array@[j as int],
                forall|a: int, b: int| n - i <= a <= b < n ==> array@[a] <= array@[b],
                forall|a: int, b: int| 0 <= a < n - i && n - i <= b < n ==> array@[a] <= array@[b],
                !swapped ==> forall|k: int| 0 <= k < j ==> #[trigger] array@[k] <= array@[k + 1],
            decreases n - i - j,
        {
            if array[j] > array[j + 1] {
                swap_elems(array, j, j + 1);
                swapped = true;
            }
            j += 1;
        }
        if !swapped {
            proof {
                assert forall|a: int, b: int| 0 <= a <= b < array@.len() implies array@[a]
                    <= array@[b] by {
                    if b < n - i {
                        lemma_adjacent_sorted(array@.subrange(0, n - i), a, b);
                        assert(array@.subrange(0, n - i)[a] == array@[a]);
                    } else if a >= n - i {
                    }
                }
            }
            break ;
        }
        i += 1;
        proof {
            if i == n {
                assert(sorted(array@));
            }
        }
    }
    proof {
        assert(sorted(array@));
    }
}

} // verus!
