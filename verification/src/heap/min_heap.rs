use vstd::prelude::*;
use vstd::multiset::Multiset;

use crate::sort::simple_sort::swap_elems;

verus! {

broadcast use vstd::seq_lib::group_to_multiset_ensures, vstd::multiset::group_multiset_axioms;

/// A binary min-heap kept in a vector: the parent of the slot at `i >= 1` is
/// the slot at `(i - 1) / 2`, and every parent is at most its children.
pub struct MinHeap {
    size: usize,
    elements: Vec<i64>,
}

/// The min-heap ordering over the backing vector.
pub open spec fn is_heap(s: Seq<i64>) -> bool {
    forall|i: int| 1 <= i < s.len() ==> s[(i - 1) / 2] <= #[trigger] s[i]
}

/// The heap ordering everywhere except that the slot at `j` may be smaller
/// than its parent.
spec fn heap_except_child(s: Seq<i64>, j: int) -> bool {
    forall|i: int| 1 <= i < s.len() && i != j ==> s[(i - 1) / 2] <= #[trigger] s[i]
}

/// The heap ordering everywhere except that the slot at `j` may be larger
/// than its children.
spec fn heap_except_parent(s: Seq<i64>, j: int) -> bool {
    forall|i: int| 1 <= i < s.len() && (i - 1) / 2 != j ==> s[(i - 1) / 2] <= #[trigger] s[i]
}

/// In a heap the root is the least element.
proof fn lemma_heap_root_min(s: Seq<i64>, i: int)
    requires
        is_heap(s),
        0 <= i < s.len(),
    ensures
        s[0] <= s[i],
    decreases i,
{
    if i > 0 {
        lemma_heap_root_min(s, (i - 1) / 2);
    }
}

impl View for MinHeap {
    type V = Multiset<i64>;

    /// The stored elements, as a multiset.
    closed spec fn view(&self) -> Multiset<i64> {
        self.elements@.to_multiset()
    }
}

impl MinHeap {
    /// The recorded size matches the backing vector and the heap ordering
    /// holds.
    pub closed spec fn well_formed(self) -> bool {
        self.size == self.elements@.len() && is_heap(self.elements@)
    }

    /// Creates a new empty heap.
    pub fn new() -> (r: Self)
        ensures
            r.well_formed(),
            r@ == Multiset::<i64>::empty(),
    {
        let r = MinHeap { size: 0, elements: Vec::new() };
        proof {
            assert(r.elements@.to_multiset() =~= Multiset::<i64>::empty());
        }
        r
    }

    /// Builds a heap holding exactly the given elements, draining the vector.
    pub fn from_elements(elements: &mut Vec<i64>) -> (r: Self)
        ensures
            r.well_formed(),
            r@ == old(elements)@.to_multiset(),
            final(elements)@.len() == 0,
    {
        let ghost orig = elements@;
        let mut heap = Self::new();
        while elements.len() > 0
            invariant
                heap.well_formed(),
                heap@.add(elements@.to_multiset()) =~= orig.to_multiset(),
            decreases elements@.len(),
        {
            let ghost pre = elements@;
            let v = elements.remove(0);
            proof {
                assert(elements@.to_multiset() =~= pre.to_multiset().remove(v));
                assert(pre.to_multiset().count(v) > 0);
            }
            heap.insert(v);
            proof {
                assert(heap@.add(elements@.to_multiset()) =~= orig.to_multiset());
            }
        }
        proof {
            assert(elements@.to_multiset() =~= Multiset::<i64>::empty());
            assert(heap@ =~= orig.to_multiset());
        }
        heap
    }

    /// Adds a value to the heap.
    pub fn insert(&mut self, value: i64)
        requires
            old(self).well_formed(),
        ensures
            final(self).well_formed(),
            final(self)@ == old(self)@.insert(value),
    {
        self.elements.push(value);
        let n = self.elements.len();
        proof {
            assert(self.size < n);
            assert(heap_except_child(self.elements@, n - 1)) by {
                assert(forall|i: int|
                    1 <= i < self.elements@.len() - 1 ==> self.elements@[(i - 1) / 2]
                        == old(self).elements@[(i - 1) / 2] && #[trigger] self.elements@[i] == old(
                        self,
                    ).elements@[i]);
            }
        }
        self.size = self.size + 1;
        self.upheap();
    }

    /// Moves the freshly appended last element up to its place.
    #[verifier::rlimit(50)]
    fn upheap(&mut self)
        requires
            old(self).size >= 1,
            old(self).size == old(self).elements@.len(),
            heap_except_child(old(self).elements@, old(self).size - 1),
        ensures
            final(self).size == old(self).size,
            final(self).elements@.len() == old(self).elements@.len(),
            is_heap(final(self).elements@),
            final(self).elements@.to_multiset() == old(self).elements@.to_multiset(),
    {
        let mut index = self.size - 1;
        while index != 0 && self.elements[parent(index)] > self.elements[index]
            invariant
                index < self.size,
                self.size == self.elements@.len(),
                self.size == old(self).size,
                self.elements@.to_multiset() == old(self).elements@.to_multiset(),
                heap_except_child(self.elements@, index as int),
                index > 0 ==> forall|i: int|
                    1 <= i < self.elements@.len() && (i - 1) / 2 == index ==> self.elements@[(
                    index - 1) / 2] <= #[trigger] self.elements@[i],
            decreases index,
        {
            let p = parent(index);
            let ghost s = self.elements@;
            swap_elems(&mut self.elements, p, index);
            proof {
                let t = self.elements@;
                assert(t[p as int] == s[index as int] && t[index as int] == s[p as int]);
                assert forall|i: int|
                    1 <= i < t.len() && i != p implies t[(i - 1) / 2] <= #[trigger] t[i] by {
                    let pi = (i - 1) / 2;
                    if i == index {
                        assert(t[pi] == s[index as int]);
                    } else if pi == index {
                        // a child of the swapped slot: bounded through the old
                        // grandparent bridge
                        assert(s[(index - 1) / 2] <= s[i]);
                    } else if pi == p {
                        // the sibling of the swapped slot
                        assert(s[p as int] <= s[i]);
                        assert(s[index as int] < s[p as int]);
                    } else {
                        assert(s[pi] <= s[i]);
                    }
                }
                if p > 0 {
                    assert forall|i: int|
                        1 <= i < t.len() && (i - 1) / 2 == p as int implies t[(p - 1) / 2]
                        <= #[trigger] t[i] by {
                        assert(t[(p - 1) / 2] == s[(p - 1) / 2]);
                        if i == index {
                            assert(s[(p - 1) / 2] <= s[p as int]);
                        } else {
                            assert(s[(p - 1) / 2] <= s[i]);
                        }
                    }
                }
            }
            index = p;
        }
    }

    /// Removes and returns the least element, or returns `None` on an empty
    /// heap.
    pub fn remove_root(&mut self) -> (r: Option<i64>)
        requires
            old(self).well_formed(),
        ensures
            final(self).well_formed(),
            old(self)@.len() == 0 ==> r is None && final(self)@ == old(self)@,
            old(self)@.len() > 0 ==> r is Some,
            r matches Some(v) ==> old(self)@.count(v) > 0 && final(self)@ == old(self)@.remove(v)
                && (forall|x: i64| old(self)@.count(x) > 0 ==> v <= x),
    {
        if self.size == 0 {
            proof {
                assert(self.elements@.to_multiset().len() == 0);
            }
            return None;
        }
        let ghost s0 = self.elements@;
        proof {
            assert(s0.to_multiset().len() == s0.len());
            assert forall|x: i64| s0.to_multiset().count(x) > 0 implies s0[0] <= x by {
                assert(s0.contains(x));
                let i = choose|i: int| 0 <= i < s0.len() && s0[i] == x;
                lemma_heap_root_min(s0, i);
            }
        }
        let last = self.size - 1;
        swap_elems(&mut self.elements, 0, last);
        let root = self.elements.remove(last);
        self.size = self.size - 1;
        proof {
            let s1 = s0.update(0, s0[last as int]).update(last as int, s0[0]);
            assert(root == s0[0]);
            assert(self.elements@ =~= s1.subrange(0, last as int));
            assert(self.elements@.to_multiset() =~= s1.to_multiset().remove(s0[0]));
            assert(s1.to_multiset() =~= s0.to_multiset());
            assert(heap_except_parent(self.elements@, 0)) by {
                assert(forall|i: int|
                    1 <= i < last ==> self.elements@[i] == s0[i] && (1 <= (i - 1) / 2 ==> (
                    #[trigger] self.elements@[(i - 1) / 2]) == s0[(i - 1) / 2]));
            }
        }
        self.downheap();
        Some(root)
    }

    /// Moves the element parked at the root down to its place.
    #[verifier::rlimit(50)]
    fn downheap(&mut self)
        requires
            old(self).size == old(self).elements@.len(),
            heap_except_parent(old(self).elements@, 0),
        ensures
            final(self).size == old(self).size,
            final(self).elements@.len() == old(self).elements@.len(),
            is_heap(final(self).elements@),
            final(self).elements@.to_multiset() == old(self).elements@.to_multiset(),
    {
        if self.size == 0 {
            return ;
        }
        let mut index: usize = 0;
        loop
            invariant
                index < self.size,
                self.size == self.elements@.len(),
                self.size == old(self).size,
                self.elements@.len() == old(self).elements@.len(),
                self.elements@.to_multiset() == old(self).elements@.to_multiset(),
                heap_except_parent(self.elements@, index as int),
                index > 0 ==> forall|i: int|
                    1 <= i < self.elements@.len() && (i - 1) / 2 == index ==> self.elements@[(
                    index - 1) / 2] <= #[trigger] self.elements@[i],
            ensures
                self.size == old(self).size,
                self.elements@.len() == old(self).elements@.len(),
                is_heap(self.elements@),
                self.elements@.to_multiset() == old(self).elements@.to_multiset(),
            decreases self.size - index,
        {
            let mut min_index = index;
            if index < self.size / 2 {
                let left_child = left_child(index);
                if self.elements[left_child] < self.elements[min_index] {
                    min_index = left_child;
                }
            }
            if self.size >= 1 && index < (self.size - 1) / 2 {
                let right_child = right_child(index);
                if self.elements[right_child] < self.elements[min_index] {
                    min_index = right_child;
                }
            }
            proof {
                let s = self.elements@;
                let n = s.len() as int;
                assert(2 * index + 1 < n ==> s[min_index as int] <= s[2 * index + 1]);
                assert(2 * index + 2 < n ==> s[min_index as int] <= s[2 * index + 2]);
                assert(s[min_index as int] <= s[index as int]);
                assert(min_index != index ==> (min_index == 2 * index + 1 || min_index == 2 * index
                    + 2) && min_index < n);
            }
            if min_index != index {
                let ghost s = self.elements@;
                swap_elems(&mut self.elements, index, min_index);
                proof {
                    let t = self.elements@;
                    let n = t.len() as int;
                    assert(t[index as int] == s[min_index as int] && t[min_index as int] == s[
                    index as int]);
                    assert forall|i: int|
                        1 <= i < n && (i - 1) / 2 != min_index as int implies t[(i - 1) / 2]
                        <= #[trigger] t[i] by {
                        let pi = (i - 1) / 2;
                        if pi == index {
                            if i == min_index {
                                assert(t[i] == s[index as int]);
                            } else {
                                assert(s[min_index as int] <= s[i]);
                            }
                        } else if i == index {
                            // the swapped slot seen as a child of its parent
                            assert(index > 0 && pi == (index - 1) / 2);
                            assert(s[pi] <= s[min_index as int]);
                        } else if i == min_index {
                            assert(pi == index);
                        } else {
                            assert(s[pi] <= s[i]);
                        }
                    }
                    assert forall|i: int|
                        1 <= i < n && (i - 1) / 2 == min_index as int implies t[(min_index - 1) / 2]
                        <= #[trigger] t[i] by {
                        assert((min_index - 1) as int / 2 == index);
                        assert(t[index as int] == s[min_index as int]);
                        assert(i != index && i != min_index);
                        assert(s[min_index as int] <= s[i]);
                    }
                }
                index = min_index;
            } else {
                proof {
                    let s = self.elements@;
                    let n = s.len() as int;
                    assert forall|i: int| 1 <= i < n implies s[(i - 1) / 2] <= #[trigger] s[i] by {
                        if (i - 1) / 2 == index as int {
                            assert(i == 2 * index + 1 || i == 2 * index + 2);
                        }
                    }
                }
                break ;
            }
        }
    }

    /// The number of stored elements.
    pub fn size(&self) -> (r: usize)
        requires
            self.well_formed(),
        ensures
            r == self@.len(),
    {
        proof {
            assert(self.elements@.to_multiset().len() == self.elements@.len());
        }
        self.size
    }
}

/// Index of the parent of a non-root heap slot.
fn parent(index: usize) -> (r: usize)
    requires
        index >= 1,
    ensures
        r == (index - 1) / 2,
{
    (index - 1) / 2
}

/// Index of the left child of a heap slot.
fn left_child(index: usize) -> (r: usize)
    requires
        2 * index + 1 <= usize::MAX,
    ensures
        r == 2 * index + 1,
{
    2 * index + 1
}

/// Index of the right child of a heap slot.
fn right_child(index: usize) -> (r: usize)
    requires
        2 * index + 2 <= usize::MAX,
    ensures
        r == 2 * index + 2,
{
    2 * index + 2
}

} // verus!
