use vstd::prelude::*;

use crate::sort::simple_sort::sorted;

verus! {

broadcast use vstd::seq_lib::group_to_multiset_ensures;

/// Sorts the vector in place by recursively sorting each half and merging;
/// the result is the ascending ordering of the old contents.
pub fn mergesort(array: &mut Vec<i64>)
    ensures
        sorted(final(array)@),
        final(array)@.to_multiset() == old(array)@.to_multiset(),
        final(array)@.len() == old(array)@.len(),
{
    let n = array.len();
    mergesort_internal(array, 0, n);
    proof {
        assert(array@.subrange(0, n as int) =~= array@);
        assert(old(array)@.subrange(0, n as int) =~= old(array)@);
    }
}

/// Sorts the index range `[left, right)` of the vector, leaving everything
/// outside the range as it was.
fn mergesort_internal(array: &mut Vec<i64>, left: usize, right: usize)
    requires
        left <= right <= old(array)@.len(),
    ensures
        final(array)@.len() == old(array)@.len(),
        final(array)@.subrange(0, left as int) == old(array)@.subrange(0, left as int),
        final(array)@.subrange(right as int, old(array)@.len() as int) == old(array)@.subrange(
            right as int,
            old(array)@.len() as int,
        ),
        sorted(final(array)@.subrange(left as int, right as int)),
        final(array)@.subrange(left as int, right as int).to_multiset() == old(array)@.subrange(
            left as int,
            right as int,
        ).to_multiset(),
    decreases right - left,
{
    if right - left <= 1 {
        proof {
            assert(array@.subrange(0, left as int) =~= old(array)@.subrange(0, left as int));
        }
        return ;
    }
    let m = left + (right - left) / 2;
    let ghost at_entry = array@;
    mergesort_internal(array, left, m);
    let ghost after_first = array@;
    mergesort_internal(array, m, right);
    let ghost after_second = array@;
    proof {
        // The two halves are now each sorted and hold the same contents as at
        // entry, piecewise.
        assert(after_second.subrange(left as int, m as int) =~= after_first.subrange(
            left as int,
            m as int,
        )) by {
            assert(after_second.subrange(0, m as int) == after_first.subrange(0, m as int));
            assert(after_second.subrange(0, m as int).subrange(left as int, m as int)
                =~= after_second.subrange(left as int, m as int));
            assert(after_first.subrange(0, m as int).subrange(left as int, m as int)
                =~= after_first.subrange(left as int, m as int));
        }
        assert(after_first.subrange(m as int, right as int) =~= at_entry.subrange(
            m as int,
            right as int,
        )) by {
            assert(after_first.subrange(m as int, after_first.len() as int) == at_entry.subrange(
                m as int,
                at_entry.len() as int,
            ));
            assert(after_first.subrange(m as int, after_first.len() as int).subrange(
                0,
                right - m,
            ) =~= after_first.subrange(m as int, right as int));
            assert(at_entry.subrange(m as int, at_entry.len() as int).subrange(0, right - m)
                =~= at_entry.subrange(m as int, right as int));
        }
    }
    merge(array, left, m, right);
    proof {
        // Stitch the bookkeeping back together across the three calls.
        assert(array@.subrange(0, left as int) =~= old(array)@.subrange(0, left as int)) by {
            assert(after_second.subrange(0, left as int) =~= after_first.subrange(0, left as int))
                by {
                assert(after_second.subrange(0, m as int) == after_first.subrange(0, m as int));
                assert(after_second.subrange(0, m as int).subrange(0, left as int)
                    =~= after_second.subrange(0, left as int));
                assert(after_first.subrange(0, m as int).subrange(0, left as int)
                    =~= after_first.subrange(0, left as int));
            }
        }
        assert(array@.subrange(right as int, old(array)@.len() as int) =~= old(array)@.subrange(
            right as int,
            old(array)@.len() as int,
        )) by {
            let n = old(array)@.len() as int;
            assert(after_first.subrange(right as int, n) =~= at_entry.subrange(right as int, n))
                by {
                assert(after_first.subrange(m as int, n) == at_entry.subrange(m as int, n));
                assert(after_first.subrange(m as int, n).subrange(right - m, n - m)
                    =~= after_first.subrange(right as int, n));
                assert(at_entry.subrange(m as int, n).subrange(right - m, n - m)
                    =~= at_entry.subrange(right as int, n));
            }
        }
        // The merged range holds the same multiset as at entry.
        let lo_entry = at_entry.subrange(left as int, m as int);
        let hi_entry = at_entry.subrange(m as int, right as int);
        let lo_after = after_second.subrange(left as int, m as int);
        let hi_after = after_second.subrange(m as int, right as int);
        vstd::seq_lib::lemma_multiset_commutative(lo_entry, hi_entry);
        vstd::seq_lib::lemma_multiset_commutative(lo_after, hi_after);
        assert(lo_entry + hi_entry =~= at_entry.subrange(left as int, right as int));
        assert(lo_after + hi_after =~= after_second.subrange(left as int, right as int));
        assert(after_second.subrange(left as int, right as int).to_multiset()
            =~= at_entry.subrange(left as int, right as int).to_multiset());
    }
}

/// Merges the two sorted runs `[left, m)` and `[m, right)` into one sorted
/// run, leaving everything outside `[left, right)` as it was.
fn merge(array: &mut Vec<i64>, left: usize, m: usize, right: usize)
    requires
        left <= m <= right <= old(array)@.len(),
        sorted(old(array)@.subrange(left as int, m as int)),
        sorted(old(array)@.subrange(m as int, right as int)),
    ensures
        final(array)@.len() == old(array)@.len(),
        final(array)@.subrange(0, left as int) == old(array)@.subrange(0, left as int),
        final(array)@.subrange(right as int, old(array)@.len() as int) == old(array)@.subrange(
            right as int,
            old(array)@.len() as int,
        ),
        sorted(final(array)@.subrange(left as int, right as int)),
        final(array)@.subrange(left as int, right as int).to_multiset() == old(array)@.subrange(
            left as int,
            right as int,
        ).to_multiset(),
{
    let ghost entry = array@;
    let mut temp: Vec<i64> = Vec::new();
    let mut lp = left;
    let mut rp = m;
    while lp < m || rp < right
        invariant
            left <= lp <= m <= rp <= right <= array@.len(),
            array@ == entry,
            sorted(entry.subrange(left as int, m as int)),
            sorted(entry.subrange(m as int, right as int)),
            temp@.len() == (lp - left) + (rp - m),
            sorted(temp@),
            temp@.to_multiset() == entry.subrange(left as int, lp as int).to_multiset().add(
                entry.subrange(m as int, rp as int).to_multiset(),
            ),
            temp@.len() > 0 && lp < m ==> temp@.last() <= entry[lp as int],
            temp@.len() > 0 && rp < right ==> temp@.last() <= entry[rp as int],
        decreases (m - lp) + (right - rp),
    {
        let ghost pre_temp = temp@;
        let take_left = if rp >= right {
            true
        } else if lp < m {
            array[lp] < array[rp]
        } else {
            false
        };
        if take_left {
            proof {
                assert(entry.subrange(left as int, lp + 1).drop_last() =~= entry.subrange(
                    left as int,
                    lp as int,
                ));
                assert(forall|k: int|
                    lp + 1 <= k < m ==> entry.subrange(left as int, m as int)[lp - left]
                        <= #[trigger] entry.subrange(left as int, m as int)[k - left]);
            }
            temp.push(array[lp]);
            lp += 1;
        } else {
            proof {
                assert(entry.subrange(m as int, rp + 1).drop_last() =~= entry.subrange(
                    m as int,
                    rp as int,
                ));
            }
            temp.push(array[rp]);
            rp += 1;
        }
        proof {
            assert(temp@ == pre_temp.push(temp@.last()));
            assert forall|a: int, b: int| 0 <= a <= b < temp@.len() implies temp@[a] <= temp@[b]
                by {
                if b < temp@.len() - 1 {
                    assert(pre_temp[a] <= pre_temp[b]);
                }
            }
            if take_left {
                assert(entry.subrange(left as int, lp as int) =~= entry.subrange(
                    left as int,
                    lp - 1,
                ).push(entry[lp - 1]));
            } else {
                assert(entry.subrange(m as int, rp as int) =~= entry.subrange(m as int, rp
                    - 1).push(entry[rp - 1]));
            }
            assert(temp@.to_multiset() =~= entry.subrange(left as int, lp as int).to_multiset().add(
                entry.subrange(m as int, rp as int).to_multiset(),
            ));
            if lp < m {
                assert(entry.subrange(left as int, m as int)[lp - left] == entry[lp as int]);
                if take_left {
                    assert(entry.subrange(left as int, m as int)[lp - 1 - left] <= entry.subrange(
                        left as int,
                        m as int,
                    )[lp - left]);
                }
            }
            if rp < right {
                assert(entry.subrange(m as int, right as int)[rp - m] == entry[rp as int]);
                if !take_left {
                    assert(entry.subrange(m as int, right as int)[rp - 1 - m] <= entry.subrange(
                        m as int,
                        right as int,
                    )[rp - m]);
                }
            }
            if take_left && rp < right {
                assert(temp@.last() == entry[lp - 1]);
            }
            if !take_left && lp < m {
                assert(temp@.last() == entry[rp - 1]);
            }
        }
    }
    proof {
        assert(entry.subrange(left as int, lp as int) =~= entry.subrange(left as int, m as int));
        assert(entry.subrange(m as int, rp as int) =~= entry.subrange(m as int, right as int));
        vstd::seq_lib::lemma_multiset_commutative(
            entry.subrange(left as int, m as int),
            entry.subrange(m as int, right as int),
        );
        assert(entry.subrange(left as int, m as int) + entry.subrange(m as int, right as int)
            =~= entry.subrange(left as int, right as int));
    }
    let mut idx: usize = 0;
    let tn = temp.len();
    while idx < tn
        invariant
            tn == temp@.len(),
            tn == right - left,
            left <= right <= array@.len(),
            array@.len() == entry.len(),
            idx <= tn,
            forall|k: int| 0 <= k < left ==> array@[k] == entry[k],
            forall|k: int| right <= k < entry.len() ==> array@[k] == entry[k],
            forall|k: int| 0 <= k < idx ==> array@[left + k] == temp@[k],
        decreases tn - idx,
    {
        array.set(left + idx, temp[idx]);
        idx += 1;
    }
    proof {
        assert(array@.subrange(left as int, right as int) =~= temp@);
        assert(array@.subrange(0, left as int) =~= entry.subrange(0, left as int));
        assert(array@.subrange(right as int, entry.len() as int) =~= entry.subrange(
            right as int,
            entry.len() as int,
        ));
    }
}

} // verus!
