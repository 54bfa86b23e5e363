use vstd::prelude::*;

verus! {

/// The pattern occurs in the text starting at position `s`.
pub open spec fn occurs_at(t: Seq<char>, p: Seq<char>, s: int) -> bool {
    0 <= s && s + p.len() <= t.len() && forall|j: int| 0 <= j < p.len() ==> #[trigger] t[s + j]
        == p[j]
}

/// The first `k` characters of the pattern also end the pattern's prefix of
/// length `q`.
pub open spec fn is_border(p: Seq<char>, q: int, k: int) -> bool {
    0 <= k <= q <= p.len() && forall|j: int| 0 <= j < k ==> #[trigger] p[j] == p[q - k + j]
}

/// The prefix-map entry for position `q` is the length of the longest proper
/// border of the pattern's prefix of length `q + 1`.
pub open spec fn pm_entry_ok(p: Seq<char>, q: int, v: int) -> bool {
    &&& 0 <= v <= q
    &&& is_border(p, q + 1, v)
    &&& forall|m: int| v < m <= q ==> !#[trigger] is_border(p, q + 1, m)
}

/// The last `q` characters of the text's prefix of length `i` equal the
/// pattern's prefix of length `q`.
pub open spec fn matches_suffix(t: Seq<char>, p: Seq<char>, i: int, q: int) -> bool {
    0 <= q <= i <= t.len() && q <= p.len() && forall|j: int| 0 <= j < q ==> #[trigger] p[j] == t[i
        - q + j]
}

/// A border of length `m` of a prefix of length `q + 1` gives a border of
/// length `m - 1` of the prefix of length `q`, and pins the matching
/// character.
proof fn lemma_border_shrink(p: Seq<char>, q: int, m: int)
    requires
        1 <= m <= q,
        is_border(p, q + 1, m),
    ensures
        is_border(p, q, m - 1),
        p[m - 1] == p[q],
{
    assert forall|j: int| 0 <= j < m - 1 implies #[trigger] p[j] == p[q - (m - 1) + j] by {
        assert(p[j] == p[q + 1 - m + j]);
    }
    assert(p[m - 1] == p[q + 1 - m + (m - 1)]);
}

/// A border extends by one when the next characters agree.
proof fn lemma_border_extend(p: Seq<char>, q: int, k: int)
    requires
        is_border(p, q, k),
        k <= q < p.len(),
        p[k] == p[q],
    ensures
        is_border(p, q + 1, k + 1),
{
    assert forall|j: int| 0 <= j < k + 1 implies #[trigger] p[j] == p[q + 1 - (k + 1) + j] by {
        if j < k {
            assert(p[j] == p[q - k + j]);
        }
    }
}

/// A shorter border is a border of a longer one.
proof fn lemma_border_of_border(p: Seq<char>, q: int, k1: int, k2: int)
    requires
        is_border(p, q, k1),
        is_border(p, q, k2),
        k2 <= k1,
    ensures
        is_border(p, k1, k2),
{
    assert forall|j: int| 0 <= j < k2 implies #[trigger] p[j] == p[k1 - k2 + j] by {
        assert(p[j] == p[q - k2 + j]);
        assert(p[k1 - k2 + j] == p[q - k1 + (k1 - k2 + j)]);
    }
}

/// A matched suffix shorter than another one is a border of the longer one.
proof fn lemma_suffix_is_border(t: Seq<char>, p: Seq<char>, i: int, q: int, l: int)
    requires
        matches_suffix(t, p, i, q),
        matches_suffix(t, p, i, l),
        l <= q,
    ensures
        is_border(p, q, l),
{
    assert forall|j: int| 0 <= j < l implies #[trigger] p[j] == p[q - l + j] by {
        assert(p[j] == t[i - l + j]);
        assert(p[q - l + j] == t[i - q + (q - l + j)]);
    }
}

/// Collects the characters of a string.
fn chars_of(s: &str) -> (r: Vec<char>)
    ensures
        r@ == s@,
{
    let n = s.unicode_len();
    let mut out: Vec<char> = Vec::new();
    let mut i: usize = 0;
    while i < n
        invariant
            i <= n,
            n == s@.len(),
            out@ == s@.subrange(0, i as int),
        decreases n - i,
    {
        let c = s.get_char(i);
        out.push(c);
        proof {
            assert(out@ =~= s@.subrange(0, i + 1));
        }
        i += 1;
    }
    proof {
        assert(s@.subrange(0, n as int) =~= s@);
    }
    out
}

/// Computes the prefix map of the pattern: at each position, the length of
/// the longest proper border of the prefix ending there.
pub fn compute_prefix_map(pattern: &str) -> (r: Vec<usize>)
    requires
        pattern@.len() >= 1,
    ensures
        r@.len() == pattern@.len(),
        forall|q: int| 0 <= q < r@.len() ==> pm_entry_ok(pattern@, q, #[trigger] r@[q] as int),
{
    let chars = chars_of(pattern);
    let n = chars.len();
    let ghost p = pattern@;
    let mut prefix_map: Vec<usize> = vec![0; n];
    prefix_map.set(0, 0);
    proof {
        assert(pm_entry_ok(p, 0, 0));
    }
    let mut k: usize = 0;
    let mut q: usize = 1;
    while q < n
        invariant
            1 <= q <= n,
            n == p.len(),
            chars@ == p,
            prefix_map@.len() == n,
            k < q,
            is_border(p, q as int, k as int),
            forall|t: int| 0 <= t < q ==> pm_entry_ok(p, t, #[trigger] prefix_map@[t] as int),
            k == prefix_map@[q - 1],
        decreases n - q,
    {
        proof {
            assert forall|m: int| 1 <= m <= q && #[trigger] is_border(p, q + 1, m) implies m <= k
                + 1 by {
                lemma_border_shrink(p, q as int, m);
                assert(pm_entry_ok(p, q - 1, k as int));
            }
        }
        while k > 0 && chars[k] != chars[q]
            invariant
                1 <= q < n,
                n == p.len(),
                chars@ == p,
                prefix_map@.len() == n,
                k < q,
                is_border(p, q as int, k as int),
                forall|t: int| 0 <= t < q ==> pm_entry_ok(p, t, #[trigger] prefix_map@[t] as int),
                forall|m: int| 1 <= m <= q && #[trigger] is_border(p, q + 1, m) ==> m <= k + 1,
            decreases k,
        {
            let ghost k0 = k as int;
            proof {
                assert(pm_entry_ok(p, k0 - 1, prefix_map@[k0 - 1] as int));
            }
            k = prefix_map[k - 1];
            proof {
                // every border of the next prefix is bounded by the new
                // candidate
                assert forall|m: int| 1 <= m <= q && #[trigger] is_border(p, q + 1, m) implies m <= k + 1 by {
                    assert(m <= k0 + 1);
                    if m == k0 + 1 {
                        lemma_border_shrink(p, q as int, m);
                        assert(p[k0] == p[q as int]);
                    } else if m >= k + 2 {
                        lemma_border_shrink(p, q as int, m);
                        lemma_border_of_border(p, q as int, k0, m - 1);
                        assert(!pm_entry_ok(p, k0 - 1, k as int));
                    }
                }
            }
        }
        let ghost kb = k as int;
        if chars[k] == chars[q] {
            proof {
                lemma_border_extend(p, q as int, kb);
            }
            k = k + 1;
        }
        prefix_map.set(q, k);
        proof {
            assert forall|m: int| k < m <= q implies !#[trigger] is_border(p, q + 1, m) by {
                if is_border(p, q + 1, m) {
                    if kb == k {
                        // the candidate did not extend, so its character
                        // differs from the new one
                        if kb > 0 {
                            assert(m <= kb + 1);
                            assert(m == kb + 1);
                            lemma_border_shrink(p, q as int, m);
                        } else {
                            assert(m >= 1);
                            if m == 1 {
                                assert(p[0] == p[q + 1 - 1]);
                            } else {
                                assert(m <= kb + 1);
                            }
                        }
                    } else {
                        assert(m <= kb + 1);
                    }
                }
            }
            assert(pm_entry_ok(p, q as int, k as int));
            assert(is_border(p, q + 1, k as int));
        }
        q = q + 1;
    }
    prefix_map
}

/// Finds the first occurrence of the pattern in the text with the
/// Knuth-Morris-Pratt matcher: `Some` of the least starting position of an
/// occurrence, or `None` when the pattern occurs nowhere.
pub fn kmp_find(text: &str, pattern: &str) -> (r: Option<usize>)
    requires
        pattern@.len() >= 1,
    ensures
        r matches Some(i) ==> occurs_at(text@, pattern@, i as int),
        r matches Some(i) ==> forall|s: int| 0 <= s < i ==> !occurs_at(text@, pattern@, s),
        r is None ==> forall|s: int| !occurs_at(text@, pattern@, s),
{
    let prefix_map = compute_prefix_map(pattern);
    let text_chars = chars_of(text);
    let pattern_chars = chars_of(pattern);
    let ghost t = text@;
    let ghost p = pattern@;
    let n = text_chars.len();
    let m = pattern_chars.len();
    let mut q: usize = 0;
    let mut i: usize = 0;
    while i < n
        invariant
            i <= n,
            n == t.len(),
            m == p.len(),
            m >= 1,
            text_chars@ == t,
            pattern_chars@ == p,
            t == text@,
            p == pattern@,
            prefix_map@.len() == m,
            forall|tq: int| 0 <= tq < m ==> pm_entry_ok(p, tq, #[trigger] prefix_map@[tq] as int),
            q < m,
            q <= i,
            matches_suffix(t, p, i as int, q as int),
            forall|l: int| q < l <= i && l <= m ==> !#[trigger] matches_suffix(t, p, i as int, l),
            forall|s: int| 0 <= s && s + m <= i ==> !occurs_at(t, p, s),
        decreases n - i,
    {
        while q > 0 && pattern_chars[q] != text_chars[i]
            invariant
                i < n,
                n == t.len(),
                m == p.len(),
                m >= 1,
                text_chars@ == t,
                pattern_chars@ == p,
                prefix_map@.len() == m,
                forall|tq: int| 0 <= tq < m ==> pm_entry_ok(
                    p,
                    tq,
                    #[trigger] prefix_map@[tq] as int,
                ),
                q < m,
                q <= i,
                matches_suffix(t, p, i as int, q as int),
                forall|l: int|
                    0 <= l < m && l <= i && #[trigger] matches_suffix(t, p, i as int, l) && p[l]
                        == t[i as int] ==> l <= q,
            decreases q,
        {
            let ghost q0 = q as int;
            proof {
                assert(pm_entry_ok(p, q0 - 1, prefix_map@[q0 - 1] as int));
            }
            q = prefix_map[q - 1];
            proof {
                // every extendable matched suffix is bounded by the new
                // candidate
                assert forall|l: int|
                    0 <= l < m && l <= i && #[trigger] matches_suffix(t, p, i as int, l) && p[l]
                    == t[i as int] implies l <= q by {
                    assert(l <= q0);
                    if l == q0 {
                        assert(p[q0] == t[i as int]);
                    } else if l > q {
                        lemma_suffix_is_border(t, p, i as int, q0, l);
                        assert(!pm_entry_ok(p, q0 - 1, q as int));
                    }
                }
            }
        }
        let ghost qb = q as int;
        let ghost i0 = i as int;
        if pattern_chars[q] == text_chars[i] {
            q = q + 1;
            proof {
                assert forall|j: int| 0 <= j < q implies #[trigger] p[j] == t[i0 + 1 - (
                qb + 1) + j] by {
                    if j < qb {
                        assert(p[j] == t[i0 - qb + j]);
                    }
                }
                assert(matches_suffix(t, p, i0 + 1, qb + 1));
            }
        } else {
            proof {
                assert(qb == 0);
                assert(matches_suffix(t, p, i0 + 1, 0));
            }
        }
        proof {
            // no matched suffix of the extended text prefix is longer than
            // the new candidate
            assert forall|l: int|
                q < l <= i0 + 1 && l <= m implies !#[trigger] matches_suffix(t, p, i0 + 1, l) by {
                if matches_suffix(t, p, i0 + 1, l) {
                    assert(p[l - 1] == t[i0 + 1 - l + (l - 1)]);
                    assert forall|j: int| 0 <= j < l - 1 implies #[trigger] p[j] == t[i0 - (l - 1)
                        + j] by {
                        assert(p[j] == t[i0 + 1 - l + j]);
                    }
                    assert(matches_suffix(t, p, i0, l - 1));
                    if l - 1 == m {
                    } else {
                        assert(l - 1 <= q);
                    }
                }
            }
        }
        if q == m {
            proof {
                assert(qb + 1 == m && i0 + 1 >= m);
                assert(matches_suffix(t, p, i0 + 1, m as int));
                let s = i0 + 1 - m;
                assert forall|j: int| 0 <= j < m implies #[trigger] t[s + j] == p[j] by {
                    assert(p[j] == t[i0 + 1 - m + j]);
                }
                assert(occurs_at(t, p, s));
                assert forall|s2: int| 0 <= s2 < s implies !occurs_at(t, p, s2) by {
                    assert(s2 + m <= i0);
                }
            }
            let ret = i - (m - 1);
            proof {
                assert(ret as int == i0 + 1 - m);
                assert(occurs_at(t, p, ret as int));
                assert forall|s2: int| 0 <= s2 < ret as int implies !occurs_at(t, p, s2) by {
                    assert(s2 + m <= i0);
                }
                assert(occurs_at(text@, pattern@, ret as int));
                assert(forall|s2: int| 0 <= s2 < ret as int ==> !occurs_at(text@, pattern@, s2));
            }
            return Some(ret);
        }
        proof {
            // no occurrence ends at the new boundary either
            assert forall|s: int| 0 <= s && s + m <= i0 + 1 implies !occurs_at(t, p, s) by {
                if s + m == i0 + 1 && occurs_at(t, p, s) {
                    assert forall|j: int| 0 <= j < m implies #[trigger] p[j] == t[i0 + 1 - m
                        + j] by {
                        assert(t[s + j] == p[j]);
                    }
                    assert(matches_suffix(t, p, i0 + 1, m as int));
                    assert(m <= i0 + 1);
                    assert(q < m);
                }
            }
        }
        i = i + 1;
    }
    proof {
        assert forall|s: int| !occurs_at(t, p, s) by {
            if occurs_at(t, p, s) {
                assert(s + m <= n);
            }
        }
    }
    None
}

} // verus!
