use vstd::prelude::*;

verus! {

/// The index `x` is left standing by a sieve run up to `n`: it is at least 2
/// and no candidate `d` with `d * d < n` properly divides it.
///
/// The sieve's candidate loop stops as soon as `i * i >= n`, so for `x` with
/// `x * x >= n > x` a composite index can be left standing; this mirrors the
/// sieve exactly.
pub open spec fn passes_sieve(x: int, n: int) -> bool {
    x >= 2 && forall|d: int| 2 <= d < x && d * d < n ==> #[trigger] (x % d) != 0
}

/// Everything the sieve has done after handling the candidates below `hi`.
spec fn live_after(x: int, hi: int, n: int) -> bool {
    x >= 2 && forall|d: int| 2 <= d < hi && d * d < n && d < x ==> #[trigger] (x % d) != 0
}

/// Divisibility carries across a chain: if `d` divides `i` and `i` divides
/// `x`, then `d` divides `x`.
pub(crate) proof fn lemma_divides_transitive(d: int, i: int, x: int)
    requires
        1 <= d,
        1 <= i,
        i % d == 0,
        x % i == 0,
    ensures
        x % d == 0,
{
    let qi = i / d;
    let qx = x / i;
    vstd::arithmetic::div_mod::lemma_fundamental_div_mod(i, d);
    vstd::arithmetic::div_mod::lemma_fundamental_div_mod(x, i);
    assert(x == (qx * qi) * d) by (nonlinear_arith)
        requires
            i == d * qi + i % d,
            x == i * qx + x % i,
            i % d == 0,
            x % i == 0,
    ;
    assert((qx * qi) * d % d == 0) by (nonlinear_arith)
        requires d >= 1;
}

/// The number is at least 2 and has no proper divisor.
pub open spec fn is_prime(p: int) -> bool {
    p >= 2 && forall|d: int| 2 <= d < p ==> #[trigger] (p % d) != 0
}

/// The product of all entries of the sequence; 1 when it is empty.
pub open spec fn seq_product(s: Seq<i32>) -> int
    decreases s.len(),
{
    if s.len() == 0 {
        1
    } else {
        seq_product(s.drop_last()) * s.last()
    }
}

proof fn lemma_product_push(s: Seq<i32>, v: i32)
    ensures
        seq_product(s.push(v)) == seq_product(s) * v,
{
    assert(s.push(v).drop_last() =~= s);
}

proof fn lemma_product_at_least_two(s: Seq<i32>)
    requires
        forall|j: int| 0 <= j < s.len() ==> 2 <= #[trigger] s[j],
        s.len() >= 1,
    ensures
        seq_product(s) >= 2,
    decreases s.len(),
{
    let dl = s.drop_last();
    if dl.len() == 0 {
        assert(seq_product(s) == 1 * s.last());
    } else {
        lemma_product_at_least_two(dl);
        assert(seq_product(dl) * s.last() >= 2) by (nonlinear_arith)
            requires seq_product(dl) >= 2 && s.last() >= 2;
    }
}

/// Returns a vector of size `n + 1` whose entry at a given index says whether
/// the sieve of Eratosthenes, run with candidates `i` while `i * i < n`,
/// leaves that index standing; all primes up to `n` are left standing, and
/// every index with a divisor among the tried candidates is struck out.
pub fn eratos(n: usize) -> (r: Vec<bool>)
    requires
        n < usize::MAX,
    ensures
        r@.len() == n + 1,
        forall|x: int| 0 <= x <= n ==> r@[x] == passes_sieve(x, n as int),
{
    let mut sieve: Vec<bool> = vec![true; n + 1];
    sieve.set(0, false);
    if n > 0 {
        sieve.set(1, false);
    }
    let mut i: usize = 2;
    while n > 0 && i <= (n - 1) / i
        invariant
            sieve@.len() == n + 1,
            n < usize::MAX,
            2 <= i,
            i <= n || !((i as int) * (i as int) < n as int),
            forall|x: int| 0 <= x <= n ==> sieve@[x] == live_after(x, i as int, n as int),
        decreases n - i,
    {
        proof {
            assert((i as int) * (i as int) < n as int) by (nonlinear_arith)
                requires n >= 1 && i >= 2 && i <= (n - 1) as int / (i as int);
            assert(i < n) by (nonlinear_arith)
                requires (i as int) * (i as int) < n as int && i >= 2;
        }
        let ghost pre = sieve@;
        if sieve[i] {
            proof {
                assert(2 * i <= (i as int) * (i as int)) by (nonlinear_arith)
                    requires i >= 2;
            }
            proof {
                assert((2 * (i as int)) % (i as int) == 0) by (nonlinear_arith)
                    requires i >= 1;
            }
            let mut k = i + i;
            while k <= n
                invariant_except_break
                    sieve@.len() == n + 1,
                    2 <= i < n,
                    (i as int) * (i as int) < n as int,
                    2 * i <= k,
                    k % i == 0,
                    forall|x: int|
                        0 <= x <= n ==> sieve@[x] == (live_after(x, i as int, n as int) && !(
                        x % (i as int) == 0 && 2 * i <= x < k)),
                ensures
                    sieve@.len() == n + 1,
                    forall|x: int|
                        0 <= x <= n ==> sieve@[x] == (live_after(x, i as int, n as int) && !(
                        x % (i as int) == 0 && 2 * i <= x <= n)),
                decreases n - k,
            {
                sieve.set(k, false);
                proof {
                    assert((k as int) % (i as int) == 0 && 2 * i <= k < k + i);
                    assert forall|x: int|
                        0 <= x <= n implies sieve@[x] == (live_after(x, i as int, n as int) && !(
                        x % (i as int) == 0 && 2 * i <= x < k + i)) by {
                        if x != k && x % (i as int) == 0 && 2 * i <= x < k + i {
                            // the only multiple of i in [k, k + i) is k itself
                            assert(x < k) by (nonlinear_arith)
                                requires
                                    x % (i as int) == 0,
                                    (k as int) % (i as int) == 0,
                                    x != k,
                                    x < k + i,
                                    i >= 2,
                                    x >= 0,
                                    k >= 0,
                            ;
                        }
                    }
                }
                if i <= n - k {
                    proof {
                        assert(((k + i) as int) % (i as int) == 0) by (nonlinear_arith)
                            requires (k as int) % (i as int) == 0 && i >= 1;
                    }
                    k = k + i;
                } else {
                    proof {
                        assert forall|x: int|
                            0 <= x <= n implies sieve@[x] == (live_after(x, i as int, n as int)
                            && !(x % (i as int) == 0 && 2 * i <= x <= n)) by {
                            if x % (i as int) == 0 && 2 * i <= x <= n && !(x < k + i) {
                                assert(x >= k + i);
                                assert(false);
                            }
                        }
                    }
                    break ;
                }
            }
            proof {
                assert forall|x: int|
                    0 <= x <= n implies sieve@[x] == live_after(x, i + 1, n as int) by {
                    if live_after(x, i as int, n as int) {
                        if x % (i as int) == 0 && 2 * i <= x <= n {
                            assert(!live_after(x, i + 1, n as int));
                        } else if live_after(x, i + 1, n as int) {
                        } else {
                            let d = choose|d: int|
                                2 <= d < i + 1 && d * d < n as int && d < x && #[trigger] (x % d)
                                    == 0;
                            assert(d == i);
                            assert(x >= 2 * i) by (nonlinear_arith)
                                requires
                                    x % (i as int) == 0,
                                    x > i,
                                    i >= 2,
                            ;
                        }
                    }
                }
            }
        } else {
            proof {
                assert(!live_after(i as int, i as int, n as int));
                let d = choose|d: int|
                    2 <= d < i && d * d < n as int && d < i && #[trigger] ((i as int) % d) == 0;
                assert forall|x: int|
                    0 <= x <= n implies sieve@[x] == live_after(x, i + 1, n as int) by {
                    if live_after(x, i as int, n as int) && !live_after(x, i + 1, n as int) {
                        let e = choose|e: int|
                            2 <= e < i + 1 && e * e < n as int && e < x && #[trigger] (x % e) == 0;
                        assert(e == i);
                        lemma_divides_transitive(d, i as int, x);
                    }
                }
            }
        }
        i = i + 1;
    }
    proof {
        assert(!((i as int) * (i as int) < n as int)) by (nonlinear_arith)
            requires
                i >= 2,
                !(n > 0 && i as int <= (n - 1) as int / (i as int)),
        ;
        assert forall|x: int| 0 <= x <= n implies sieve@[x] == passes_sieve(x, n as int) by {
            assert forall|d: int| 2 <= d && #[trigger] (d * d) < n as int implies d < i by {
                assert(!((i as int) * (i as int) < n as int));
                if d >= i {
                    assert((i as int) * (i as int) <= d * d) by (nonlinear_arith)
                        requires 2 <= i <= d;
                }
            }
        }
    }
    sieve
}

/// Returns the prime factors of `u` in ascending order, with multiplicity:
/// their product is `u`. For 1 the list is empty; for 0 the sieve finds no
/// factor and the number itself is returned as its only entry.
pub fn prime_factors(u: usize) -> (r: Vec<i32>)
    requires
        u <= i32::MAX as usize,
    ensures
        u == 1 ==> r@ == Seq::<i32>::empty(),
        u == 0 ==> r@ == seq![0i32],
        u >= 2 ==> r@.len() >= 1 && seq_product(r@) == u,
        u >= 2 ==> forall|j: int| 0 <= j < r@.len() ==> is_prime(#[trigger] r@[j] as int),
        forall|a: int, b: int| 0 <= a <= b < r@.len() ==> r@[a] <= r@[b],
{
    if u == 1 {
        return Vec::new();
    }
    let mut prime_factors: Vec<i32> = Vec::new();
    let sieve = eratos(u / 2);
    let mut remainder = u;
    let sieve_len = sieve.len();
    let mut i: usize = 2;
    while i < sieve_len
        invariant
            u != 1,
            u <= i32::MAX as usize,
            2 <= i,
            sieve_len == u / 2 + 1,
            sieve@.len() == sieve_len,
            forall|x: int| 0 <= x <= u / 2 ==> sieve@[x] == passes_sieve(x, (u / 2) as int),
            u >= 2 ==> 1 <= remainder <= u,
            u == 0 ==> remainder == 0 && prime_factors@.len() == 0,
            seq_product(prime_factors@) * remainder == u,
            forall|d: int| 2 <= d < i ==> #[trigger] ((remainder as int) % d) != 0,
            forall|j: int|
                0 <= j < prime_factors@.len() ==> is_prime(#[trigger] prime_factors@[j] as int),
            forall|j: int| 0 <= j < prime_factors@.len() ==> 2 <= #[trigger] prime_factors@[j] <= i,
            forall|a: int, b: int|
                0 <= a <= b < prime_factors@.len() ==> prime_factors@[a] <= prime_factors@[b],
        decreases sieve_len - i,
    {
        proof {
            assert(u >= 2);
        }
        if sieve[i] {
            while remainder % i == 0
                invariant
                    2 <= i < sieve_len,
                    sieve_len == u / 2 + 1,
                    u >= 2,
                    u <= i32::MAX as usize,
                    1 <= remainder <= u,
                    seq_product(prime_factors@) * remainder == u,
                    forall|d: int| 2 <= d < i ==> #[trigger] ((remainder as int) % d) != 0,
                    forall|j: int|
                        0 <= j < prime_factors@.len() ==> is_prime(
                            #[trigger] prime_factors@[j] as int,
                        ),
                    forall|j: int|
                        0 <= j < prime_factors@.len() ==> 2 <= #[trigger] prime_factors@[j] <= i,
                    forall|a: int, b: int|
                        0 <= a <= b < prime_factors@.len() ==> prime_factors@[a]
                            <= prime_factors@[b],
                decreases remainder,
            {
                let ghost pre_rem = remainder as int;
                let ghost pre_pf = prime_factors@;
                proof {
                    // the candidate divides the remainder and nothing smaller
                    // does, so it is prime
                    assert(remainder >= i) by (nonlinear_arith)
                        requires
                            (remainder as int) % (i as int) == 0 && remainder >= 1 && i >= 2,
                    ;
                    assert forall|d: int| 2 <= d < i implies #[trigger] ((i as int) % d) != 0 by {
                        if (i as int) % d == 0 {
                            lemma_divides_transitive(d, i as int, remainder as int);
                        }
                    }
                    assert(is_prime(i as int));
                }
                remainder = remainder / i;
                prime_factors.push(i as i32);
                proof {
                    lemma_product_push(pre_pf, i as i32);
                    vstd::arithmetic::div_mod::lemma_fundamental_div_mod(pre_rem, i as int);
                    assert(remainder >= 1 && remainder < pre_rem) by (nonlinear_arith)
                        requires
                            pre_rem == (i as int) * (remainder as int),
                            pre_rem >= i >= 2,
                            remainder == pre_rem / (i as int),
                            pre_rem % (i as int) == 0,
                    ;
                    assert(seq_product(prime_factors@) * remainder == u) by (nonlinear_arith)
                        requires
                            seq_product(prime_factors@) == seq_product(pre_pf) * (i as int),
                            pre_rem == (i as int) * (remainder as int),
                            seq_product(pre_pf) * pre_rem == u,
                    ;
                    assert forall|d: int|
                        2 <= d < i implies #[trigger] ((remainder as int) % d) != 0 by {
                        if (remainder as int) % d == 0 {
                            assert(pre_rem % (remainder as int) == 0) by (nonlinear_arith)
                                requires
                                    pre_rem == (i as int) * (remainder as int) && remainder >= 1,
                            ;
                            lemma_divides_transitive(d, remainder as int, pre_rem);
                        }
                    }
                }
            }
        } else {
            proof {
                assert(i <= u / 2);
                assert(!passes_sieve(i as int, (u / 2) as int));
                let d = choose|d: int|
                    2 <= d < i && d * d < (u / 2) as int && #[trigger] ((i as int) % d) == 0;
                if (remainder as int) % (i as int) == 0 {
                    lemma_divides_transitive(d, i as int, remainder as int);
                }
            }
        }
        i += 1;
    }
    if prime_factors.len() == 0 {
        proof {
            assert(seq_product(prime_factors@) == 1);
            assert(remainder == u);
            if u >= 2 {
                assert forall|d: int| 2 <= d < u implies #[trigger] ((u as int) % d) != 0 by {
                    if (u as int) % d == 0 {
                        assert(d <= (u as int) / 2) by (nonlinear_arith)
                            requires
                                (u as int) % d == 0 && 2 <= d < u as int,
                        ;
                        assert((u / 2) as int == (u as int) / 2);
                        assert((remainder as int) % d != 0);
                    }
                }
                assert(is_prime(u as int));
            }
        }
        let ghost empty_pf = prime_factors@;
        proof {
            assert(empty_pf =~= Seq::<i32>::empty());
        }
        prime_factors.push(u as i32);
        proof {
            if u == 0 {
                assert(prime_factors@ =~= seq![0i32]);
            } else {
                lemma_product_push(empty_pf, u as i32);
                assert(seq_product(prime_factors@) == 1 * (u as i32));
            }
        }
    } else {
        proof {
            assert(u >= 2);
            lemma_product_at_least_two(prime_factors@);
            if remainder >= 2 {
                if remainder <= u / 2 {
                    assert((remainder as int) % (remainder as int) == 0) by (nonlinear_arith)
                        requires remainder >= 1;
                }
                assert(remainder > u / 2);
                assert(false) by (nonlinear_arith)
                    requires
                        seq_product(prime_factors@) >= 2,
                        seq_product(prime_factors@) * remainder == u,
                        (remainder as int) > (u as int) / 2,
                        remainder >= 2,
                        u >= 2,
                ;
            }
            assert(remainder == 1);
        }
    }
    prime_factors
}

} // verus!
