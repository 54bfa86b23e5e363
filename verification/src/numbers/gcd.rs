use vstd::prelude::*;

use crate::numbers::eratos::{is_prime, lemma_divides_transitive, prime_factors, seq_product};

verus! {

/// The greatest common divisor, by Euclid's recursion; `spec_gcd(a, 0) == a`,
/// so `spec_gcd(0, 0) == 0`.
pub open spec fn spec_gcd(a: nat, b: nat) -> nat
    decreases b,
{
    if b == 0 {
        a
    } else {
        spec_gcd(b, a % b)
    }
}

/// The greatest common divisor does not depend on the order of its arguments.
pub proof fn lemma_gcd_comm(a: nat, b: nat)
    ensures
        spec_gcd(a, b) == spec_gcd(b, a),
{
    if a == 0 && b == 0 {
    } else if b == 0 {
        assert(0 as nat % a == 0) by (nonlinear_arith)
            requires a > 0;
        assert(spec_gcd(b, a) == spec_gcd(a, 0));
    } else if a == 0 {
        assert(0 as nat % b == 0) by (nonlinear_arith)
            requires b > 0;
        assert(spec_gcd(a, b) == spec_gcd(b, 0));
    } else if a == b {
        assert(a % b == 0) by (nonlinear_arith)
            requires a == b && b > 0;
    } else if a > b {
        assert(b % a == b) by (nonlinear_arith)
            requires 0 < b < a;
        assert(spec_gcd(b, a) == spec_gcd(a, b % a));
    } else {
        assert(a % b == a) by (nonlinear_arith)
            requires 0 < a < b;
        assert(spec_gcd(a, b) == spec_gcd(b, a % b));
    }
}

/// With a positive second argument the greatest common divisor is at most
/// that argument.
pub proof fn lemma_gcd_le(a: nat, b: nat)
    requires
        b > 0,
    ensures
        spec_gcd(a, b) <= b,
    decreases b,
{
    assert(a % b < b) by (nonlinear_arith)
        requires b > 0;
    let r = a % b;
    assert(spec_gcd(a, b) == spec_gcd(b, r));
    if r == 0 {
        assert(spec_gcd(b, 0) == b);
    } else {
        lemma_gcd_le(b, r);
    }
}

/// A multiple of a multiple of `d` is a multiple of `d`.
proof fn lemma_scale_divides(k: int, m: int, d: int)
    requires
        d >= 1,
        m % d == 0,
    ensures
        (k * m) % d == 0,
{
    vstd::arithmetic::div_mod::lemma_fundamental_div_mod(m, d);
    let t = m / d;
    assert(k * m == (k * t) * d) by (nonlinear_arith)
        requires m == d * t + m % d && m % d == 0;
    vstd::arithmetic::div_mod::lemma_mod_multiples_basic(k * t, d);
}

/// Bezout's identity: the greatest common divisor is an integer combination
/// of the two numbers.
proof fn lemma_bezout(a: nat, b: nat)
    ensures
        exists|x: int, y: int| #![trigger x * a, y * b] x * a + y * b == spec_gcd(a, b),
    decreases b,
{
    if b == 0 {
        assert(1int * a + 0int * b == spec_gcd(a, b)) by (nonlinear_arith)
            requires spec_gcd(a, b) == a;
    } else {
        lemma_bezout(b, a % b);
        let (x, y) = choose|x: int, y: int| #![trigger x * b, y * (a % b)] x * b + y * (a % b) == spec_gcd(b, a % b);
        vstd::arithmetic::div_mod::lemma_fundamental_div_mod(a as int, b as int);
        let q = a as int / b as int;
        assert(y * a + (x - y * q) * b == x * b + y * (a % b)) by (nonlinear_arith)
            requires a == b * q + a % b;
        assert(y * a + (x - y * q) * b == spec_gcd(a, b));
    }
}

/// The greatest common divisor of two numbers, not both zero, is positive and
/// divides both.
proof fn lemma_gcd_divides(a: nat, b: nat)
    requires
        a > 0 || b > 0,
    ensures
        spec_gcd(a, b) >= 1,
        a % spec_gcd(a, b) == 0,
        b % spec_gcd(a, b) == 0,
    decreases b,
{
    if b == 0 {
        assert(a % a == 0 && 0 as nat % a == 0) by (nonlinear_arith)
            requires a > 0;
    } else {
        assert(a % b < b) by (nonlinear_arith)
            requires b > 0;
        lemma_gcd_divides(b, a % b);
        let g = spec_gcd(a, b);
        assert(g == spec_gcd(b, a % b));
        vstd::arithmetic::div_mod::lemma_fundamental_div_mod(a as int, b as int);
        let q = a as int / b as int;
        vstd::arithmetic::div_mod::lemma_fundamental_div_mod(b as int, g as int);
        vstd::arithmetic::div_mod::lemma_fundamental_div_mod((a % b) as int, g as int);
        let tb = b as int / g as int;
        let tr = (a % b) as int / g as int;
        // g divides b and the remainder, so it divides a
        assert(a as int == (q * tb + tr) * (g as int)) by (nonlinear_arith)
            requires
                a == b * q + a % b,
                b == g * tb,
                a % b == g * tr,
        ;
        vstd::arithmetic::div_mod::lemma_mod_multiples_basic(q * tb + tr, g as int);
    }
}

/// Every common divisor divides the greatest common divisor.
proof fn lemma_common_divisor_divides(d: nat, a: nat, b: nat)
    requires
        d >= 1,
        a % d == 0,
        b % d == 0,
    ensures
        spec_gcd(a, b) % d == 0,
{
    lemma_bezout(a, b);
    let (x, y) = choose|x: int, y: int| #![trigger x * a, y * b] x * a + y * b == spec_gcd(a, b);
    let g = spec_gcd(a, b);
    vstd::arithmetic::div_mod::lemma_fundamental_div_mod(a as int, d as int);
    vstd::arithmetic::div_mod::lemma_fundamental_div_mod(b as int, d as int);
    let ta = a as int / d as int;
    let tb = b as int / d as int;
    assert(g as int == (x * ta + y * tb) * (d as int)) by (nonlinear_arith)
        requires
            x * a + y * b == g,
            a == d * ta,
            b == d * tb,
    ;
    vstd::arithmetic::div_mod::lemma_mod_multiples_basic(x * ta + y * tb, d as int);
}

/// Two positive numbers that divide each other are equal.
proof fn lemma_divides_antisymmetric(x: nat, y: nat)
    requires
        x >= 1,
        y >= 1,
        x % y == 0,
        y % x == 0,
    ensures
        x == y,
{
    assert(x == y) by (nonlinear_arith)
        requires x >= 1 && y >= 1 && x % y == 0 && y % x == 0;
}

/// A number coprime to one factor of a product it divides must divide the
/// other factor.
proof fn lemma_coprime_divides(c: nat, a: nat, b: nat)
    requires
        c >= 1,
        (a * b) % c == 0,
        spec_gcd(c, a) == 1,
    ensures
        b % c == 0,
{
    lemma_bezout(c, a);
    let (x, y) = choose|x: int, y: int| #![trigger x * c, y * a] x * c + y * a == spec_gcd(c, a);
    vstd::arithmetic::div_mod::lemma_fundamental_div_mod((a * b) as int, c as int);
    let t = (a * b) as int / c as int;
    assert(b as int == (x * b + y * t) * (c as int)) by (nonlinear_arith)
        requires
            x * c + y * a == 1,
            a * b == c * t,
    ;
    vstd::arithmetic::div_mod::lemma_mod_multiples_basic(x * b + y * t, c as int);
}

/// A divisor of a prime is one or the prime itself.
proof fn lemma_divisor_of_prime(p: nat, d: nat)
    requires
        is_prime(p as int),
        d >= 1,
        p % d == 0,
    ensures
        d == 1 || d == p,
{
    if d != 1 && d != p {
        if d < p {
            assert((p as int) % (d as int) != 0);
        } else {
            assert(p % d == p) by (nonlinear_arith)
                requires 2 <= p < d;
        }
    }
}

/// A prime that does not divide a number is coprime to it.
proof fn lemma_prime_coprime(p: nat, u: nat)
    requires
        is_prime(p as int),
        u % p != 0,
    ensures
        spec_gcd(p, u) == 1,
{
    if u == 0 {
        assert(0 as nat % p == 0) by (nonlinear_arith)
            requires p >= 2;
    }
    lemma_gcd_divides(p, u);
    let g = spec_gcd(p, u);
    lemma_divisor_of_prime(p, g);
    if g == p {
        assert(u % p == 0);
    }
}

/// A prime divides no product of primes that are all different from it.
proof fn lemma_prime_not_in_product(q: nat, s: Seq<i32>)
    requires
        is_prime(q as int),
        forall|j: int| 0 <= j < s.len() ==> is_prime(#[trigger] s[j] as int),
        forall|j: int| 0 <= j < s.len() ==> #[trigger] s[j] != q,
    ensures
        seq_product(s) >= 1,
        seq_product(s) % (q as int) != 0,
    decreases s.len(),
{
    if s.len() == 0 {
        assert(1int % (q as int) == 1) by (nonlinear_arith)
            requires q >= 2;
    } else {
        let dl = s.drop_last();
        lemma_prime_not_in_product(q, dl);
        let m = seq_product(dl);
        let v = s.last() as int;
        assert(seq_product(s) == m * v);
        assert(m * v >= 1) by (nonlinear_arith)
            requires m >= 1 && v >= 2;
        if (m * v) % (q as int) == 0 {
            lemma_prime_coprime(q, m as nat);
            lemma_gcd_comm(q, m as nat);
            lemma_coprime_divides(q, m as nat, v as nat);
            // so q divides the last factor, a different prime
            lemma_divisor_of_prime(v as nat, q);
        }
    }
}

/// Scaling both arguments scales the greatest common divisor.
proof fn lemma_gcd_scale(k: nat, a: nat, b: nat)
    requires
        k >= 1,
    ensures
        spec_gcd(k * a, k * b) == k * spec_gcd(a, b),
    decreases b,
{
    if b == 0 {
        assert(k * b == 0) by (nonlinear_arith)
            requires b == 0;
        assert(spec_gcd(k * a, 0) == k * a);
    } else {
        vstd::arithmetic::div_mod::lemma_fundamental_div_mod(a as int, b as int);
        let q = a as int / b as int;
        let r = a % b;
        assert(r < b) by (nonlinear_arith)
            requires b > 0 && r == a % b;
        assert(k * a == q * (k * b) + k * r && 0 <= k * r < k * b) by (nonlinear_arith)
            requires
                a == q * b + r,
                0 <= r < b,
                k >= 1,
        ;
        vstd::arithmetic::div_mod::lemma_fundamental_div_mod_converse(
            (k * a) as int,
            (k * b) as int,
            q,
            (k * r) as int,
        );
        assert((k * a) as nat % (k * b) as nat == k * r);
        lemma_gcd_scale(k, b, r);
        assert(spec_gcd(k * a, k * b) == spec_gcd(k * b, (k * a) % (k * b)));
    }
}

/// A prime factor of one side that does not divide the other side drops out
/// of the greatest common divisor.
proof fn lemma_gcd_drop_coprime(q: nat, m: nat, n: nat)
    requires
        is_prime(q as int),
        m >= 1,
        n >= 1,
        n % q != 0,
    ensures
        spec_gcd(q * m, n) == spec_gcd(m, n),
{
    let g1 = spec_gcd(q * m, n);
    let g2 = spec_gcd(m, n);
    assert(q * m >= 1) by (nonlinear_arith)
        requires q >= 2 && m >= 1;
    lemma_gcd_divides(q * m, n);
    lemma_gcd_divides(m, n);
    // g2 divides q * m as well
    lemma_scale_divides(q as int, m as int, g2 as int);
    assert((q * m) % g2 == 0);
    lemma_common_divisor_divides(g2, q * m, n);
    // g1 is coprime to q, since q does not divide n
    lemma_gcd_divides(g1, q);
    let d = spec_gcd(g1, q);
    lemma_gcd_comm(g1, q);
    lemma_gcd_divides(q, g1);
    lemma_divisor_of_prime(q, spec_gcd(q, g1));
    if spec_gcd(q, g1) == q {
        // then q would divide n
        lemma_divides_transitive(q as int, g1 as int, n as int);
        assert(false);
    }
    lemma_coprime_divides(g1, q, m);
    lemma_common_divisor_divides(g1, m, n);
    lemma_divides_antisymmetric(g1, g2);
}

/// The greatest common divisor with one is one.
proof fn lemma_gcd_with_one(x: nat)
    ensures
        spec_gcd(1, x) == 1,
        spec_gcd(x, 1) == 1,
{
    lemma_gcd_comm(x, 1);
    if x == 0 {
        assert(spec_gcd(1, 0) == 1);
    } else if x == 1 {
        assert(1 as nat % 1 as nat == 0) by (nonlinear_arith);
        assert(spec_gcd(1, 1) == spec_gcd(1, 0));
    } else {
        assert(1 as nat % x == 1) by (nonlinear_arith)
            requires x >= 2;
        assert(spec_gcd(1, x) == spec_gcd(x, 1));
        assert(x as nat % 1 as nat == 0) by (nonlinear_arith)
            requires x >= 1;
        assert(spec_gcd(x, 1) == spec_gcd(1, 0));
    }
}

/// The product of a nonempty list seen from its first element.
proof fn lemma_product_first(s: Seq<i32>)
    requires
        s.len() >= 1,
    ensures
        seq_product(s) == s[0] * seq_product(s.drop_first()),
    decreases s.len(),
{
    if s.len() == 1 {
        assert(s.drop_last() =~= Seq::<i32>::empty());
        assert(s.drop_first() =~= Seq::<i32>::empty());
        assert(seq_product(Seq::<i32>::empty()) == 1);
        assert(seq_product(s) == 1 * s.last());
        assert(s[0] * 1 == 1 * s[0]) by (nonlinear_arith);
    } else {
        let dl = s.drop_last();
        lemma_product_first(dl);
        assert(s.drop_first().drop_last() =~= dl.drop_first());
        assert(s.drop_first().last() == s.last());
        assert(seq_product(s.drop_first()) == seq_product(dl.drop_first()) * s.last());
        assert(seq_product(s) == seq_product(dl) * s.last());
        assert((s[0] * seq_product(dl.drop_first())) * s.last() == s[0] * (seq_product(
            dl.drop_first(),
        ) * s.last())) by (nonlinear_arith);
    }
}

/// All entries of a list of primes are at least 1, so the product is too.
proof fn lemma_product_of_primes_pos(s: Seq<i32>)
    requires
        forall|j: int| 0 <= j < s.len() ==> is_prime(#[trigger] s[j] as int),
    ensures
        seq_product(s) >= 1,
    decreases s.len(),
{
    if s.len() > 0 {
        let dl = s.drop_last();
        lemma_product_of_primes_pos(dl);
        assert(seq_product(dl) * s.last() >= 1) by (nonlinear_arith)
            requires seq_product(dl) >= 1 && s.last() >= 2;
    }
}

/// Returns the greatest common divisor of `u` and `v` by walking their two
/// ascending prime factorizations in step and multiplying the shared factors.
pub fn gcd_using_prime_factors(u: usize, v: usize) -> (r: i32)
    requires
        1 <= u <= i32::MAX as usize,
        1 <= v <= i32::MAX as usize,
    ensures
        r == spec_gcd(u as nat, v as nat),
{
    let mut gcd: i32 = 1;
    let u_prime_factors = prime_factors(u);
    let v_prime_factors = prime_factors(v);
    let ghost uf = u_prime_factors@;
    let ghost vf = v_prime_factors@;
    proof {
        assert(uf.skip(0) =~= uf);
        assert(vf.skip(0) =~= vf);
        if u == 1 {
            assert(seq_product(uf.skip(0)) == 1);
        }
        if v == 1 {
            assert(seq_product(vf.skip(0)) == 1);
        }
    }
    let mut up: usize = 0;
    let mut vp: usize = 0;
    while up < u_prime_factors.len() && vp < v_prime_factors.len()
        invariant
            up <= uf.len(),
            vp <= vf.len(),
            u_prime_factors@ == uf,
            v_prime_factors@ == vf,
            1 <= u <= i32::MAX as usize,
            1 <= v <= i32::MAX as usize,
            forall|j: int| 0 <= j < uf.len() ==> is_prime(#[trigger] uf[j] as int),
            forall|j: int| 0 <= j < vf.len() ==> is_prime(#[trigger] vf[j] as int),
            forall|a: int, b: int| 0 <= a <= b < uf.len() ==> uf[a] <= uf[b],
            forall|a: int, b: int| 0 <= a <= b < vf.len() ==> vf[a] <= vf[b],
            gcd >= 1,
            seq_product(uf.skip(up as int)) >= 1,
            seq_product(vf.skip(vp as int)) >= 1,
            gcd * spec_gcd(
                seq_product(uf.skip(up as int)) as nat,
                seq_product(vf.skip(vp as int)) as nat,
            ) == spec_gcd(u as nat, v as nat),
        decreases uf.len() + vf.len() - up - vp,
    {
        let factor_u = u_prime_factors[up];
        let factor_v = v_prime_factors[vp];
        let ghost ru = uf.skip(up as int);
        let ghost rv = vf.skip(vp as int);
        let ghost pu = seq_product(ru) as nat;
        let ghost pv = seq_product(rv) as nat;
        proof {
            assert(ru[0] == uf[up as int] && rv[0] == vf[vp as int]);
            assert(forall|j: int| 0 <= j < ru.len() ==> is_prime(#[trigger] ru[j] as int));
            assert(forall|j: int| 0 <= j < rv.len() ==> is_prime(#[trigger] rv[j] as int));
            lemma_product_first(ru);
            lemma_product_first(rv);
            assert(ru.drop_first() =~= uf.skip(up + 1));
            assert(rv.drop_first() =~= vf.skip(vp + 1));
            lemma_product_of_primes_pos(ru.drop_first());
            lemma_product_of_primes_pos(rv.drop_first());
        }
        if factor_u < factor_v {
            proof {
                // the smaller head divides nothing on the other side
                assert(forall|j: int| 0 <= j < rv.len() ==> #[trigger] rv[j] != factor_u);
                lemma_prime_not_in_product(factor_u as nat, rv);
                lemma_gcd_drop_coprime(
                    factor_u as nat,
                    seq_product(ru.drop_first()) as nat,
                    pv,
                );
                assert((factor_u as nat) * (seq_product(ru.drop_first()) as nat) == pu)
                    by (nonlinear_arith)
                    requires
                        pu == seq_product(ru),
                        seq_product(ru) == (factor_u as int) * seq_product(ru.drop_first()),
                        factor_u >= 2,
                        seq_product(ru.drop_first()) >= 1,
                ;
            }
            up += 1;
        } else if factor_u > factor_v {
            proof {
                assert(forall|j: int| 0 <= j < ru.len() ==> #[trigger] ru[j] != factor_v);
                lemma_prime_not_in_product(factor_v as nat, ru);
                lemma_gcd_comm(pu, pv);
                lemma_gcd_drop_coprime(
                    factor_v as nat,
                    seq_product(rv.drop_first()) as nat,
                    pu,
                );
                lemma_gcd_comm(seq_product(rv.drop_first()) as nat, pu);
                assert((factor_v as nat) * (seq_product(rv.drop_first()) as nat) == pv)
                    by (nonlinear_arith)
                    requires
                        pv == seq_product(rv),
                        seq_product(rv) == (factor_v as int) * seq_product(rv.drop_first()),
                        factor_v >= 2,
                        seq_product(rv.drop_first()) >= 1,
                ;
            }
            vp += 1;
        } else {
            proof {
                let f = factor_u as nat;
                let mu = seq_product(ru.drop_first()) as nat;
                let mv = seq_product(rv.drop_first()) as nat;
                assert(f * mu == pu && f * mv == pv) by (nonlinear_arith)
                    requires
                        pu == seq_product(ru),
                        pv == seq_product(rv),
                        f == factor_u as int,
                        mu == seq_product(ru.drop_first()),
                        mv == seq_product(rv.drop_first()),
                        seq_product(ru) == (factor_u as int) * seq_product(ru.drop_first()),
                        seq_product(rv) == (factor_u as int) * seq_product(rv.drop_first()),
                        factor_u >= 2,
                        seq_product(ru.drop_first()) >= 1,
                        seq_product(rv.drop_first()) >= 1,
                ;
                lemma_gcd_scale(f, mu, mv);
                lemma_gcd_divides(mu, mv);
                // the updated running product still divides the answer, so it
                // fits in the result type
                assert((gcd * f) * spec_gcd(mu, mv) == spec_gcd(u as nat, v as nat))
                    by (nonlinear_arith)
                    requires
                        gcd * spec_gcd(pu, pv) == spec_gcd(u as nat, v as nat),
                        spec_gcd(pu, pv) == f * spec_gcd(mu, mv),
                ;
                assert(gcd * f <= spec_gcd(u as nat, v as nat)) by (nonlinear_arith)
                    requires
                        (gcd * f) * spec_gcd(mu, mv) == spec_gcd(u as nat, v as nat),
                        spec_gcd(mu, mv) >= 1,
                        gcd >= 1,
                        f >= 2,
                ;
                lemma_gcd_divides(u as nat, v as nat);
                lemma_gcd_le(u as nat, v as nat);
                assert(gcd * f >= 1) by (nonlinear_arith)
                    requires gcd >= 1 && f >= 2;
            }
            gcd = gcd * factor_u;
            up += 1;
            vp += 1;
        }
    }
    proof {
        let ru = uf.skip(up as int);
        let rv = vf.skip(vp as int);
        if up == uf.len() {
            assert(ru =~= Seq::<i32>::empty());
            lemma_gcd_with_one(seq_product(rv) as nat);
        } else {
            assert(rv =~= Seq::<i32>::empty());
            lemma_gcd_with_one(seq_product(ru) as nat);
        }
        assert(gcd * 1 == gcd) by (nonlinear_arith);
    }
    gcd
}

/// Returns the greatest common divisor of `u` and `v` by Euclid's algorithm
/// of repeated swapping and remainder taking.
pub fn gcd_euclid(u: usize, v: usize) -> (r: i32)
    requires
        u == 0 || v >= 1,
        u <= i32::MAX as usize,
        v <= i32::MAX as usize,
    ensures
        r == spec_gcd(u as nat, v as nat),
{
    let mut u = u;
    let mut v = v;
    let ghost u0 = u as nat;
    let ghost v0 = v as nat;
    while u > 0
        invariant
            u == 0 || v >= 1,
            u <= i32::MAX as usize,
            v <= i32::MAX as usize,
            spec_gcd(u as nat, v as nat) == spec_gcd(u0, v0),
        decreases u + v,
    {
        if u < v {
            proof {
                lemma_gcd_comm(u as nat, v as nat);
            }
            let temp = u;
            u = v;
            v = temp;
        }
        let ghost before = u as nat;
        proof {
            assert(u as nat % (v as nat) < v as nat) by (nonlinear_arith)
                requires v >= 1;
            assert(spec_gcd(u as nat, v as nat) == spec_gcd(v as nat, u as nat % (v as nat)));
            lemma_gcd_comm(v as nat, u as nat % (v as nat));
            assert((u as nat % (v as nat)) % (v as nat) == u as nat % (v as nat))
                by (nonlinear_arith)
                requires v >= 1;
            assert(spec_gcd(u as nat % (v as nat), v as nat) == spec_gcd(
                v as nat,
                u as nat % (v as nat),
            ));
        }
        u = u % v;
    }
    proof {
        if v > 0 {
            assert(spec_gcd(0, v as nat) == spec_gcd(v as nat, 0));
        }
    }
    v as i32
}

} // verus!
