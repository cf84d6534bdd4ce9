//! Fermat's little theorem, by the binomial expansion of `(x + 1)^p`.
use vstd::prelude::*;

use vstd::arithmetic::div_mod::*;
use vstd::arithmetic::power::*;

verus! {

/// `p` is a prime number.
pub open spec fn is_prime(p: int) -> bool {
    p > 1 && forall|d: int| 1 < d < p ==> #[trigger] (p % d) != 0
}

/// `m` divides `x`.
pub open spec fn divides(m: int, x: int) -> bool {
    x % m == 0
}

/// Multiples of `m` are divisible by `m`, whatever the sign of the factor.
proof fn lemma_multiple_divides(m: int, t: int, x: int)
    requires
        m > 0,
        x == m * t,
    ensures
        divides(m, x),
{
    vstd::arithmetic::mul::lemma_mul_is_commutative(m, t);
    lemma_mod_multiples_basic(t, m);
}

/// What `m` divides, it divides as `m * (x / m)`.
proof fn lemma_divides_witness(m: int, x: int)
    requires
        m > 0,
        divides(m, x),
    ensures
        x == m * (x / m),
{
    lemma_fundamental_div_mod(x, m);
}

/// Sums and differences of multiples of `m` are multiples of `m`.
proof fn lemma_divides_add(m: int, x: int, y: int)
    requires
        m > 0,
        divides(m, x),
        divides(m, y),
    ensures
        divides(m, x + y),
        divides(m, x - y),
{
    lemma_divides_witness(m, x);
    lemma_divides_witness(m, y);
    let (s, t) = (x / m, y / m);
    assert(x + y == m * (s + t)) by (nonlinear_arith)
        requires x == m * s, y == m * t;
    assert(x - y == m * (s - t)) by (nonlinear_arith)
        requires x == m * s, y == m * t;
    lemma_multiple_divides(m, s + t, x + y);
    lemma_multiple_divides(m, s - t, x - y);
}

/// A multiple of a multiple of `m` is a multiple of `m`.
proof fn lemma_divides_mul(m: int, x: int, y: int)
    requires
        m > 0,
        divides(m, x),
    ensures
        divides(m, x * y),
{
    lemma_divides_witness(m, x);
    let s = x / m;
    assert(x * y == m * (s * y)) by (nonlinear_arith)
        requires x == m * s;
    lemma_multiple_divides(m, s * y, x * y);
}

/// Euclid's lemma: a prime that divides `a * b`, with `0 < a < p`, divides `b`.
pub proof fn lemma_euclid(p: int, a: int, b: int)
    requires
        is_prime(p),
        0 < a < p,
        divides(p, a * b),
    ensures
        divides(p, b),
    decreases a,
{
    if a == 1 {
        assert(a * b == b);
    } else {
        lemma_fundamental_div_mod(p, a);
        let q = p / a;
        let r = p % a;
        assert(p % a != 0);
        assert(0 < r < a) by {
            lemma_mod_pos_bound(p, a);
        }
        assert(r * b == p * b - q * (a * b)) by (nonlinear_arith)
            requires p == a * q + r;
        lemma_multiple_divides(p, b, p * b);
        lemma_divides_mul(p, a * b, q);
        assert(q * (a * b) == (a * b) * q) by (nonlinear_arith);
        lemma_divides_add(p, p * b, q * (a * b));
        lemma_euclid(p, r, b);
    }
}

/// The binomial coefficient, by Pascal's rule.
pub open spec fn binomial(n: nat, k: nat) -> nat
    decreases n,
{
    if k == 0 {
        1
    } else if n == 0 {
        0
    } else {
        binomial((n - 1) as nat, (k - 1) as nat) + binomial((n - 1) as nat, k)
    }
}

/// No way to choose more items than there are.
proof fn lemma_binomial_beyond(n: nat, k: nat)
    requires
        k > n,
    ensures
        binomial(n, k) == 0,
    decreases n,
{
    if n > 0 {
        lemma_binomial_beyond((n - 1) as nat, (k - 1) as nat);
        lemma_binomial_beyond((n - 1) as nat, k);
    }
}

/// The absorption identity `k * C(n, k) == n * C(n - 1, k - 1)`.
proof fn lemma_binomial_absorption(n: nat, k: nat)
    requires
        n >= 1,
        k >= 1,
    ensures
        k * binomial(n, k) == n * binomial((n - 1) as nat, (k - 1) as nat),
    decreases n,
{
    if n == 1 {
        if k > 1 {
            lemma_binomial_beyond(0, (k - 1) as nat);
            lemma_binomial_beyond(1, k);
            assert(k * binomial(n, k) == n * binomial(0, (k - 1) as nat)) by (nonlinear_arith)
                requires binomial(n, k) == 0, binomial(0, (k - 1) as nat) == 0;
        } else {
            assert(binomial(1, 1) == binomial(0, 0) + binomial(0, 1));
            assert(k * binomial(n, k) == n * binomial(0, 0)) by (nonlinear_arith)
                requires k == 1, n == 1, binomial(n, k) == 1, binomial(0, 0) == 1;
        }
    } else {
        let m = (n - 1) as nat;
        // C(n, k) == C(m, k - 1) + C(m, k)
        let c1 = binomial(m, (k - 1) as nat);
        let c2 = binomial(m, k);
        assert(binomial(n, k) == c1 + c2);
        lemma_binomial_absorption(m, k);
        // k * c2 == m * C(m - 1, k - 1)
        if k == 1 {
            assert(c1 == 1);
            let b0 = binomial((m - 1) as nat, 0);
            assert(b0 == 1);
            assert(k * c2 == m * b0);
            assert(k * (c1 + c2) == n * c1) by (nonlinear_arith)
                requires k == 1, c1 == 1, b0 == 1, k * c2 == m * b0, n == m + 1;
        } else {
            lemma_binomial_absorption(m, (k - 1) as nat);
            // (k - 1) * c1 == m * C(m - 1, k - 2)
            let d1 = binomial((m - 1) as nat, (k - 2) as nat);
            let d2 = binomial((m - 1) as nat, (k - 1) as nat);
            assert(c1 == d1 + d2);
            assert(k * (c1 + c2) == n * c1) by (nonlinear_arith)
                requires
                    (k - 1) * c1 == m * d1,
                    k * c2 == m * d2,
                    c1 == d1 + d2,
                    n == m + 1;
        }
    }
}

/// A prime divides every binomial coefficient `C(p, k)` with `0 < k < p`.
proof fn lemma_prime_divides_binomial(p: nat, k: nat)
    requires
        is_prime(p as int),
        0 < k < p,
    ensures
        divides(p as int, binomial(p, k) as int),
{
    lemma_binomial_absorption(p, k);
    let c = binomial((p - 1) as nat, (k - 1) as nat);
    lemma_multiple_divides(p as int, c as int, (k * binomial(p, k)) as int);
    lemma_euclid(p as int, k as int, binomial(p, k) as int);
}

/// The first `m` terms of the binomial expansion of `(x + 1)^n`.
pub open spec fn binomial_sum(n: nat, x: int, m: nat) -> int
    decreases m,
{
    if m == 0 {
        0
    } else {
        binomial_sum(n, x, (m - 1) as nat) + binomial(n, (m - 1) as nat) * pow(x, (m - 1) as nat)
    }
}

/// The expansion starts with `1`.
proof fn lemma_binomial_sum_one(n: nat, x: int)
    ensures
        binomial_sum(n, x, 1) == 1,
{
    lemma_pow0(x);
    let c = binomial(n, 0);
    let q = pow(x, 0);
    assert(binomial_sum(n, x, 1) == binomial_sum(n, x, 0) + c * q);
    assert(c * q == 1) by (nonlinear_arith)
        requires c == 1, q == 1;
}

/// Pascal's rule, summed.
proof fn lemma_binomial_sum_step(n: nat, x: int, m: nat)
    ensures
        binomial_sum(n + 1, x, m + 1) == binomial_sum(n, x, m + 1) + x * binomial_sum(n, x, m),
    decreases m,
{
    if m == 0 {
        lemma_pow0(x);
        lemma_binomial_sum_one(n + 1, x);
        lemma_binomial_sum_one(n, x);
        assert(x * binomial_sum(n, x, 0) == 0) by (nonlinear_arith)
            requires binomial_sum(n, x, 0) == 0;
    } else {
        let k = (m - 1) as nat;
        lemma_binomial_sum_step(n, x, k);
        let s0 = binomial_sum(n, x, k);
        let s1 = binomial_sum(n, x, m);
        let cm = binomial(n, k);
        let cn = binomial(n, m);
        assert(binomial(n + 1, m) == cm + cn);
        lemma_pow_adds(x, 1, k);
        lemma_pow1(x);
        let pk = pow(x, k);
        let pm = pow(x, m);
        assert(pm == x * pk);
        assert(s1 == s0 + cm * pk);
        assert(binomial_sum(n + 1, x, m) == s1 + x * s0);
        assert(binomial_sum(n + 1, x, m + 1) == binomial_sum(n + 1, x, m) + (cm + cn) * pm);
        assert(binomial_sum(n, x, m + 1) == s1 + cn * pm);
        assert((cm + cn) * pm + x * s0 == cn * pm + x * (s0 + cm * pk)) by (nonlinear_arith)
            requires pm == x * pk;
    }
}

/// The binomial theorem for `(x + 1)^n`.
proof fn lemma_binomial_theorem(n: nat, x: int)
    ensures
        pow(x + 1, n) == binomial_sum(n, x, n + 1),
    decreases n,
{
    if n == 0 {
        lemma_pow0(x + 1);
        lemma_pow0(x);
        lemma_binomial_sum_one(0, x);
    } else {
        let m = (n - 1) as nat;
        lemma_binomial_theorem(m, x);
        lemma_binomial_sum_step(m, x, n);
        lemma_binomial_beyond(m, n);
        let s = binomial_sum(m, x, n);
        let z = binomial(m, n);
        assert(binomial_sum(m, x, n + 1) == s + z * pow(x, n));
        assert(z * pow(x, n) == 0) by (nonlinear_arith)
            requires z == 0;
        lemma_pow_adds(x + 1, 1, m);
        lemma_pow1(x + 1);
        assert(pow(x + 1, n) == (x + 1) * s);
        assert((x + 1) * s == s + x * s) by (nonlinear_arith);
        assert(binomial_sum(n, x, n + 1) == binomial_sum(m, x, n + 1) + x * s);
    }
}

/// Modulo a prime, the binomial expansion of `(x + 1)^p` is `1 + x^p`.
proof fn lemma_frobenius(p: nat, x: int)
    requires
        is_prime(p as int),
    ensures
        divides(p as int, pow(x + 1, p) - pow(x, p) - 1),
{
    lemma_binomial_theorem(p, x);
    lemma_middle_terms(p, x, p);
    lemma_binomial_diagonal(p);
    let c = binomial(p, p);
    assert(binomial_sum(p, x, p + 1) == binomial_sum(p, x, p) + c * pow(x, p));
    assert(c * pow(x, p) == pow(x, p)) by (nonlinear_arith)
        requires c == 1;
}

/// `C(n, n) == 1`.
proof fn lemma_binomial_diagonal(n: nat)
    ensures
        binomial(n, n) == 1,
    decreases n,
{
    if n > 0 {
        lemma_binomial_diagonal((n - 1) as nat);
        lemma_binomial_beyond((n - 1) as nat, n);
    }
}

/// All terms of the expansion of `(x + 1)^p` but the first are multiples of
/// `p`, up to the `m`-th.
proof fn lemma_middle_terms(p: nat, x: int, m: nat)
    requires
        is_prime(p as int),
        1 <= m <= p,
    ensures
        divides(p as int, binomial_sum(p, x, m) - 1),
    decreases m,
{
    if m == 1 {
        lemma_pow0(x);
        assert(binomial_sum(p, x, 0) == 0);
        lemma_multiple_divides(p as int, 0, 0);
    } else {
        let k = (m - 1) as nat;
        lemma_middle_terms(p, x, k);
        lemma_prime_divides_binomial(p, k);
        lemma_divides_mul(p as int, binomial(p, k) as int, pow(x, k));
        lemma_divides_add(p as int, binomial_sum(p, x, k) - 1, binomial(p, k) * pow(x, k));
    }
}

/// `x^p` and `x` agree modulo a prime `p`, for every natural `x`.
proof fn lemma_pow_prime_congruent(p: nat, x: nat)
    requires
        is_prime(p as int),
    ensures
        divides(p as int, pow(x as int, p) - x),
    decreases x,
{
    if x == 0 {
        lemma0_pow(p);
        lemma_multiple_divides(p as int, 0, 0);
    } else {
        let y = (x - 1) as nat;
        lemma_pow_prime_congruent(p, y);
        lemma_frobenius(p, y as int);
        lemma_divides_add(p as int, pow(x as int, p) - pow(y as int, p) - 1, pow(y as int, p) - y);
    }
}

/// Fermat's little theorem: `a^(p - 1)` is `1` modulo a prime `p` that does not
/// divide `a`, for `0 < a < p`.
pub proof fn lemma_fermat(p: int, a: int)
    requires
        is_prime(p),
        0 < a < p,
    ensures
        pow(a, (p - 1) as nat) % p == 1,
{
    let e = (p - 1) as nat;
    lemma_pow_prime_congruent(p as nat, a as nat);
    lemma_pow_adds(a, 1, e);
    lemma_pow1(a);
    let t = pow(a, e);
    assert(pow(a, p as nat) - a == a * (t - 1)) by (nonlinear_arith)
        requires pow(a, p as nat) == a * t;
    lemma_euclid(p, a, t - 1);
    lemma_divides_witness(p, t - 1);
    lemma_mod_multiples_vanish((t - 1) / p, 1, p);
    lemma_small_mod(1, p as nat);
    assert(t == p * ((t - 1) / p) + 1);
}

} // verus!
