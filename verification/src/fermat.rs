//! Fermat's little theorem, by the binomial theorem modulo a prime.
use crate::algebra::{lemma_sum_add, lemma_sum_ext, lemma_sum_zero_mod, sum};
use crate::fft::is_prime_number;
use crate::linalg::lemma_prime_product_nonzero;
use vstd::arithmetic::div_mod::*;
use vstd::arithmetic::mul::*;
use vstd::arithmetic::power::*;
use vstd::prelude::*;

verus! {

/// The binomial coefficient `n choose k`, by Pascal's rule.
pub open spec fn binom(n: nat, k: nat) -> int
    decreases n,
{
    if k == 0 {
        1
    } else if n == 0 {
        0
    } else {
        binom((n - 1) as nat, (k - 1) as nat) + binom((n - 1) as nat, k)
    }
}

/// `n choose k` vanishes above `n`.
proof fn lemma_binom_above(n: nat, k: nat)
    requires
        k > n,
    ensures
        binom(n, k) == 0,
    decreases n,
{
    if n > 0 {
        lemma_binom_above((n - 1) as nat, (k - 1) as nat);
        lemma_binom_above((n - 1) as nat, k);
    }
}

/// `n choose 1` is `n`.
proof fn lemma_binom_one(n: nat)
    ensures
        binom(n, 1) == n,
    decreases n,
{
    if n > 0 {
        lemma_binom_one((n - 1) as nat);
        assert(binom(n, 1) == binom((n - 1) as nat, 0) + binom((n - 1) as nat, 1));
    }
}

/// The absorption identity `k C(n, k) = n C(n - 1, k - 1)`.
proof fn lemma_binom_absorb(n: nat, k: nat)
    requires
        n >= 1,
        k >= 1,
    ensures
        k * binom(n, k) == n * binom((n - 1) as nat, (k - 1) as nat),
    decreases n,
{
    if k == 1 {
        lemma_binom_one(n);
        assert(binom((n - 1) as nat, 0) == 1);
    } else if n == 1 {
        lemma_binom_above(0, (k - 1) as nat);
        lemma_binom_above(0, k);
        assert(binom(1, k) == binom(0, (k - 1) as nat) + binom(0, k));
    } else {
        let a = binom((n - 1) as nat, (k - 1) as nat);
        let b = binom((n - 1) as nat, k);
        lemma_binom_absorb((n - 1) as nat, (k - 1) as nat);
        lemma_binom_absorb((n - 1) as nat, k);
        let c1 = binom((n - 2) as nat, (k - 2) as nat);
        let c2 = binom((n - 2) as nat, (k - 1) as nat);
        assert(a == c1 + c2);
        assert(binom(n, k) == a + b);
        assert(k * binom(n, k) == n * a) by (nonlinear_arith)
            requires
                binom(n, k) == a + b,
                (k - 1) * a == (n - 1) * c1,
                k * b == (n - 1) * c2,
                a == c1 + c2,
        ;
    }
}

/// A prime divides `p choose k` for `0 < k < p`.
proof fn lemma_binom_prime(p: nat, k: nat)
    requires
        is_prime_number(p),
        0 < k < p,
    ensures
        binom(p, k) % (p as int) == 0,
{
    let pi = p as int;
    let c = binom(p, k);
    lemma_binom_absorb(p, k);
    lemma_mod_multiples_basic(binom((p - 1) as nat, (k - 1) as nat), pi);
    lemma_mul_is_commutative(pi, binom((p - 1) as nat, (k - 1) as nat));
    assert((k * c) % pi == 0);
    if c % pi != 0 {
        lemma_small_mod(k, p);
        lemma_prime_product_nonzero(k as int, c, p);
    }
}

/// `n choose n` is one.
proof fn lemma_binom_diagonal(n: nat)
    ensures
        binom(n, n) == 1,
    decreases n,
{
    if n > 0 {
        lemma_binom_diagonal((n - 1) as nat);
        lemma_binom_above((n - 1) as nat, n);
    }
}

/// Splitting off the first term of a sum.
proof fn lemma_sum_shift(m: int, f: spec_fn(int) -> int)
    requires
        0 <= m,
    ensures
        sum(m + 1, f) == f(0) + sum(m, |k: int| f(k + 1)),
    decreases m,
{
    let g = |k: int| f(k + 1);
    assert(sum(m + 1, f) == sum(m, f) + f(m));
    if m > 0 {
        lemma_sum_shift(m - 1, f);
        assert(sum(m, g) == sum(m - 1, g) + g(m - 1));
    } else {
        assert(sum(1, f) == sum(0, f) + f(0));
    }
}

/// A constant factor comes out of a sum.
proof fn lemma_sum_scale(m: int, f: spec_fn(int) -> int, c: int)
    requires
        0 <= m,
    ensures
        sum(m, |k: int| c * f(k)) == c * sum(m, f),
    decreases m,
{
    if m > 0 {
        lemma_sum_scale(m - 1, f, c);
        lemma_mul_is_distributive_add(c, sum(m - 1, f), f(m - 1));
    }
}

/// The terms `C(n, k) x^k` of the binomial expansion of `(x + 1)^n`.
pub open spec fn binomial_terms(x: int, n: nat) -> spec_fn(int) -> int {
    |k: int| binom(n, k as nat) * pow(x, k as nat)
}

/// The binomial theorem: `(x + 1)^n` is the sum of `C(n, k) x^k` over `k <= n`.
pub proof fn lemma_binomial(x: int, n: nat)
    ensures
        pow(x + 1, n) == sum(n + 1int, binomial_terms(x, n)),
    decreases n,
{
    reveal(pow);
    if n == 0 {
        let t = binomial_terms(x, 0);
        assert(sum(1, t) == sum(0, t) + t(0));
        assert(t(0) == binom(0, 0) * pow(x, 0));
    } else {
        let m = (n - 1) as nat;
        lemma_binomial(x, m);
        let a = binomial_terms(x, m);
        let t = binomial_terms(x, n);
        let b = |k: int| if k == 0 { 0 } else { x * a(k - 1) };
        assert forall|k: int| 0 <= k < n + 1 implies #[trigger] t(k) == a(k) + b(k) by {
            if k > 0 {
                let c1 = binom(m, (k - 1) as nat);
                let c2 = binom(m, k as nat);
                let q = pow(x, (k - 1) as nat);
                assert(binom(n, k as nat) == c1 + c2);
                assert(pow(x, k as nat) == x * q);
                assert((c1 + c2) * (x * q) == x * (c1 * q) + c2 * (x * q)) by (nonlinear_arith);
            }
        }
        lemma_sum_ext(n + 1int, t, |k: int| a(k) + b(k));
        lemma_sum_add(n + 1int, a, b);
        lemma_binom_above(m, n);
        assert(a(n as int) == 0);
        assert(sum(n + 1int, a) == sum(n as int, a) + a(n as int));
        lemma_sum_shift(n as int, b);
        lemma_sum_ext(n as int, |k: int| b(k + 1), |k: int| x * a(k));
        lemma_sum_scale(n as int, a, x);
        assert(pow(x + 1, n) == (x + 1) * pow(x + 1, m));
        assert((x + 1) * sum(n as int, a) == sum(n as int, a) + x * sum(n as int, a)) by (nonlinear_arith);
    }
}

/// Modulo a prime `p`, `(x + 1)^p` is `x^p + 1`.
proof fn lemma_freshman(x: int, p: nat)
    requires
        is_prime_number(p),
    ensures
        pow(x + 1, p) % (p as int) == (pow(x, p) + 1) % (p as int),
{
    let pi = p as int;
    let t = binomial_terms(x, p);
    lemma_binomial(x, p);
    lemma_binom_diagonal(p);
    assert(sum(pi + 1, t) == sum(pi, t) + t(pi));
    assert(t(pi) == pow(x, p));
    lemma_sum_shift(pi - 1, t);
    let rest = |k: int| t(k + 1);
    assert forall|k: int| 0 <= k < pi - 1 implies #[trigger] rest(k) % pi == 0 by {
        lemma_binom_prime(p, (k + 1) as nat);
        lemma_mul_mod_noop_left(binom(p, (k + 1) as nat), pow(x, (k + 1) as nat), pi);
        lemma_mul_basics(pow(x, (k + 1) as nat));
        lemma_small_mod(0, p);
    }
    lemma_sum_zero_mod(pi - 1, rest, pi);
    reveal(pow);
    assert(t(0) == 1);
    let r = sum(pi - 1, rest);
    lemma_fundamental_div_mod(r, pi);
    lemma_mod_multiples_vanish(r / pi, pow(x, p) + 1, pi);
}

/// `a^p` is `a` modulo a prime `p`.
proof fn lemma_fermat_power(a: nat, p: nat)
    requires
        is_prime_number(p),
    ensures
        pow(a as int, p) % (p as int) == (a as int) % (p as int),
    decreases a,
{
    let pi = p as int;
    if a == 0 {
        lemma0_pow(p);
    } else {
        lemma_fermat_power((a - 1) as nat, p);
        lemma_freshman(a - 1, p);
        lemma_add_mod_noop(pow(a - 1, p), 1, pi);
        lemma_add_mod_noop(a - 1, 1, pi);
    }
}

/// Fermat's little theorem: `a^(p - 1)` is one modulo a prime `p` that does
/// not divide `a`.
pub proof fn lemma_fermat(a: nat, p: nat)
    requires
        is_prime_number(p),
        a % p != 0,
    ensures
        pow(a as int, (p - 1) as nat) % (p as int) == 1,
{
    let pi = p as int;
    let q = pow(a as int, (p - 1) as nat);
    lemma_fermat_power(a, p);
    lemma_pow1(a as int);
    lemma_pow_adds(a as int, 1, (p - 1) as nat);
    assert(pow(a as int, p) == a * q);
    assert(a * (q - 1) == a * q - a) by (nonlinear_arith);
    lemma_sub_mod_noop(a * q, a as int, pi);
    lemma_mod_self_0(pi);
    lemma_small_mod(0, p);
    assert((a * (q - 1)) % pi == 0);
    if (q - 1) % pi != 0 {
        lemma_prime_product_nonzero(a as int, q - 1, p);
    }
    lemma_fundamental_div_mod(q - 1, pi);
    lemma_mod_multiples_vanish((q - 1) / pi, 1, pi);
    lemma_small_mod(1, p);
}

} // verus!
