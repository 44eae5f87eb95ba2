//! Polynomials with integer coefficients and their images in the cyclic
//! ring `Z[x] / (x^n - 1)`.
use crate::algebra::{
    column_partial, column_sum, convolution, group_product, lemma_left_multiplication_matrix,
    lemma_sum_ext, lemma_sum_scale, lemma_sum_single, lemma_sum_swap, lemma_sum_zero, row, sum,
    term,
};
use crate::cyclic::cyclic_model;
use vstd::arithmetic::div_mod::*;
use vstd::arithmetic::mul::*;
use vstd::prelude::*;

verus! {

/// The coefficient of `x^i` (zero beyond the end).
pub open spec fn coeff_int(s: Seq<int>, i: int) -> int {
    if 0 <= i < s.len() {
        s[i]
    } else {
        0
    }
}

/// The coefficient of `x^k` in the image of `s` in `Z[x] / (x^n - 1)`: the
/// sum of the coefficients at the exponents congruent to `k` modulo `n`.
pub open spec fn fold_coeff(s: Seq<int>, n: int, k: int) -> int {
    sum(s.len() as int, |i: int| if i % n == k { s[i] } else { 0 })
}

/// The image of the polynomial `s` in `Z[x] / (x^n - 1)`.
pub open spec fn fold(s: Seq<int>, n: nat) -> Seq<int> {
    Seq::new(n, |k: int| fold_coeff(s, n as int, k))
}

/// The coefficient of `x^k` in the polynomial product `q d`.
pub open spec fn shifted_sum(q: Seq<int>, d: Seq<int>, k: int) -> int {
    sum(q.len() as int, |s: int| q[s] * coeff_int(d, k - s))
}

/// Summing over `y` the terms `w(i)` with `comb(i) == y`, for the `y` that
/// satisfy `pred`, sums each `w(i)` once where `pred(comb(i))`.
pub proof fn lemma_sum_collapse1(
    ny: int,
    ni: int,
    pred: spec_fn(int) -> bool,
    comb: spec_fn(int) -> int,
    w: spec_fn(int) -> int,
)
    requires
        0 <= ny,
        0 <= ni,
        forall|i: int| 0 <= i < ni ==> 0 <= #[trigger] comb(i) < ny,
    ensures
        sum(ny, |y: int| if pred(y) { sum(ni, |i: int| if comb(i) == y { w(i) } else { 0 }) } else { 0 })
            == sum(ni, |i: int| if pred(comb(i)) { w(i) } else { 0 }),
{
    let outer = |y: int| if pred(y) { sum(ni, |i: int| if comb(i) == y { w(i) } else { 0 }) } else { 0 };
    let f2 = |y: int, i: int| if pred(y) && comb(i) == y { w(i) } else { 0 };
    let moved = |i: int| sum(ni, |j: int| f2(i, j));
    assert forall|y: int| 0 <= y < ny implies #[trigger] outer(y) == moved(y) by {
        let u = |i: int| if comb(i) == y { w(i) } else { 0 };
        let v = |j: int| f2(y, j);
        if pred(y) {
            lemma_sum_ext(ni, u, v);
        } else {
            lemma_sum_zero(ni, v);
        }
    }
    lemma_sum_ext(ny, outer, moved);
    lemma_sum_swap(ny, ni, f2);
    let swapped = |j: int| sum(ny, |i: int| f2(i, j));
    let target = |i: int| if pred(comb(i)) { w(i) } else { 0 };
    assert forall|t: int| 0 <= t < ni implies #[trigger] swapped(t) == target(t) by {
        lemma_sum_single(ny, |i: int| f2(i, t), comb(t));
    }
    lemma_sum_ext(ni, swapped, target);
}

/// `(u mod n + v mod n) mod n == (u + v) mod n`, stated for the indicator
/// used in folded sums.
proof fn lemma_mod_sum_indicator(u: int, v: int, n: int)
    requires
        n > 0,
    ensures
        ((u % n) + v) % n == (u + v) % n,
{
    lemma_add_mod_noop(u, v, n);
    lemma_mod_twice(u, n);
    lemma_add_mod_noop(u % n, v, n);
}

/// Folding takes polynomial products to products in `Z[x] / (x^n - 1)`:
/// if `N` is large enough that the product of `a` and `b` does not wrap
/// around in `Z[C_N]`, folding that product modulo `x^n - 1` gives the
/// product of the folds in `Z[C_n]`.
pub proof fn lemma_fold_product(a: Seq<int>, b: Seq<int>, n: nat, big: nat)
    requires
        n > 0,
        a.len() + b.len() <= big + 1,
    ensures
        fold(group_product(cyclic_model(big), a, b), n) == group_product(
            cyclic_model(n),
            fold(a, n),
            fold(b, n),
        ),
{
    let gn = cyclic_model(n);
    let gb = cyclic_model(big);
    let ni = n as int;
    let la = a.len() as int;
    let lb = b.len() as int;
    let fa = fold(a, n);
    let fb = fold(b, n);
    let prod = group_product(gb, a, b);
    // beta(k, j): the coefficients of a that land on x^k together with x^j
    assert forall|k: int| 0 <= k < ni implies #[trigger] fold(prod, n)[k] == group_product(gn, fa, fb)[k] by {
        let beta = |j: int| sum(la, |i: int| if (i + j) % ni == k { a[i] } else { 0 });
        let target = |j: int| beta(j) * b[j];
        // the right-hand side
        lemma_left_multiplication_matrix(gn, fa, fb, k);
        let rhs_terms = |j: int| column_sum(gn, fa, k, j) * fb[j];
        assert forall|v: int| 0 <= v < ni implies #[trigger] column_sum(gn, fa, k, v) == sum(la, |i: int| if (i % ni + v) % ni == k { a[i] } else { 0 }) by {
            let pred = |u: int| (u + v) % ni == k;
            let comb = |i: int| i % ni;
            let w = |i: int| a[i];
            assert forall|i: int| 0 <= i < la implies 0 <= #[trigger] comb(i) < ni by {
                lemma_mod_bound(i, ni);
            }
            lemma_sum_collapse1(ni, la, pred, comb, w);
            let c1 = |u: int| if gn.mul(u, v) == k { fa[u] } else { 0 };
            let c2 = |u: int| if pred(u) { sum(la, |i: int| if comb(i) == u { w(i) } else { 0 }) } else { 0 };
            assert forall|u: int| 0 <= u < ni implies #[trigger] c1(u) == c2(u) by {
                lemma_sum_ext(la, |i: int| if i % ni == u { a[i] } else { 0 }, |i: int| if comb(i) == u { w(i) } else { 0 });
            }
            lemma_sum_ext(ni, c1, c2);
            lemma_sum_ext(la, |i: int| if pred(comb(i)) { w(i) } else { 0 }, |i: int| if (i % ni + v) % ni == k { a[i] } else { 0 });
        }
        let alpha = |v: int| sum(la, |i: int| if (i % ni + v) % ni == k { a[i] } else { 0 });
        // expand fb[v] and exchange v with j
        let f2 = |v: int, j: int| if j % ni == v { alpha(v) * b[j] } else { 0 };
        let r1 = |v: int| sum(lb, |j: int| f2(v, j));
        assert forall|v: int| 0 <= v < ni implies #[trigger] rhs_terms(v) == r1(v) by {
            let bj = |j: int| if j % ni == v { b[j] } else { 0 };
            lemma_sum_scale(lb, bj, alpha(v));
            lemma_sum_ext(lb, |k2: int| alpha(v) * bj(k2), |j: int| f2(v, j));
        }
        lemma_sum_ext(ni, rhs_terms, r1);
        lemma_sum_swap(ni, lb, f2);
        let r2 = |j: int| sum(ni, |v: int| f2(v, j));
        assert forall|j: int| 0 <= j < lb implies #[trigger] r2(j) == target(j) by {
            lemma_mod_bound(j, ni);
            lemma_sum_single(ni, |v: int| f2(v, j), j % ni);
            let x1 = |i: int| if (i % ni + j % ni) % ni == k { a[i] } else { 0 };
            let x2 = |i: int| if (i + j) % ni == k { a[i] } else { 0 };
            assert forall|i: int| 0 <= i < la implies #[trigger] x1(i) == x2(i) by {
                lemma_mod_sum_indicator(j, i % ni, ni);
                lemma_mod_sum_indicator(i, j, ni);
            }
            lemma_sum_ext(la, x1, x2);
        }
        lemma_sum_ext(lb, r2, target);
        // the left-hand side
        let lhs_terms = |x: int| if x % ni == k { prod[x] } else { 0 };
        let l1 = |x: int, j: int| if x % ni == k { column_sum(gb, a, x, j) * b[j] } else { 0 };
        let lrows = |x: int| sum(lb, |j: int| l1(x, j));
        assert forall|x: int| 0 <= x < big implies #[trigger] lhs_terms(x) == lrows(x) by {
            lemma_left_multiplication_matrix(gb, a, b, x);
            if x % ni == k {
                lemma_sum_ext(lb, |j: int| column_sum(gb, a, x, j) * b[j], |j: int| l1(x, j));
            } else {
                lemma_sum_zero(lb, |j: int| l1(x, j));
            }
        }
        lemma_sum_ext(big as int, lhs_terms, lrows);
        lemma_sum_swap(big as int, lb, l1);
        let l2 = |j: int| sum(big as int, |x: int| l1(x, j));
        assert forall|j: int| 0 <= j < lb implies #[trigger] l2(j) == target(j) by {
            let pred = |x: int| x % ni == k;
            let comb = |i: int| (i + j) % (big as int);
            let w = |i: int| a[i];
            assert forall|i: int| 0 <= i < la implies 0 <= #[trigger] comb(i) < big by {
                lemma_small_mod((i + j) as nat, big);
            }
            lemma_sum_collapse1(big as int, la, pred, comb, w);
            let cs = |x: int| if pred(x) { sum(la, |i: int| if comb(i) == x { w(i) } else { 0 }) } else { 0 };
            let cx = |x: int| if x % ni == k { column_sum(gb, a, x, j) } else { 0 };
            assert forall|x: int| 0 <= x < big implies #[trigger] cx(x) == cs(x) by {
                lemma_sum_ext(la, |i: int| if gb.mul(i, j) == x { a[i] } else { 0 }, |i: int| if comb(i) == x { w(i) } else { 0 });
            }
            lemma_sum_ext(big as int, cx, cs);
            let y1 = |i: int| if pred(comb(i)) { w(i) } else { 0 };
            assert forall|i: int| 0 <= i < la implies #[trigger] y1(i) == (if (i + j) % ni == k { a[i] } else { 0 }) by {
                lemma_small_mod((i + j) as nat, big);
            }
            lemma_sum_ext(la, y1, |i: int| if (i + j) % ni == k { a[i] } else { 0 });
            // pull b[j] out of the sum over x
            lemma_sum_scale(big as int, cx, b[j]);
            let sx = |k2: int| b[j] * cx(k2);
            assert forall|x: int| 0 <= x < big implies #[trigger] l1(x, j) == sx(x) by {
                lemma_mul_is_commutative(column_sum(gb, a, x, j), b[j]);
            }
            lemma_sum_ext(big as int, |x: int| l1(x, j), sx);
            lemma_mul_is_commutative(b[j], beta(j));
        }
        lemma_sum_ext(lb, l2, target);
    }
    assert(fold(prod, n) =~= group_product(gn, fa, fb));
}


/// Without wrap-around, the product in `Z[C_N]` is the polynomial product:
/// its coefficient of `x^k` is `sum_s q[s] d[k - s]`.
pub proof fn lemma_product_shifted(q: Seq<int>, d: Seq<int>, big: nat, k: int)
    requires
        q.len() + d.len() <= big + 1,
        0 <= k < big,
    ensures
        group_product(cyclic_model(big), q, d)[k] == shifted_sum(q, d, k),
{
    let g = cyclic_model(big);
    let lq = q.len() as int;
    let ld = d.len() as int;
    let rows = |i: int| row(g, q, d, i, k);
    let target = |s: int| q[s] * coeff_int(d, k - s);
    assert forall|i: int| 0 <= i < lq implies #[trigger] rows(i) == target(i) by {
        let terms = |j: int| term(g, q, d, i, j, k);
        assert forall|j: int| 0 <= j < ld && j != k - i implies #[trigger] terms(j) == 0 by {
            lemma_small_mod((i + j) as nat, big);
        }
        if 0 <= k - i < ld {
            lemma_small_mod(k as nat, big);
            lemma_sum_single(ld, terms, k - i);
        } else {
            assert forall|j: int| 0 <= j < ld implies #[trigger] terms(j) == 0 by {
                lemma_small_mod((i + j) as nat, big);
            }
            lemma_sum_zero(ld, terms);
        }
    }
    lemma_sum_ext(lq, rows, target);
}

/// A sum whose terms vanish from `len` on does not change when it runs
/// further.
pub proof fn lemma_sum_tail_zero(len: int, total: int, f: spec_fn(int) -> int)
    requires
        0 <= len <= total,
        forall|i: int| len <= i < total ==> #[trigger] f(i) == 0,
    ensures
        sum(total, f) == sum(len, f),
    decreases total - len,
{
    if total > len {
        lemma_sum_tail_zero(len, total - 1, f);
    }
}

/// A folded coefficient may sum the padded coefficients over any length.
pub proof fn lemma_fold_coeff_padded(s: Seq<int>, n: int, k: int, total: int)
    requires
        s.len() <= total,
    ensures
        fold_coeff(s, n, k) == sum(total, |i: int| if i % n == k { coeff_int(s, i) } else { 0 }),
{
    let len = s.len() as int;
    let padded = |i: int| if i % n == k { coeff_int(s, i) } else { 0 };
    lemma_sum_tail_zero(len, total, padded);
    lemma_sum_ext(len, |i: int| if i % n == k { s[i] } else { 0 }, padded);
}

/// Folding is linear on coefficients taken modulo `m`: if every coefficient
/// of `x` is congruent to `c1` times that of `y` plus `c2` times that of `z`,
/// the folds are related in the same way.
pub proof fn lemma_fold_linear(x: Seq<int>, y: Seq<int>, z: Seq<int>, c1: int, c2: int, n: nat, m: int, total: int)
    requires
        n > 0,
        m > 0,
        x.len() <= total,
        y.len() <= total,
        z.len() <= total,
        forall|i: int| 0 <= i < total ==> #[trigger] coeff_int(x, i) % m == (c1 * coeff_int(y, i) + c2 * coeff_int(z, i)) % m,
    ensures
        forall|k: int| 0 <= k < n ==> #[trigger] fold(x, n)[k] % m == (c1 * fold(y, n)[k] + c2 * fold(z, n)[k]) % m,
{
    let ni = n as int;
    assert forall|k: int| 0 <= k < n implies #[trigger] fold(x, n)[k] % m == (c1 * fold(y, n)[k] + c2 * fold(z, n)[k]) % m by {
        lemma_fold_coeff_padded(x, ni, k, total);
        lemma_fold_coeff_padded(y, ni, k, total);
        lemma_fold_coeff_padded(z, ni, k, total);
        let fx = |i: int| if i % ni == k { coeff_int(x, i) } else { 0 };
        let fy = |i: int| if i % ni == k { coeff_int(y, i) } else { 0 };
        let fz = |i: int| if i % ni == k { coeff_int(z, i) } else { 0 };
        let comb = |i: int| c1 * fy(i) + c2 * fz(i);
        assert forall|i: int| 0 <= i < total implies #[trigger] fx(i) % m == comb(i) % m by {
            if i % ni != k {
                lemma_small_mod(0, m as nat);
            }
        }
        crate::algebra::lemma_sum_congruent(total, fx, comb, m);
        lemma_sum_two_scaled(total, fy, fz, c1, c2);
    }
}

/// `sum(c1 f + c2 h) == c1 sum(f) + c2 sum(h)`.
pub proof fn lemma_sum_two_scaled(n: int, f: spec_fn(int) -> int, h: spec_fn(int) -> int, c1: int, c2: int)
    ensures
        sum(n, |i: int| c1 * f(i) + c2 * h(i)) == c1 * sum(n, f) + c2 * sum(n, h),
    decreases n,
{
    if n > 0 {
        lemma_sum_two_scaled(n - 1, f, h, c1, c2);
        lemma_mul_is_distributive_add(c1, sum(n - 1, f), f(n - 1));
        lemma_mul_is_distributive_add(c2, sum(n - 1, h), h(n - 1));
    }
}

/// A sequence of exactly `n` coefficients is its own fold.
pub proof fn lemma_fold_exact(s: Seq<int>, n: nat)
    requires
        s.len() == n,
        n > 0,
    ensures
        fold(s, n) == s,
{
    let ni = n as int;
    assert forall|k: int| 0 <= k < ni implies #[trigger] fold(s, n)[k] == s[k] by {
        let f = |i: int| if i % ni == k { s[i] } else { 0 };
        assert forall|i: int| 0 <= i < ni && i != k implies #[trigger] f(i) == 0 by {
            lemma_small_mod(i as nat, n);
        }
        lemma_small_mod(k as nat, n);
        lemma_sum_single(ni, f, k);
    }
    assert(fold(s, n) =~= s);
}

/// The constant polynomial `c` folds to `c` times the unit.
pub proof fn lemma_fold_constant(c: int, n: nat)
    requires
        n > 0,
    ensures
        fold(seq![c], n) == Seq::new(n, |k: int| if k == 0 { c } else { 0 }),
{
    let ni = n as int;
    assert forall|k: int| 0 <= k < ni implies #[trigger] fold(seq![c], n)[k] == (if k == 0 { c } else { 0 }) by {
        lemma_small_mod(0, n);
        let f = |i: int| if i % ni == k { seq![c][i] } else { 0 };
        assert(sum(1, f) == sum(0, f) + f(0));
    }
    assert(fold(seq![c], n) =~= Seq::new(n, |k: int| if k == 0 { c } else { 0 }));
}

/// The zero polynomial folds to zero.
pub proof fn lemma_fold_empty(n: nat)
    ensures
        fold(Seq::<int>::empty(), n) == Seq::new(n, |k: int| 0int),
{
    assert(fold(Seq::<int>::empty(), n) =~= Seq::new(n, |k: int| 0int));
}

/// Congruences add.
pub proof fn lemma_cong_add(a1: int, b1: int, a2: int, b2: int, m: int)
    requires
        m > 0,
        a1 % m == b1 % m,
        a2 % m == b2 % m,
    ensures
        (a1 + a2) % m == (b1 + b2) % m,
{
    lemma_add_mod_noop(a1, a2, m);
    lemma_add_mod_noop(b1, b2, m);
}

/// Congruences survive scaling.
pub proof fn lemma_cong_scale(c: int, a: int, b: int, m: int)
    requires
        m > 0,
        a % m == b % m,
    ensures
        (c * a) % m == (c * b) % m,
{
    lemma_mul_mod_noop_right(c, a, m);
    lemma_mul_mod_noop_right(c, b, m);
}
} // verus!
