//! The group algebra of the dihedral group `D_{2n}` in terms of the cyclic
//! ring `Z[C_n]`: an element is `A + B s`, with rotation part `A` (the
//! coefficients of `r^k`) and reflection part `B` (those of `s r^k`).
use crate::algebra::{
    affine, convolution, group_product, group_product_mod, lemma_group_product_associative,
    lemma_product_affine_left, lemma_product_affine_right, lemma_product_congruent, lemma_sum_ext,
    lemma_sum_single, lemma_sum_swap, lemma_sum_zero, reduce, row, sum, term,
};
use crate::cyclic::lemma_cyclic_commutative;
use crate::algebra::{lemma_group_product_identity, lemma_product_zero_left, unit_element};
use crate::algebra::{
    ints_u64, left_invertible_mod, lemma_zero_divisor_not_invertible, one_mod_spec, zero_divisor_mod,
};
use crate::cyclic::{
    cyclic_model, difference_mod, dihedral_determinant, involuted, lemma_negate_index, negate_index, negated_mod,
    reflection_part, rotation_part,
};
use crate::group::{dihedral_mul, group_name, singleton_indices, GroupKind, GroupModel};
use vstd::arithmetic::div_mod::*;
use vstd::prelude::*;

verus! {

/// The dihedral group `D_{2n}` with its elements in the order
/// `1, r, ..., r^{n-1}, s, s r, ..., s r^{n-1}`.
pub open spec fn dihedral_model(n: nat) -> GroupModel {
    GroupModel {
        kind: GroupKind::Dihedral,
        n,
        name: group_name(GroupKind::Dihedral, n),
        elements: singleton_indices(2 * n),
    }
}

/// Summing over the negated index `-u mod n` is summing over `u`.
pub proof fn lemma_sum_negated(n: int, f: spec_fn(int) -> int)
    requires
        n > 0,
    ensures
        sum(n, |u: int| f(negate_index(n, u))) == sum(n, f),
{
    let h = |i: int, j: int| if negate_index(n, i) == j { f(j) } else { 0 };
    let lhs = |u: int| f(negate_index(n, u));
    let rows = |i: int| sum(n, |j: int| h(i, j));
    assert forall|u: int| 0 <= u < n implies #[trigger] lhs(u) == rows(u) by {
        lemma_negate_index(n, u);
        lemma_sum_single(n, |j: int| h(u, j), negate_index(n, u));
    }
    lemma_sum_ext(n, lhs, rows);
    lemma_sum_swap(n, n, h);
    let cols = |j: int| sum(n, |i: int| h(i, j));
    assert forall|a: int| 0 <= a < n implies #[trigger] cols(a) == f(a) by {
        lemma_negate_index(n, a);
        assert forall|i: int| 0 <= i < n && i != negate_index(n, a) implies #[trigger] h(i, a) == 0 by {
            lemma_negate_index(n, i);
        }
        lemma_sum_single(n, |i: int| h(i, a), negate_index(n, a));
    }
    lemma_sum_ext(n, cols, f);
}

/// A sum over `n + k` terms is the sum of the first `n` and of the next `k`.
pub proof fn lemma_sum_split(n: int, k: int, f: spec_fn(int) -> int)
    requires
        0 <= n,
        0 <= k,
    ensures
        sum(n + k, f) == sum(n, f) + sum(k, |a: int| f(n + a)),
    decreases k,
{
    if k > 0 {
        lemma_sum_split(n, k - 1, f);
    }
}

/// The sum of `p[a] q[b]` over the pairs with `b - a == k` modulo `n`.
pub open spec fn twisted(n: int, p: Seq<int>, q: Seq<int>, k: int) -> int {
    sum(n, |a: int| sum(n, |b: int| if (b + n - a) % n == k { p[a] * q[b] } else { 0 }))
}

/// The twisted sum is the product of the conjugate of `p` with `q` in `Z[C_n]`.
pub proof fn lemma_twisted_is_conjugate_product(n: int, p: Seq<int>, q: Seq<int>, k: int)
    requires
        n > 0,
        p.len() == n,
        q.len() == n,
        0 <= k < n,
    ensures
        twisted(n, p, q, k) == group_product(cyclic_model(n as nat), involuted(p), q)[k],
{
    let g = cyclic_model(n as nat);
    let ip = involuted(p);
    // the row of a in the twisted sum
    let tw = |a: int| sum(n, |b: int| if (b + n - a) % n == k { p[a] * q[b] } else { 0 });
    // rows of the product, written through the negated index
    let rows = |u: int| row(g, ip, q, u, k);
    assert forall|u: int| 0 <= u < n implies #[trigger] rows(u) == tw(negate_index(n, u)) by {
        lemma_negate_index(n, u);
        let a = negate_index(n, u);
        let t1 = |j: int| term(g, ip, q, u, j, k);
        let t2 = |b: int| if (b + n - a) % n == k { p[a] * q[b] } else { 0 };
        assert forall|b: int| 0 <= b < n implies #[trigger] t1(b) == t2(b) by {
            assert(ip[u] == p[a]);
            // (u + b) mod n == (b + n - a) mod n, as u == -a mod n
            if a == 0 {
                lemma_mod_self_0(n);
                assert(u == 0);
                lemma_mod_add_multiples_vanish(b, n);
            } else {
                lemma_small_mod((n - a) as nat, n as nat);
                assert(u == n - a);
            }
        }
        lemma_sum_ext(n, t1, t2);
    }
    lemma_sum_ext(n, rows, |u: int| tw(negate_index(n, u)));
    lemma_sum_negated(n, tw);
}


/// The rotation part of an element of `Z[D_{2n}]`.
pub open spec fn rotation_coeffs(e: Seq<int>, n: int) -> Seq<int> {
    e.take(n)
}

/// The reflection part of an element of `Z[D_{2n}]`.
pub open spec fn reflection_coeffs(e: Seq<int>, n: int) -> Seq<int> {
    e.skip(n)
}

/// The four blocks of the coefficient of `x` in `e f`, by the kinds of the
/// two factors' basis elements.
proof fn lemma_dihedral_blocks(n: int, e: Seq<int>, f: Seq<int>, x: int)
    requires
        n >= 3,
        e.len() == 2 * n,
        f.len() == 2 * n,
    ensures
        convolution(dihedral_model(n as nat), e, f, x) == sum(n, |i: int| sum(n, |j: int| term(dihedral_model(n as nat), e, f, i, j, x)))
            + sum(n, |i: int| sum(n, |b: int| term(dihedral_model(n as nat), e, f, i, n + b, x)))
            + sum(n, |a: int| sum(n, |j: int| term(dihedral_model(n as nat), e, f, n + a, j, x)))
            + sum(n, |a: int| sum(n, |b: int| term(dihedral_model(n as nat), e, f, n + a, n + b, x))),
{
    let g = dihedral_model(n as nat);
    let rows_all = |i: int| row(g, e, f, i, x);
    lemma_sum_split(n, n, rows_all);
    let rr = |i: int| sum(n, |j: int| term(g, e, f, i, j, x));
    let rs = |i: int| sum(n, |b: int| term(g, e, f, i, n + b, x));
    let sr = |a: int| sum(n, |j: int| term(g, e, f, n + a, j, x));
    let ss = |a: int| sum(n, |b: int| term(g, e, f, n + a, n + b, x));
    let upper = |i: int| rr(i) + rs(i);
    let lower = |a: int| sr(a) + ss(a);
    assert forall|i: int| 0 <= i < n implies #[trigger] rows_all(i) == upper(i) by {
        let tj = |j: int| term(g, e, f, i, j, x);
        lemma_sum_split(n, n, tj);
        lemma_sum_ext(n, |a: int| tj(n + a), |b: int| term(g, e, f, i, n + b, x));
    }
    lemma_sum_ext(n, rows_all, upper);
    let shifted_rows = |a: int| rows_all(n + a);
    assert forall|a: int| 0 <= a < n implies #[trigger] shifted_rows(a) == lower(a) by {
        let tj = |j: int| term(g, e, f, n + a, j, x);
        lemma_sum_split(n, n, tj);
        lemma_sum_ext(n, |c: int| tj(n + c), |b: int| term(g, e, f, n + a, n + b, x));
    }
    lemma_sum_ext(n, shifted_rows, lower);
    crate::algebra::lemma_sum_add(n, rr, rs);
    crate::algebra::lemma_sum_add(n, sr, ss);
    lemma_sum_ext(n, |k: int| rr(k) + rs(k), upper);
    lemma_sum_ext(n, |k: int| sr(k) + ss(k), lower);
}

/// The rotation part of a product: `(A + B s)(C + D s)` has rotation part
/// `A C + conj(B) D`.
pub proof fn lemma_dihedral_rotation_part(n: int, e: Seq<int>, f: Seq<int>, k: int)
    requires
        n >= 3,
        e.len() == 2 * n,
        f.len() == 2 * n,
        0 <= k < n,
    ensures
        group_product(dihedral_model(n as nat), e, f)[k] == group_product(
            cyclic_model(n as nat),
            rotation_coeffs(e, n),
            rotation_coeffs(f, n),
        )[k] + group_product(
            cyclic_model(n as nat),
            involuted(reflection_coeffs(e, n)),
            reflection_coeffs(f, n),
        )[k],
{
    let g = dihedral_model(n as nat);
    let gc = cyclic_model(n as nat);
    let re = rotation_coeffs(e, n);
    let rf = rotation_coeffs(f, n);
    let se = reflection_coeffs(e, n);
    let sf = reflection_coeffs(f, n);
    lemma_dihedral_blocks(n, e, f, k);
    // rotation times rotation
    let rr = |i: int| sum(n, |j: int| term(g, e, f, i, j, k));
    let cr = |i: int| row(gc, re, rf, i, k);
    assert forall|i: int| 0 <= i < n implies #[trigger] rr(i) == cr(i) by {
        lemma_sum_ext(n, |j: int| term(g, e, f, i, j, k), |j: int| term(gc, re, rf, i, j, k));
    }
    lemma_sum_ext(n, rr, cr);
    // mixed blocks vanish
    let rs = |i: int| sum(n, |b: int| term(g, e, f, i, n + b, k));
    assert forall|i: int| 0 <= i < n implies #[trigger] rs(i) == 0 by {
        assert forall|b: int| 0 <= b < n implies #[trigger] term(g, e, f, i, n + b, k) == 0 by {
            lemma_mod_bound(b + n - i, n);
        }
        lemma_sum_zero(n, |b: int| term(g, e, f, i, n + b, k));
    }
    lemma_sum_zero(n, rs);
    let sr = |a: int| sum(n, |j: int| term(g, e, f, n + a, j, k));
    assert forall|a: int| 0 <= a < n implies #[trigger] sr(a) == 0 by {
        assert forall|j: int| 0 <= j < n implies #[trigger] term(g, e, f, n + a, j, k) == 0 by {
            lemma_mod_bound(a + j, n);
        }
        lemma_sum_zero(n, |j: int| term(g, e, f, n + a, j, k));
    }
    lemma_sum_zero(n, sr);
    // reflection times reflection
    let ss = |a: int| sum(n, |b: int| term(g, e, f, n + a, n + b, k));
    let tw = |a: int| sum(n, |b: int| if (b + n - a) % n == k { se[a] * sf[b] } else { 0 });
    assert forall|a: int| 0 <= a < n implies #[trigger] ss(a) == tw(a) by {
        lemma_sum_ext(n, |b: int| term(g, e, f, n + a, n + b, k), |b: int| if (b + n - a) % n == k { se[a] * sf[b] } else { 0 });
    }
    lemma_sum_ext(n, ss, tw);
    lemma_twisted_is_conjugate_product(n, se, sf, k);
}

/// The reflection part of a product: `(A + B s)(C + D s)` has reflection
/// part `conj(A) D + B C`.
pub proof fn lemma_dihedral_reflection_part(n: int, e: Seq<int>, f: Seq<int>, k: int)
    requires
        n >= 3,
        e.len() == 2 * n,
        f.len() == 2 * n,
        0 <= k < n,
    ensures
        group_product(dihedral_model(n as nat), e, f)[n + k] == group_product(
            cyclic_model(n as nat),
            involuted(rotation_coeffs(e, n)),
            reflection_coeffs(f, n),
        )[k] + group_product(
            cyclic_model(n as nat),
            reflection_coeffs(e, n),
            rotation_coeffs(f, n),
        )[k],
{
    let g = dihedral_model(n as nat);
    let gc = cyclic_model(n as nat);
    let re = rotation_coeffs(e, n);
    let rf = rotation_coeffs(f, n);
    let se = reflection_coeffs(e, n);
    let sf = reflection_coeffs(f, n);
    let x = n + k;
    lemma_dihedral_blocks(n, e, f, x);
    // rotation times rotation vanishes
    let rr = |i: int| sum(n, |j: int| term(g, e, f, i, j, x));
    assert forall|i: int| 0 <= i < n implies #[trigger] rr(i) == 0 by {
        assert forall|j: int| 0 <= j < n implies #[trigger] term(g, e, f, i, j, x) == 0 by {
            lemma_mod_bound(i + j, n);
        }
        lemma_sum_zero(n, |j: int| term(g, e, f, i, j, x));
    }
    lemma_sum_zero(n, rr);
    // rotation times reflection
    let rs = |i: int| sum(n, |b: int| term(g, e, f, i, n + b, x));
    let tw = |a: int| sum(n, |b: int| if (b + n - a) % n == k { re[a] * sf[b] } else { 0 });
    assert forall|i: int| 0 <= i < n implies #[trigger] rs(i) == tw(i) by {
        lemma_sum_ext(n, |b: int| term(g, e, f, i, n + b, x), |b: int| if (b + n - i) % n == k { re[i] * sf[b] } else { 0 });
    }
    lemma_sum_ext(n, rs, tw);
    lemma_twisted_is_conjugate_product(n, re, sf, k);
    // reflection times rotation
    let sr = |a: int| sum(n, |j: int| term(g, e, f, n + a, j, x));
    let cr = |i: int| row(gc, se, rf, i, k);
    assert forall|a: int| 0 <= a < n implies #[trigger] sr(a) == cr(a) by {
        lemma_sum_ext(n, |j: int| term(g, e, f, n + a, j, x), |j: int| term(gc, se, rf, a, j, k));
    }
    lemma_sum_ext(n, sr, cr);
    // reflection times reflection vanishes
    let ss = |a: int| sum(n, |b: int| term(g, e, f, n + a, n + b, x));
    assert forall|a: int| 0 <= a < n implies #[trigger] ss(a) == 0 by {
        assert forall|b: int| 0 <= b < n implies #[trigger] term(g, e, f, n + a, n + b, x) == 0 by {
            lemma_mod_bound(b + n - a, n);
        }
        lemma_sum_zero(n, |b: int| term(g, e, f, n + a, n + b, x));
    }
    lemma_sum_zero(n, ss);
}

/// `x mod n` for `0 <= x < 2n`.
proof fn lemma_mod_below_twice(x: int, n: int)
    requires
        n > 0,
        0 <= x < 2 * n,
    ensures
        x % n == if x < n { x } else { x - n },
{
    if x < n {
        lemma_small_mod(x as nat, n as nat);
    } else {
        lemma_mod_sub_multiples_vanish(x, n);
        lemma_small_mod((x - n) as nat, n as nat);
    }
}

/// `-i - j == k` modulo `n` exactly when `i + j == -k` modulo `n`.
proof fn lemma_negated_sum(n: int, i: int, j: int, k: int)
    requires
        n > 0,
        0 <= i < n,
        0 <= j < n,
        0 <= k < n,
    ensures
        (negate_index(n, i) + negate_index(n, j)) % n == k <==> (i + j) % n == negate_index(n, k),
{
    lemma_mod_below_twice(n - i, n);
    lemma_mod_below_twice(n - j, n);
    lemma_mod_below_twice(n - k, n);
    let a = negate_index(n, i);
    let b = negate_index(n, j);
    lemma_mod_below_twice(a + b, n);
    lemma_mod_below_twice(i + j, n);
}

/// Conjugation `x -> x^-1` is multiplicative on `Z[C_n]`:
/// `conj(a b) == conj(a) conj(b)`.
pub proof fn lemma_conjugate_product(n: nat, a: Seq<int>, b: Seq<int>)
    requires
        n > 0,
        a.len() == n,
        b.len() == n,
    ensures
        involuted(group_product(cyclic_model(n), a, b)) == group_product(cyclic_model(n), involuted(a), involuted(b)),
{
    let g = cyclic_model(n);
    let ni = n as int;
    let ia = involuted(a);
    let ib = involuted(b);
    assert forall|k: int| 0 <= k < ni implies #[trigger] involuted(group_product(g, a, b))[k] == group_product(g, ia, ib)[k] by {
        lemma_negate_index(ni, k);
        let nk = negate_index(ni, k);
        // the right-hand side, row by row through the negated index
        let outer = |i: int| sum(ni, |j: int| if (negate_index(ni, i) + negate_index(ni, j)) % ni == k { a[i] * b[j] } else { 0 });
        let rows = |u: int| row(g, ia, ib, u, k);
        assert forall|u: int| 0 <= u < ni implies #[trigger] rows(u) == outer(negate_index(ni, u)) by {
            lemma_negate_index(ni, u);
            let i = negate_index(ni, u);
            let inner = |j: int| if (negate_index(ni, i) + negate_index(ni, j)) % ni == k { a[i] * b[j] } else { 0 };
            let terms = |v: int| term(g, ia, ib, u, v, k);
            assert forall|v: int| 0 <= v < ni implies #[trigger] terms(v) == inner(negate_index(ni, v)) by {
                lemma_negate_index(ni, v);
            }
            lemma_sum_ext(ni, terms, |v: int| inner(negate_index(ni, v)));
            lemma_sum_negated(ni, inner);
        }
        lemma_sum_ext(ni, rows, |u: int| outer(negate_index(ni, u)));
        lemma_sum_negated(ni, outer);
        // the left-hand side is the coefficient of -k in a b
        let lrows = |i: int| row(g, a, b, i, nk);
        assert forall|i: int| 0 <= i < ni implies #[trigger] lrows(i) == outer(i) by {
            assert forall|j: int| 0 <= j < ni implies #[trigger] term(g, a, b, i, j, nk) == (if (negate_index(ni, i) + negate_index(ni, j)) % ni == k { a[i] * b[j] } else { 0 }) by {
                lemma_negated_sum(ni, i, j, k);
            }
            lemma_sum_ext(ni, |j: int| term(g, a, b, i, j, nk), |j: int| if (negate_index(ni, i) + negate_index(ni, j)) % ni == k { a[i] * b[j] } else { 0 });
        }
        lemma_sum_ext(ni, lrows, outer);
    }
    assert(involuted(group_product(g, a, b)) =~= group_product(g, ia, ib));
}

/// The zero element of `Z[C_n]`.
pub open spec fn zeros(n: nat) -> Seq<int> {
    Seq::new(n, |i: int| 0int)
}

/// `x` and `y` agree modulo `m`, coefficientwise.
pub open spec fn congruent(x: Seq<int>, y: Seq<int>, m: int) -> bool {
    reduce(x, m) == reduce(y, m)
}

proof fn lemma_cong_refl_reduce(x: Seq<int>, m: int)
    requires
        m > 0,
    ensures
        congruent(reduce(x, m), x, m),
{
    assert forall|k: int| 0 <= k < x.len() implies #[trigger] reduce(reduce(x, m), m)[k] == reduce(x, m)[k] by {
        lemma_mod_twice(x[k], m);
    }
    assert(reduce(reduce(x, m), m) =~= reduce(x, m));
}

/// Products of congruent factors are congruent, in `Z[C_n]`.
proof fn lemma_cong_prod(n: nat, x: Seq<int>, x2: Seq<int>, y: Seq<int>, y2: Seq<int>, m: int)
    requires
        m > 0,
        congruent(x, x2, m),
        congruent(y, y2, m),
    ensures
        congruent(group_product(cyclic_model(n), x, y), group_product(cyclic_model(n), x2, y2), m),
{
    lemma_product_congruent(cyclic_model(n), x, x2, y, y2, m);
}

/// Linear combinations of congruent elements are congruent.
proof fn lemma_cong_affine(c: int, x: Seq<int>, x2: Seq<int>, y: Seq<int>, y2: Seq<int>, m: int)
    requires
        m > 0,
        x.len() == y.len(),
        x2.len() == y2.len(),
        congruent(x, x2, m),
        congruent(y, y2, m),
    ensures
        congruent(affine(c, x, y), affine(c, x2, y2), m),
{
    assert(x.len() == x2.len()) by {
        assert(reduce(x, m).len() == reduce(x2, m).len());
    }
    assert forall|k: int| 0 <= k < x.len() implies #[trigger] reduce(affine(c, x, y), m)[k] == reduce(affine(c, x2, y2), m)[k] by {
        assert(reduce(x, m)[k] == reduce(x2, m)[k]);
        assert(reduce(y, m)[k] == reduce(y2, m)[k]);
        crate::folding::lemma_cong_scale(c, x[k], x2[k], m);
        crate::folding::lemma_cong_add(c * x[k], c * x2[k], y[k], y2[k], m);
    }
    assert(reduce(affine(c, x, y), m) =~= reduce(affine(c, x2, y2), m));
}

/// Conjugates of congruent elements are congruent.
proof fn lemma_cong_conj(x: Seq<int>, y: Seq<int>, m: int)
    requires
        m > 0,
        x.len() > 0,
        congruent(x, y, m),
    ensures
        congruent(involuted(x), involuted(y), m),
{
    let n = x.len() as int;
    assert(y.len() == n) by {
        assert(reduce(x, m).len() == reduce(y, m).len());
    }
    assert forall|k: int| 0 <= k < n implies #[trigger] reduce(involuted(x), m)[k] == reduce(involuted(y), m)[k] by {
        lemma_negate_index(n, k);
        assert(reduce(x, m)[negate_index(n, k)] == reduce(y, m)[negate_index(n, k)]);
    }
    assert(reduce(involuted(x), m) =~= reduce(involuted(y), m));
}

/// The product is linear in each factor, as sequences.
proof fn lemma_prod_affine(n: nat, c: int, x: Seq<int>, y: Seq<int>, z: Seq<int>)
    requires
        x.len() == y.len(),
    ensures
        group_product(cyclic_model(n), affine(c, x, y), z) == affine(c, group_product(cyclic_model(n), x, z), group_product(cyclic_model(n), y, z)),
        group_product(cyclic_model(n), z, affine(c, x, y)) == affine(c, group_product(cyclic_model(n), z, x), group_product(cyclic_model(n), z, y)),
{
    let g = cyclic_model(n);
    assert forall|k: int| 0 <= k < n implies #[trigger] group_product(g, affine(c, x, y), z)[k] == affine(c, group_product(g, x, z), group_product(g, y, z))[k] by {
        lemma_product_affine_left(g, x, y, z, c, k);
    }
    assert(group_product(g, affine(c, x, y), z) =~= affine(c, group_product(g, x, z), group_product(g, y, z)));
    assert forall|k: int| 0 <= k < n implies #[trigger] group_product(g, z, affine(c, x, y))[k] == affine(c, group_product(g, z, x), group_product(g, z, y))[k] by {
        lemma_product_affine_right(g, z, x, y, c, k);
    }
    assert(group_product(g, z, affine(c, x, y)) =~= affine(c, group_product(g, z, x), group_product(g, z, y)));
}

/// Conjugation is linear and an involution.
proof fn lemma_conj_affine(c: int, x: Seq<int>, y: Seq<int>)
    requires
        x.len() == y.len(),
        x.len() > 0,
    ensures
        involuted(affine(c, x, y)) == affine(c, involuted(x), involuted(y)),
        involuted(involuted(x)) == x,
{
    let n = x.len() as int;
    assert forall|k: int| 0 <= k < n implies #[trigger] involuted(involuted(x))[k] == x[k] by {
        lemma_negate_index(n, k);
    }
    assert(involuted(involuted(x)) =~= x);
    assert forall|k: int| 0 <= k < n implies #[trigger] involuted(affine(c, x, y))[k] == affine(c, involuted(x), involuted(y))[k] by {
        lemma_negate_index(n, k);
    }
    assert(involuted(affine(c, x, y)) =~= affine(c, involuted(x), involuted(y)));
}

proof fn lemma_zero_products(n: nat, x: Seq<int>)
    requires
        0 < n < usize::MAX / 2,
        x.len() == n,
    ensures
        group_product(cyclic_model(n), x, zeros(n)) == zeros(n),
        group_product(cyclic_model(n), zeros(n), x) == zeros(n),
{
    lemma_product_zero_left(cyclic_model(n), n, x);
    assert(group_product(cyclic_model(n), zeros(n), x) =~= zeros(n));
    lemma_cyclic_commutative(n, x, zeros(n));
}

proof fn lemma_unit_self_conjugate(n: nat)
    requires
        n > 0,
    ensures
        involuted(unit_element(n)) == unit_element(n),
{
    let ni = n as int;
    assert forall|k: int| 0 <= k < ni implies #[trigger] involuted(unit_element(n))[k] == unit_element(n)[k] by {
        lemma_negate_index(ni, k);
        if k == 0 {
            lemma_mod_self_0(ni);
        } else {
            lemma_small_mod((ni - k) as nat, n);
        }
    }
    assert(involuted(unit_element(n)) =~= unit_element(n));
}

/// `r r̄ - s̄ s`, the determinant of the element `r + s·σ` of `Z[D_{2n}]`.
pub open spec fn determinant(n: nat, r: Seq<int>, s: Seq<int>) -> Seq<int> {
    affine(
        -1,
        group_product(cyclic_model(n), involuted(s), s),
        group_product(cyclic_model(n), r, involuted(r)),
    )
}

/// The determinant is self-conjugate, and so is its inverse modulo `m`.
proof fn lemma_determinant_inverse_self_conjugate(n: nat, m: int, r: Seq<int>, s: Seq<int>, d: Seq<int>)
    requires
        0 < n < usize::MAX / 2,
        m > 0,
        r.len() == n,
        s.len() == n,
        d.len() == n,
        congruent(group_product(cyclic_model(n), determinant(n, r, s), d), unit_element(n), m),
    ensures
        involuted(determinant(n, r, s)) == determinant(n, r, s),
        congruent(involuted(d), d, m),
{
    let g = cyclic_model(n);
    let cr = involuted(r);
    let cs = involuted(s);
    let det = determinant(n, r, s);
    let one = unit_element(n);
    let cd = involuted(d);
    // the determinant is self-conjugate
    lemma_conj_affine(-1, group_product(g, cs, s), group_product(g, r, cr));
    lemma_conjugate_product(n, cs, s);
    lemma_conjugate_product(n, r, cr);
    lemma_conj_affine(0, s, s);
    lemma_conj_affine(0, r, r);
    lemma_cyclic_commutative(n, s, cs);
    lemma_cyclic_commutative(n, cr, r);
    assert(involuted(det) == det);
    // det conj(d) == conj(det d) == 1
    lemma_conjugate_product(n, det, d);
    lemma_cong_conj(group_product(g, det, d), one, m);
    lemma_unit_self_conjugate(n);
    assert(congruent(group_product(g, det, cd), one, m));
    // d == d (det conj(d)) == (d det) conj(d) == conj(d)
    lemma_group_product_identity(g, d);
    lemma_group_product_identity(g, cd);
    lemma_cong_prod(n, d, d, one, group_product(g, det, cd), m);
    lemma_group_product_associative(g, d, det, cd);
    lemma_cyclic_commutative(n, d, det);
    lemma_cong_prod(n, group_product(g, det, d), one, cd, cd, m);
    assert(congruent(d, cd, m));
}

/// Assembles a congruence in `Z[D_{2n}]` from congruences of the rotation part
/// `A C + conj(B) D` and the reflection part `conj(A) D + B C` of a product.
proof fn lemma_dihedral_congruence(n: nat, e: Seq<int>, f: Seq<int>, a: Seq<int>, b: Seq<int>, m: int)
    requires
        n >= 3,
        m > 0,
        e.len() == 2 * n,
        f.len() == 2 * n,
        a.len() == n,
        b.len() == n,
        congruent(
            affine(
                1,
                group_product(cyclic_model(n), rotation_coeffs(e, n as int), rotation_coeffs(f, n as int)),
                group_product(cyclic_model(n), involuted(reflection_coeffs(e, n as int)), reflection_coeffs(f, n as int)),
            ),
            a,
            m,
        ),
        congruent(
            affine(
                1,
                group_product(cyclic_model(n), involuted(rotation_coeffs(e, n as int)), reflection_coeffs(f, n as int)),
                group_product(cyclic_model(n), reflection_coeffs(e, n as int), rotation_coeffs(f, n as int)),
            ),
            b,
            m,
        ),
    ensures
        congruent(group_product(dihedral_model(n), e, f), a + b, m),
{
    let ni = n as int;
    let g = cyclic_model(n);
    let re = rotation_coeffs(e, ni);
    let rf = rotation_coeffs(f, ni);
    let se = reflection_coeffs(e, ni);
    let sf = reflection_coeffs(f, ni);
    let p = affine(1, group_product(g, re, rf), group_product(g, involuted(se), sf));
    let q = affine(1, group_product(g, involuted(re), sf), group_product(g, se, rf));
    assert forall|k: int| 0 <= k < 2 * ni implies #[trigger] reduce(group_product(dihedral_model(n), e, f), m)[k] == reduce(a + b, m)[k] by {
        if k < ni {
            lemma_dihedral_rotation_part(ni, e, f, k);
            assert(reduce(p, m)[k] == reduce(a, m)[k]);
        } else {
            lemma_dihedral_reflection_part(ni, e, f, k - ni);
            assert(reduce(q, m)[k - ni] == reduce(b, m)[k - ni]);
        }
    }
    assert(reduce(group_product(dihedral_model(n), e, f), m) =~= reduce(a + b, m));
}

/// The hypotheses of the dihedral inverse formula.
pub open spec fn inverts_dihedral(n: nat, m: int, r: Seq<int>, s: Seq<int>, d: Seq<int>, vr: Seq<int>, vs: Seq<int>) -> bool {
    &&& 3 <= n <= usize::MAX / 4
    &&& m > 1
    &&& r.len() == n
    &&& s.len() == n
    &&& d.len() == n
    &&& vr.len() == n
    &&& vs.len() == n
    &&& congruent(group_product(cyclic_model(n), determinant(n, r, s), d), unit_element(n), m)
    &&& congruent(vr, group_product(cyclic_model(n), involuted(r), d), m)
    &&& congruent(vs, group_product(cyclic_model(n), affine(-1, s, zeros(n)), d), m)
}

/// Rotation part of `(r + s σ)(vr + vs σ)`: `r vr + s̄ vs ≡ (r r̄ - s̄ s) d ≡ 1`.
proof fn lemma_right_rotation(n: nat, m: int, r: Seq<int>, s: Seq<int>, d: Seq<int>, vr: Seq<int>, vs: Seq<int>)
    requires
        inverts_dihedral(n, m, r, s, d, vr, vs),
    ensures
        congruent(affine(1, group_product(cyclic_model(n), r, vr), group_product(cyclic_model(n), involuted(s), vs)), unit_element(n), m),
{
    let g = cyclic_model(n);
    let z = zeros(n);
    let cr = involuted(r);
    let cs = involuted(s);
    let ns = affine(-1, s, z);
    let x = group_product(g, group_product(g, r, cr), d);
    let y = group_product(g, group_product(g, cs, s), d);
    // r vr ≡ r (r̄ d) == (r r̄) d
    lemma_cong_prod(n, r, r, vr, group_product(g, cr, d), m);
    lemma_group_product_associative(g, r, cr, d);
    // s̄ vs ≡ s̄ ((-s) d) == -((s̄ s) d)
    lemma_cong_prod(n, cs, cs, vs, group_product(g, ns, d), m);
    lemma_group_product_associative(g, cs, ns, d);
    lemma_zero_products(n, cs);
    lemma_zero_products(n, d);
    lemma_prod_affine(n, -1, s, z, cs);
    lemma_prod_affine(n, -1, group_product(g, cs, s), z, d);
    lemma_cong_affine(1, group_product(g, r, vr), x, group_product(g, cs, vs), affine(-1, y, z), m);
    // which is the determinant times d
    lemma_prod_affine(n, -1, group_product(g, cs, s), group_product(g, r, cr), d);
    assert(affine(1, x, affine(-1, y, z)) =~= group_product(g, determinant(n, r, s), d));
}

/// Reflection part of `(r + s σ)(vr + vs σ)`: `r̄ vs + s vr ≡ -(r̄ s) d + (s r̄) d == 0`.
proof fn lemma_right_reflection(n: nat, m: int, r: Seq<int>, s: Seq<int>, d: Seq<int>, vr: Seq<int>, vs: Seq<int>)
    requires
        inverts_dihedral(n, m, r, s, d, vr, vs),
    ensures
        congruent(affine(1, group_product(cyclic_model(n), involuted(r), vs), group_product(cyclic_model(n), s, vr)), zeros(n), m),
{
    let g = cyclic_model(n);
    let z = zeros(n);
    let cr = involuted(r);
    let ns = affine(-1, s, z);
    let w = group_product(g, group_product(g, cr, s), d);
    lemma_cong_prod(n, cr, cr, vs, group_product(g, ns, d), m);
    lemma_group_product_associative(g, cr, ns, d);
    lemma_zero_products(n, cr);
    lemma_zero_products(n, d);
    lemma_prod_affine(n, -1, s, z, cr);
    lemma_prod_affine(n, -1, group_product(g, cr, s), z, d);
    lemma_cong_prod(n, s, s, vr, group_product(g, cr, d), m);
    lemma_group_product_associative(g, s, cr, d);
    lemma_cyclic_commutative(n, s, cr);
    lemma_cong_affine(1, group_product(g, cr, vs), affine(-1, w, z), group_product(g, s, vr), w, m);
    assert(affine(1, affine(-1, w, z), w) =~= z);
}

/// Rotation part of `(vr + vs σ)(r + s σ)`: `vr r + conj(vs) s ≡ (r r̄) d - (s̄ s) d ≡ 1`.
proof fn lemma_left_rotation(n: nat, m: int, r: Seq<int>, s: Seq<int>, d: Seq<int>, vr: Seq<int>, vs: Seq<int>)
    requires
        inverts_dihedral(n, m, r, s, d, vr, vs),
    ensures
        congruent(affine(1, group_product(cyclic_model(n), vr, r), group_product(cyclic_model(n), involuted(vs), s)), unit_element(n), m),
{
    let g = cyclic_model(n);
    let z = zeros(n);
    let cr = involuted(r);
    let cs = involuted(s);
    let cd = involuted(d);
    let ns = affine(-1, s, z);
    let x = group_product(g, group_product(g, r, cr), d);
    let y = group_product(g, group_product(g, cs, s), d);
    lemma_determinant_inverse_self_conjugate(n, m, r, s, d);
    // vr r ≡ (r̄ d) r == (r r̄) d
    lemma_cong_prod(n, vr, group_product(g, cr, d), r, r, m);
    lemma_cyclic_commutative(n, group_product(g, cr, d), r);
    lemma_group_product_associative(g, r, cr, d);
    // conj(vs) ≡ conj((-s) d) == -(s̄ d̄)
    lemma_cong_conj(vs, group_product(g, ns, d), m);
    lemma_conjugate_product(n, ns, d);
    lemma_conj_affine(-1, s, z);
    assert(involuted(z) =~= z) by {
        assert forall|k: int| 0 <= k < n implies #[trigger] involuted(z)[k] == z[k] by {
            lemma_negate_index(n as int, k);
        }
    }
    let cns = affine(-1, cs, z);
    // conj(vs) s ≡ (-(s̄) d̄) s == -((s̄ d̄) s) == -((s̄ s) d̄) ≡ -((s̄ s) d)
    lemma_cong_prod(n, involuted(vs), group_product(g, cns, cd), s, s, m);
    lemma_zero_products(n, cd);
    lemma_zero_products(n, s);
    lemma_prod_affine(n, -1, cs, z, cd);
    let cscd = group_product(g, cs, cd);
    lemma_prod_affine(n, -1, cscd, z, s);
    lemma_group_product_associative(g, cs, cd, s);
    lemma_cyclic_commutative(n, cd, s);
    lemma_group_product_associative(g, cs, s, cd);
    let ss = group_product(g, cs, s);
    lemma_cong_prod(n, ss, ss, cd, d, m);
    lemma_cong_affine(-1, group_product(g, ss, cd), y, z, z, m);
    lemma_cong_affine(1, group_product(g, vr, r), x, group_product(g, involuted(vs), s), affine(-1, y, z), m);
    lemma_prod_affine(n, -1, ss, group_product(g, r, cr), d);
    assert(affine(1, x, affine(-1, y, z)) =~= group_product(g, determinant(n, r, s), d));
}

/// Reflection part of `(vr + vs σ)(r + s σ)`: `conj(vr) s + vs r ≡ (r d) s - (s d) r == 0`.
proof fn lemma_left_reflection(n: nat, m: int, r: Seq<int>, s: Seq<int>, d: Seq<int>, vr: Seq<int>, vs: Seq<int>)
    requires
        inverts_dihedral(n, m, r, s, d, vr, vs),
    ensures
        congruent(affine(1, group_product(cyclic_model(n), involuted(vr), s), group_product(cyclic_model(n), vs, r)), zeros(n), m),
{
    let g = cyclic_model(n);
    let z = zeros(n);
    let cr = involuted(r);
    let cd = involuted(d);
    let ns = affine(-1, s, z);
    lemma_determinant_inverse_self_conjugate(n, m, r, s, d);
    // conj(vr) ≡ conj(r̄ d) == r d̄ ≡ r d
    lemma_cong_conj(vr, group_product(g, cr, d), m);
    lemma_conjugate_product(n, cr, d);
    lemma_conj_affine(0, r, r);
    lemma_cong_prod(n, r, r, cd, d, m);
    let rd = group_product(g, r, d);
    lemma_cong_prod(n, involuted(vr), rd, s, s, m);
    // vs r ≡ ((-s) d) r == -((s d) r)
    lemma_cong_prod(n, vs, group_product(g, ns, d), r, r, m);
    lemma_zero_products(n, d);
    lemma_zero_products(n, r);
    lemma_prod_affine(n, -1, s, z, d);
    let sd = group_product(g, s, d);
    lemma_prod_affine(n, -1, sd, z, r);
    // (r d) s == (s d) r
    lemma_group_product_associative(g, r, d, s);
    lemma_group_product_associative(g, s, d, r);
    lemma_cyclic_commutative(n, d, s);
    lemma_cyclic_commutative(n, d, r);
    lemma_group_product_associative(g, r, s, d);
    lemma_group_product_associative(g, s, r, d);
    lemma_cyclic_commutative(n, r, s);
    let w = group_product(g, rd, s);
    lemma_cong_affine(1, group_product(g, involuted(vr), s), w, group_product(g, vs, r), affine(-1, w, z), m);
    assert(affine(1, w, affine(-1, w, z)) =~= z);
}

/// The dihedral inverse formula: if `d` inverts the determinant `r r̄ - s̄ s`
/// modulo `m`, then `r̄ d + (-s d)·σ` is a two-sided inverse of `r + s·σ` in
/// `Z_m[D_{2n}]`.
pub proof fn lemma_dihedral_inverse(
    n: nat,
    m: int,
    r: Seq<int>,
    s: Seq<int>,
    d: Seq<int>,
    vr: Seq<int>,
    vs: Seq<int>,
)
    requires
        inverts_dihedral(n, m, r, s, d, vr, vs),
    ensures
        congruent(group_product(dihedral_model(n), r + s, vr + vs), unit_element(2 * n), m),
        congruent(group_product(dihedral_model(n), vr + vs, r + s), unit_element(2 * n), m),
{
    let ni = n as int;
    let e = r + s;
    let v = vr + vs;
    assert(rotation_coeffs(e, ni) =~= r);
    assert(reflection_coeffs(e, ni) =~= s);
    assert(rotation_coeffs(v, ni) =~= vr);
    assert(reflection_coeffs(v, ni) =~= vs);
    assert(unit_element(2 * n) =~= unit_element(n) + zeros(n));
    lemma_right_rotation(n, m, r, s, d, vr, vs);
    lemma_right_reflection(n, m, r, s, d, vr, vs);
    lemma_dihedral_congruence(n, e, v, unit_element(n), zeros(n), m);
    lemma_left_rotation(n, m, r, s, d, vr, vs);
    lemma_left_reflection(n, m, r, s, d, vr, vs);
    lemma_dihedral_congruence(n, v, e, unit_element(n), zeros(n), m);
}

/// `m - a` for nonzero residues is `-a` modulo `m`.
proof fn lemma_negated_mod_congruent(a: Seq<int>, m: int)
    requires
        m > 0,
    ensures
        congruent(negated_mod(a, m), affine(-1, a, zeros(a.len())), m),
{
    assert forall|k: int| 0 <= k < a.len() implies #[trigger] reduce(negated_mod(a, m), m)[k] == reduce(affine(-1, a, zeros(a.len())), m)[k] by {
        lemma_mod_add_multiples_vanish(-a[k], m);
    }
    assert(reduce(negated_mod(a, m), m) =~= reduce(affine(-1, a, zeros(a.len())), m));
}

/// The unit of `Z_m[G]` is the reduction of the unit of `Z[G]`.
proof fn lemma_one_mod_is_reduced_unit(n: nat, m: int)
    requires
        m > 1,
    ensures
        reduce(unit_element(n), m) == one_mod_spec(n, m),
{
    assert forall|k: int| 0 <= k < n implies #[trigger] reduce(unit_element(n), m)[k] == one_mod_spec(n, m)[k] by {
        lemma_small_mod(0, m as nat);
    }
    assert(reduce(unit_element(n), m) =~= one_mod_spec(n, m));
}

/// The reduced determinant computed from an element is congruent to the
/// determinant of its reduced parts.
proof fn lemma_reduced_determinant_parts(element: Seq<u64>, n: nat, m: int)
    requires
        0 < n,
        m > 1,
        element.len() == 2 * n,
    ensures
        congruent(
            dihedral_determinant(element, n as int, m),
            determinant(n, rotation_part(element, n as int, m), reflection_part(element, n as int, m)),
            m,
        ),
{
    let g = cyclic_model(n);
    let ni = n as int;
    let rot = rotation_part(element, ni, m);
    let refl = reflection_part(element, ni, m);
    let det = determinant(n, rot, refl);
    let ddet = dihedral_determinant(element, ni, m);
    assert forall|k: int| 0 <= k < ni implies #[trigger] reduce(ddet, m)[k] == reduce(det, m)[k] by {
        let a = group_product(g, rot, involuted(rot))[k];
        let b = group_product(g, involuted(refl), refl)[k];
        lemma_sub_mod_noop(a, b, m);
        lemma_mod_twice(a - b, m);
        assert(det[k] == a - b);
    }
    assert(reduce(ddet, m) =~= reduce(det, m));
}

/// The residues computed for a dihedral inverse: with `d` inverting the
/// reduced determinant, `r̄ d + (m - s) d · σ` (all reduced modulo `m`) is a
/// two-sided inverse of the element in `Z_m[D_{2n}]`.
pub proof fn lemma_dihedral_inverse_residues(element: Seq<u64>, n: nat, m: int, d: Seq<int>)
    requires
        3 <= n <= usize::MAX / 4,
        m > 1,
        element.len() == 2 * n,
        d.len() == n,
        group_product_mod(cyclic_model(n), dihedral_determinant(element, n as int, m), d, m)
            == one_mod_spec(n, m),
    ensures
        ({
            let g = cyclic_model(n);
            let rot = rotation_part(element, n as int, m);
            let refl = reflection_part(element, n as int, m);
            let v = group_product_mod(g, involuted(rot), d, m) + group_product_mod(g, negated_mod(refl, m), d, m);
            &&& group_product_mod(dihedral_model(n), ints_u64(element), v, m) == one_mod_spec(2 * n, m)
            &&& group_product_mod(dihedral_model(n), v, ints_u64(element), m) == one_mod_spec(2 * n, m)
        }),
{
    let g = cyclic_model(n);
    let ni = n as int;
    let rot = rotation_part(element, ni, m);
    let refl = reflection_part(element, ni, m);
    let vr = group_product_mod(g, involuted(rot), d, m);
    let vs = group_product_mod(g, negated_mod(refl, m), d, m);
    let v = vr + vs;
    let det = determinant(n, rot, refl);
    let ddet = dihedral_determinant(element, ni, m);
    // the reduced determinant is congruent to the determinant
    lemma_reduced_determinant_parts(element, n, m);
    lemma_product_congruent(g, ddet, det, d, d, m);
    lemma_one_mod_is_reduced_unit(n, m);
    // the two parts of the inverse
    lemma_cong_refl_reduce(group_product(g, involuted(rot), d), m);
    lemma_cong_refl_reduce(group_product(g, negated_mod(refl, m), d), m);
    lemma_negated_mod_congruent(refl, m);
    lemma_product_congruent(g, negated_mod(refl, m), affine(-1, refl, zeros(n)), d, d, m);
    lemma_dihedral_inverse(n, m, rot, refl, d, vr, vs);
    // the element is congruent to its reduced parts
    assert forall|k: int| 0 <= k < 2 * ni implies #[trigger] reduce(ints_u64(element), m)[k] == reduce(rot + refl, m)[k] by {
        lemma_mod_twice(element[k] as int, m);
    }
    assert(reduce(ints_u64(element), m) =~= reduce(rot + refl, m));
    lemma_product_congruent(dihedral_model(n), ints_u64(element), rot + refl, v, v, m);
    lemma_product_congruent(dihedral_model(n), v, v, ints_u64(element), rot + refl, m);
    lemma_one_mod_is_reduced_unit(2 * n, m);
}

/// In the commutative ring `Z[C_n]`, `(a b)(c d) == (a c)(b d)`.
proof fn lemma_swap_middle(n: nat, a: Seq<int>, b: Seq<int>, c: Seq<int>, d: Seq<int>)
    requires
        0 < n < usize::MAX / 2,
        a.len() == n,
        b.len() == n,
        c.len() == n,
        d.len() == n,
    ensures
        group_product(cyclic_model(n), group_product(cyclic_model(n), a, b), group_product(cyclic_model(n), c, d))
            == group_product(cyclic_model(n), group_product(cyclic_model(n), a, c), group_product(cyclic_model(n), b, d)),
{
    let g = cyclic_model(n);
    lemma_group_product_associative(g, a, b, group_product(g, c, d));
    lemma_group_product_associative(g, b, c, d);
    lemma_cyclic_commutative(n, b, c);
    lemma_group_product_associative(g, c, b, d);
    lemma_group_product_associative(g, a, c, group_product(g, b, d));
}

/// The rotation part `A C + conj(B) D` of a product of dihedral elements.
pub open spec fn rotation_of_product(n: nat, a: Seq<int>, b: Seq<int>, c: Seq<int>, d: Seq<int>) -> Seq<int> {
    affine(1, group_product(cyclic_model(n), a, c), group_product(cyclic_model(n), involuted(b), d))
}

/// The reflection part `conj(A) D + B C` of a product of dihedral elements.
pub open spec fn reflection_of_product(n: nat, a: Seq<int>, b: Seq<int>, c: Seq<int>, d: Seq<int>) -> Seq<int> {
    affine(1, group_product(cyclic_model(n), involuted(a), d), group_product(cyclic_model(n), b, c))
}

/// The determinant is multiplicative: the determinant of the product of
/// `A + B σ` and `C + D σ` is the product of their determinants.
pub proof fn lemma_determinant_multiplicative(n: nat, a: Seq<int>, b: Seq<int>, c: Seq<int>, d: Seq<int>)
    requires
        0 < n < usize::MAX / 2,
        a.len() == n,
        b.len() == n,
        c.len() == n,
        d.len() == n,
    ensures
        determinant(n, rotation_of_product(n, a, b, c, d), reflection_of_product(n, a, b, c, d))
            == group_product(cyclic_model(n), determinant(n, a, b), determinant(n, c, d)),
{
    let g = cyclic_model(n);
    let ca = involuted(a);
    let cb = involuted(b);
    let cc = involuted(c);
    let cd = involuted(d);
    let p = rotation_of_product(n, a, b, c, d);
    let q = reflection_of_product(n, a, b, c, d);
    let ac = group_product(g, a, c);
    let bd = group_product(g, cb, d);
    let ad = group_product(g, ca, d);
    let bc = group_product(g, b, c);
    // conjugates of the parts
    lemma_conj_affine(1, ac, bd);
    lemma_conj_affine(1, ad, bc);
    lemma_conjugate_product(n, a, c);
    lemma_conjugate_product(n, cb, d);
    lemma_conjugate_product(n, ca, d);
    lemma_conjugate_product(n, b, c);
    lemma_conj_affine(0, a, a);
    lemma_conj_affine(0, b, b);
    let cp = affine(1, group_product(g, ca, cc), group_product(g, b, cd));
    let cq = affine(1, group_product(g, a, cd), group_product(g, cb, cc));
    assert(involuted(p) == cp);
    assert(involuted(q) == cq);
    // p p̄ == X1 + X2 + X3 + X4
    let x1 = group_product(g, ac, group_product(g, ca, cc));
    let x2 = group_product(g, ac, group_product(g, b, cd));
    let x3 = group_product(g, bd, group_product(g, ca, cc));
    let x4 = group_product(g, bd, group_product(g, b, cd));
    lemma_prod_affine(n, 1, ac, bd, cp);
    lemma_prod_affine(n, 1, group_product(g, ca, cc), group_product(g, b, cd), ac);
    lemma_prod_affine(n, 1, group_product(g, ca, cc), group_product(g, b, cd), bd);
    // q̄ q == Y1 + Y2 + Y3 + Y4
    let y1 = group_product(g, group_product(g, a, cd), ad);
    let y2 = group_product(g, group_product(g, a, cd), bc);
    let y3 = group_product(g, group_product(g, cb, cc), ad);
    let y4 = group_product(g, group_product(g, cb, cc), bc);
    lemma_prod_affine(n, 1, group_product(g, a, cd), group_product(g, cb, cc), q);
    lemma_prod_affine(n, 1, ad, bc, group_product(g, a, cd));
    lemma_prod_affine(n, 1, ad, bc, group_product(g, cb, cc));
    // rearrangements
    let aa = group_product(g, a, ca);
    let bb = group_product(g, cb, b);
    let cc2 = group_product(g, c, cc);
    let dd = group_product(g, cd, d);
    lemma_swap_middle(n, a, c, ca, cc);
    lemma_swap_middle(n, cb, d, b, cd);
    lemma_cyclic_commutative(n, d, cd);
    lemma_swap_middle(n, a, cd, ca, d);
    lemma_swap_middle(n, cb, cc, b, c);
    lemma_cyclic_commutative(n, cc, c);
    lemma_swap_middle(n, a, c, b, cd);
    lemma_swap_middle(n, a, cd, b, c);
    lemma_cyclic_commutative(n, c, cd);
    lemma_swap_middle(n, cb, d, ca, cc);
    lemma_swap_middle(n, cb, cc, ca, d);
    lemma_cyclic_commutative(n, d, cc);
    assert(x1 == group_product(g, aa, cc2));
    assert(x4 == group_product(g, bb, dd));
    assert(y1 == group_product(g, aa, dd));
    assert(y4 == group_product(g, bb, cc2));
    assert(x2 == y2);
    assert(x3 == y3);
    // the product of the determinants
    let dab = determinant(n, a, b);
    let dcd = determinant(n, c, d);
    lemma_prod_affine(n, -1, bb, aa, dcd);
    lemma_prod_affine(n, -1, dd, cc2, bb);
    lemma_prod_affine(n, -1, dd, cc2, aa);
    assert(determinant(n, p, q) =~= group_product(g, dab, dcd));
}

/// A product equal to one in `Z_m[D_{2n}]` has rotation part one and
/// reflection part zero in `Z_m[C_n]`.
proof fn lemma_unit_product_parts(n: nat, m: int, v: Seq<int>, e: Seq<int>)
    requires
        3 <= n <= usize::MAX / 4,
        m > 1,
        v.len() == 2 * n,
        e.len() == 2 * n,
        group_product_mod(dihedral_model(n), v, e, m) == one_mod_spec(2 * n, m),
    ensures
        congruent(
            rotation_of_product(
                n,
                rotation_coeffs(v, n as int),
                reflection_coeffs(v, n as int),
                rotation_coeffs(e, n as int),
                reflection_coeffs(e, n as int),
            ),
            unit_element(n),
            m,
        ),
        congruent(
            reflection_of_product(
                n,
                rotation_coeffs(v, n as int),
                reflection_coeffs(v, n as int),
                rotation_coeffs(e, n as int),
                reflection_coeffs(e, n as int),
            ),
            zeros(n),
            m,
        ),
{
    let ni = n as int;
    let a = rotation_coeffs(v, ni);
    let b = reflection_coeffs(v, ni);
    let c = rotation_coeffs(e, ni);
    let d = reflection_coeffs(e, ni);
    let p = rotation_of_product(n, a, b, c, d);
    let q = reflection_of_product(n, a, b, c, d);
    let w = group_product(dihedral_model(n), v, e);
    lemma_small_mod(0, m as nat);
    assert forall|k: int| 0 <= k < ni implies #[trigger] reduce(p, m)[k] == reduce(unit_element(n), m)[k] by {
        lemma_dihedral_rotation_part(ni, v, e, k);
        assert(w[k] == p[k]);
        assert(reduce(w, m)[k] == one_mod_spec(2 * n, m)[k]);
    }
    assert(reduce(p, m) =~= reduce(unit_element(n), m));
    assert forall|k: int| 0 <= k < ni implies #[trigger] reduce(q, m)[k] == reduce(zeros(n), m)[k] by {
        lemma_dihedral_reflection_part(ni, v, e, k);
        assert(w[ni + k] == q[k]);
        assert(reduce(w, m)[ni + k] == one_mod_spec(2 * n, m)[ni + k]);
    }
    assert(reduce(q, m) =~= reduce(zeros(n), m));
}

/// The determinant of an element congruent to `1 + 0 σ` is congruent to one.
proof fn lemma_determinant_of_unit(n: nat, m: int, p: Seq<int>, q: Seq<int>)
    requires
        0 < n < usize::MAX / 2,
        m > 1,
        p.len() == n,
        q.len() == n,
        congruent(p, unit_element(n), m),
        congruent(q, zeros(n), m),
    ensures
        congruent(determinant(n, p, q), unit_element(n), m),
{
    let g = cyclic_model(n);
    let ni = n as int;
    let one = unit_element(n);
    let z = zeros(n);
    lemma_cong_conj(p, one, m);
    lemma_cong_conj(q, z, m);
    lemma_unit_self_conjugate(n);
    assert(involuted(z) =~= z) by {
        assert forall|k: int| 0 <= k < ni implies #[trigger] involuted(z)[k] == z[k] by {
            lemma_negate_index(ni, k);
        }
    }
    lemma_cong_prod(n, p, one, involuted(p), one, m);
    lemma_cong_prod(n, involuted(q), z, q, z, m);
    lemma_cong_affine(
        -1,
        group_product(g, involuted(q), q),
        group_product(g, z, z),
        group_product(g, p, involuted(p)),
        group_product(g, one, one),
        m,
    );
    lemma_zero_products(n, z);
    lemma_group_product_identity(g, one);
    assert(affine(-1, z, one) =~= one);
}

/// A left inverse in `Z_m[D_{2n}]` makes the determinants invert each other in
/// `Z_m[C_n]`.
pub proof fn lemma_left_inverse_determinant(n: nat, m: int, v: Seq<int>, e: Seq<int>)
    requires
        3 <= n <= usize::MAX / 4,
        m > 1,
        v.len() == 2 * n,
        e.len() == 2 * n,
        group_product_mod(dihedral_model(n), v, e, m) == one_mod_spec(2 * n, m),
    ensures
        group_product_mod(
            cyclic_model(n),
            determinant(n, rotation_coeffs(v, n as int), reflection_coeffs(v, n as int)),
            determinant(n, rotation_coeffs(e, n as int), reflection_coeffs(e, n as int)),
            m,
        ) == one_mod_spec(n, m),
{
    let ni = n as int;
    let a = rotation_coeffs(v, ni);
    let b = reflection_coeffs(v, ni);
    let c = rotation_coeffs(e, ni);
    let d = reflection_coeffs(e, ni);
    lemma_unit_product_parts(n, m, v, e);
    lemma_determinant_of_unit(n, m, rotation_of_product(n, a, b, c, d), reflection_of_product(n, a, b, c, d));
    lemma_determinant_multiplicative(n, a, b, c, d);
    lemma_one_mod_is_reduced_unit(n, m);
}

/// Determinants of congruent parts are congruent.
proof fn lemma_determinant_congruent(n: nat, m: int, a: Seq<int>, b: Seq<int>, a2: Seq<int>, b2: Seq<int>)
    requires
        n > 0,
        m > 1,
        a.len() == n,
        b.len() == n,
        a2.len() == n,
        b2.len() == n,
        congruent(a, a2, m),
        congruent(b, b2, m),
    ensures
        congruent(determinant(n, a, b), determinant(n, a2, b2), m),
{
    let g = cyclic_model(n);
    lemma_cong_conj(a, a2, m);
    lemma_cong_conj(b, b2, m);
    lemma_cong_prod(n, involuted(b), involuted(b2), b, b2, m);
    lemma_cong_prod(n, a, a2, involuted(a), involuted(a2), m);
    lemma_cong_affine(
        -1,
        group_product(g, involuted(b), b),
        group_product(g, involuted(b2), b2),
        group_product(g, a, involuted(a)),
        group_product(g, a2, involuted(a2)),
        m,
    );
}

/// The reduced determinant computed from an element is congruent to the
/// determinant of its parts.
proof fn lemma_reduced_determinant(element: Seq<u64>, n: nat, m: int)
    requires
        0 < n < usize::MAX / 2,
        m > 1,
        element.len() == 2 * n,
    ensures
        congruent(
            dihedral_determinant(element, n as int, m),
            determinant(
                n,
                rotation_coeffs(ints_u64(element), n as int),
                reflection_coeffs(ints_u64(element), n as int),
            ),
            m,
        ),
{
    let g = cyclic_model(n);
    let ni = n as int;
    let rot = rotation_part(element, ni, m);
    let refl = reflection_part(element, ni, m);
    lemma_reduced_determinant_parts(element, n, m);
    let e = ints_u64(element);
    assert forall|k: int| 0 <= k < ni implies #[trigger] reduce(rot, m)[k] == reduce(rotation_coeffs(e, ni), m)[k] by {
        lemma_mod_twice(element[k] as int, m);
    }
    assert(reduce(rot, m) =~= reduce(rotation_coeffs(e, ni), m));
    assert forall|k: int| 0 <= k < ni implies #[trigger] reduce(refl, m)[k] == reduce(reflection_coeffs(e, ni), m)[k] by {
        lemma_mod_twice(element[ni + k] as int, m);
    }
    assert(reduce(refl, m) =~= reduce(reflection_coeffs(e, ni), m));
    lemma_determinant_congruent(n, m, rot, refl, rotation_coeffs(e, ni), reflection_coeffs(e, ni));
}

/// When the reduced determinant of a dihedral element is a zero divisor of
/// `Z_m[C_n]`, the element has no left inverse in `Z_m[D_{2n}]`.
pub proof fn lemma_singular_determinant_not_invertible(element: Seq<u64>, n: nat, m: int)
    requires
        3 <= n <= usize::MAX / 4,
        m > 1,
        element.len() == 2 * n,
        zero_divisor_mod(cyclic_model(n), dihedral_determinant(element, n as int, m), m),
    ensures
        !left_invertible_mod(dihedral_model(n), ints_u64(element), m),
{
    let g = cyclic_model(n);
    let ni = n as int;
    let e = ints_u64(element);
    let ddet = dihedral_determinant(element, ni, m);
    if left_invertible_mod(dihedral_model(n), e, m) {
        let v = choose|v: Seq<int>|
            v.len() == dihedral_model(n).order() && #[trigger] group_product_mod(dihedral_model(n), v, e, m)
                == one_mod_spec(dihedral_model(n).order(), m);
        lemma_left_inverse_determinant(n, m, v, e);
        let dv = determinant(n, rotation_coeffs(v, ni), reflection_coeffs(v, ni));
        let de = determinant(n, rotation_coeffs(e, ni), reflection_coeffs(e, ni));
        lemma_reduced_determinant(element, n, m);
        lemma_product_congruent(g, dv, dv, ddet, de, m);
        lemma_zero_divisor_not_invertible(g, ddet, dv, m);
    }
}
} // verus!
