//! Linear systems over `Z / m Z`, solved by Gauss-Jordan elimination with unit pivots.
use crate::algebra::{
    ints_u64, nonzero_mod, lemma_sum_congruent, lemma_sum_ext, lemma_sum_linear, lemma_sum_scale,
    lemma_sum_single, sum,
};
use crate::arith::{
    gcd, inv_mod, lemma_bezout, lemma_gcd_divides, mul_mod, spec_extended_gcd, spec_gcd, sub_mod,
};
use crate::fft::is_prime_number;
use crate::error::NtruError;
use crate::perm::rows_of;
use vstd::arithmetic::div_mod::*;
use vstd::arithmetic::mul::*;
use vstd::arithmetic::power::*;
use vstd::prelude::*;

verus! {

/// `row[0] y[0] + ... + row[n-1] y[n-1]`.
pub open spec fn dot(row: Seq<u64>, y: Seq<int>, n: int) -> int {
    sum(n, |k: int| row[k] as int * y[k])
}

/// `y` satisfies the augmented equation `row[0..n] . y == row[n]` modulo `m`.
pub open spec fn equation_holds(row: Seq<u64>, y: Seq<int>, n: int, m: int) -> bool {
    (dot(row, y, n) - row[n] as int) % m == 0
}

/// `y` satisfies every equation of an augmented system modulo `m`.
pub open spec fn system_holds(rows: Seq<Seq<u64>>, y: Seq<int>, n: int, m: int) -> bool {
    forall|r: int| 0 <= r < rows.len() ==> #[trigger] equation_holds(rows[r], y, n, m)
}

/// `matrix * y == rhs` modulo `m`.
pub open spec fn solves(matrix: Seq<Seq<u64>>, rhs: Seq<u64>, y: Seq<int>, m: int) -> bool {
    forall|r: int|
        0 <= r < rhs.len() ==> #[trigger] ((dot(matrix[r], y, rhs.len() as int) - rhs[r] as int) % m)
            == 0
}

/// The matrix is square of the size of `rhs`.
pub open spec fn square_system(matrix: Seq<Seq<u64>>, rhs: Seq<u64>) -> bool {
    &&& matrix.len() == rhs.len()
    &&& forall|i: int| 0 <= i < matrix.len() ==> #[trigger] matrix[i].len() == rhs.len()
}

/// Rows congruent entry by entry have congruent products with `y`.
pub proof fn lemma_dot_congruent(u: Seq<u64>, v: Seq<int>, y: Seq<int>, n: int, m: int)
    requires
        m > 0,
        forall|k: int| 0 <= k < n ==> #[trigger] (u[k] as int) % m == v[k] % m,
    ensures
        dot(u, y, n) % m == sum(n, |k: int| v[k] * y[k]) % m,
{
    let f = |k: int| u[k] as int * y[k];
    let h = |k: int| v[k] * y[k];
    assert forall|k: int| 0 <= k < n implies #[trigger] f(k) % m == h(k) % m by {
        lemma_mul_mod_noop_left(u[k] as int, y[k], m);
        lemma_mul_mod_noop_left(v[k], y[k], m);
    }
    lemma_sum_congruent(n, f, h, m);
}

/// Scaling an equation by a unit does not enlarge its solutions.
proof fn lemma_scale_equation(old_row: Seq<u64>, new_row: Seq<u64>, y: Seq<int>, n: int, u: int, v: int, m: int)
    requires
        m > 1,
        0 <= n,
        old_row.len() == n + 1,
        new_row.len() == n + 1,
        forall|k: int| 0 <= k <= n ==> #[trigger] new_row[k] as int == (old_row[k] * u) % m,
        (v * u) % m == 1,
        equation_holds(new_row, y, n, m),
    ensures
        equation_holds(old_row, y, n, m),
{
    let scaled = Seq::new((n + 1) as nat, |k: int| old_row[k] * u);
    assert forall|k: int| 0 <= k < n implies #[trigger] (new_row[k] as int) % m == scaled[k] % m by {
        lemma_mod_twice(old_row[k] * u, m);
    }
    lemma_dot_congruent(new_row, scaled, y, n, m);
    let f = |k: int| old_row[k] as int * y[k];
    lemma_sum_scale(n, f, u);
    assert forall|k: int| 0 <= k < n implies #[trigger] (scaled[k] * y[k]) == u * f(k) by {
        lemma_mul_is_associative(old_row[k] as int, u, y[k]);
        lemma_mul_is_commutative(old_row[k] as int, u);
        lemma_mul_is_associative(u, old_row[k] as int, y[k]);
    }
    lemma_sum_ext(n, |k: int| scaled[k] * y[k], |k: int| u * f(k));
    let d = dot(old_row, y, n) - old_row[n] as int;
    // (u * d) % m == 0
    lemma_mod_twice(old_row[n] * u, m);
    lemma_sub_mod_noop(dot(new_row, y, n), new_row[n] as int, m);
    lemma_sub_mod_noop(u * dot(old_row, y, n), old_row[n] * u, m);
    lemma_mul_is_distributive_sub(u, dot(old_row, y, n), old_row[n] as int);
    lemma_mul_is_commutative(old_row[n] as int, u);
    assert((u * d) % m == 0);
    // d == v * u * d == v * 0 (mod m)
    lemma_mul_mod_noop_right(v, u * d, m);
    lemma_mul_is_associative(v, u, d);
    lemma_mul_mod_noop_left(v * u, d, m);
    lemma_mul_basics(d);
    lemma_mul_basics(v);
    lemma_small_mod(0, m as nat);
}

/// Subtracting a multiple of a satisfied equation does not enlarge the solutions.
proof fn lemma_eliminate_equation(
    old_row: Seq<u64>,
    pivot: Seq<u64>,
    new_row: Seq<u64>,
    y: Seq<int>,
    n: int,
    f: int,
    m: int,
)
    requires
        m > 1,
        0 <= n,
        old_row.len() == n + 1,
        pivot.len() == n + 1,
        new_row.len() == n + 1,
        forall|k: int|
            0 <= k <= n ==> #[trigger] (new_row[k] as int) % m == (old_row[k] - f * pivot[k]) % m,
        equation_holds(new_row, y, n, m),
        equation_holds(pivot, y, n, m),
    ensures
        equation_holds(old_row, y, n, m),
{
    let diff = Seq::new((n + 1) as nat, |k: int| old_row[k] - f * pivot[k]);
    assert forall|k: int| 0 <= k < n implies #[trigger] (new_row[k] as int) % m == diff[k] % m by {}
    lemma_dot_congruent(new_row, diff, y, n, m);
    let g1 = |k: int| old_row[k] as int * y[k];
    let g2 = |k: int| pivot[k] as int * y[k];
    lemma_sum_linear(n, g1, g2, f);
    assert forall|k: int| 0 <= k < n implies #[trigger] (diff[k] * y[k]) == g1(k) - f * g2(k) by {
        lemma_mul_is_distributive_sub_other_way(y[k], old_row[k] as int, f * pivot[k]);
        lemma_mul_is_associative(f, pivot[k] as int, y[k]);
    }
    lemma_sum_ext(n, |k: int| diff[k] * y[k], |k: int| g1(k) - f * g2(k));
    let d_new = dot(new_row, y, n) - new_row[n] as int;
    let d_old = dot(old_row, y, n) - old_row[n] as int;
    let d_piv = dot(pivot, y, n) - pivot[n] as int;
    // d_new == d_old - f * d_piv (mod m)
    assert(d_old - f * d_piv == (dot(old_row, y, n) - f * dot(pivot, y, n)) - (old_row[n] - f
        * pivot[n])) by {
        lemma_mul_is_distributive_sub(f, dot(pivot, y, n), pivot[n] as int);
    }
    lemma_sub_mod_noop(dot(new_row, y, n), new_row[n] as int, m);
    lemma_sub_mod_noop(
        dot(old_row, y, n) - f * dot(pivot, y, n),
        old_row[n] - f * pivot[n],
        m,
    );
    assert(d_new % m == (d_old - f * d_piv) % m);
    // f * d_piv == 0 (mod m)
    lemma_mul_mod_noop_right(f, d_piv, m);
    lemma_mul_basics(f);
    lemma_small_mod(0, m as nat);
    lemma_sub_mod_noop(d_old, f * d_piv, m);
    lemma_mod_twice(d_old, m);
    lemma_mod_bound(d_old, m);
    lemma_small_mod((d_old % m) as nat, m as nat);
}

/// `y` lies in the kernel of the first `n` columns of `rows` modulo `m`.
pub open spec fn in_kernel(rows: Seq<Seq<u64>>, y: Seq<int>, n: int, m: int) -> bool {
    forall|r: int| 0 <= r < rows.len() ==> #[trigger] dot(rows[r], y, n) % m == 0
}

/// The square matrix has a nonzero kernel vector modulo `m`: it is not
/// invertible over `Z / m Z`.
pub open spec fn singular_mod(matrix: Seq<Seq<u64>>, n: int, m: int) -> bool {
    exists|y: Seq<int>| y.len() == n && nonzero_mod(y, m) && #[trigger] in_kernel(matrix, y, n, m)
}

/// A row scaled by `u` has its product with `y` scaled by `u`, modulo `m`.
proof fn lemma_dot_scaled(old_row: Seq<u64>, new_row: Seq<u64>, y: Seq<int>, n: int, u: int, m: int)
    requires
        m > 1,
        0 <= n,
        forall|k: int| 0 <= k < n ==> #[trigger] new_row[k] as int == (old_row[k] * u) % m,
    ensures
        dot(new_row, y, n) % m == (u * dot(old_row, y, n)) % m,
{
    let scaled = Seq::new(n as nat, |k: int| old_row[k] * u);
    assert forall|k: int| 0 <= k < n implies #[trigger] (new_row[k] as int) % m == scaled[k] % m by {
        lemma_mod_twice(old_row[k] * u, m);
    }
    lemma_dot_congruent(new_row, scaled, y, n, m);
    let f = |k: int| old_row[k] as int * y[k];
    lemma_sum_scale(n, f, u);
    assert forall|k: int| 0 <= k < n implies #[trigger] (scaled[k] * y[k]) == u * f(k) by {
        lemma_mul_is_associative(old_row[k] as int, u, y[k]);
        lemma_mul_is_commutative(old_row[k] as int, u);
        lemma_mul_is_associative(u, old_row[k] as int, y[k]);
    }
    lemma_sum_ext(n, |k: int| scaled[k] * y[k], |k: int| u * f(k));
}

/// A row minus `f` times a pivot row has product `old - f * pivot` with `y`, modulo `m`.
proof fn lemma_dot_eliminated(old_row: Seq<u64>, pivot: Seq<u64>, new_row: Seq<u64>, y: Seq<int>, n: int, f: int, m: int)
    requires
        m > 1,
        0 <= n,
        forall|k: int| 0 <= k < n ==> #[trigger] (new_row[k] as int) % m == (old_row[k] - f * pivot[k]) % m,
    ensures
        dot(new_row, y, n) % m == (dot(old_row, y, n) - f * dot(pivot, y, n)) % m,
{
    let diff = Seq::new(n as nat, |k: int| old_row[k] - f * pivot[k]);
    assert forall|k: int| 0 <= k < n implies #[trigger] (new_row[k] as int) % m == diff[k] % m by {}
    lemma_dot_congruent(new_row, diff, y, n, m);
    let g1 = |k: int| old_row[k] as int * y[k];
    let g2 = |k: int| pivot[k] as int * y[k];
    lemma_sum_linear(n, g1, g2, f);
    assert forall|k: int| 0 <= k < n implies #[trigger] (diff[k] * y[k]) == g1(k) - f * g2(k) by {
        lemma_mul_is_distributive_sub_other_way(y[k], old_row[k] as int, f * pivot[k]);
        lemma_mul_is_associative(f, pivot[k] as int, y[k]);
    }
    lemma_sum_ext(n, |k: int| diff[k] * y[k], |k: int| g1(k) - f * g2(k));
}

/// Scaling by a unit keeps `a` zero or nonzero modulo `m`.
pub proof fn lemma_unit_scale_zero(a: int, u: int, v: int, m: int)
    requires
        m > 1,
        (v * u) % m == 1,
    ensures
        (u * a) % m == 0 <==> a % m == 0,
{
    lemma_small_mod(0, m as nat);
    if a % m == 0 {
        lemma_mul_mod_noop_right(u, a, m);
        lemma_mul_basics(u);
    }
    if (u * a) % m == 0 {
        lemma_mul_mod_noop_right(v, u * a, m);
        lemma_mul_basics(v);
        lemma_mul_is_associative(v, u, a);
        lemma_mul_mod_noop_left(v * u, a, m);
        lemma_small_mod(1, m as nat);
        lemma_mul_basics(a);
    }
}

/// Subtracting a multiple of something zero modulo `m` keeps `a` zero or nonzero.
proof fn lemma_subtract_zero(a: int, f: int, b: int, m: int)
    requires
        m > 1,
        b % m == 0,
    ensures
        (a - f * b) % m == 0 <==> a % m == 0,
{
    lemma_mul_mod_noop_right(f, b, m);
    lemma_mul_basics(f);
    lemma_small_mod(0, m as nat);
    lemma_sub_mod_noop(a, f * b, m);
    lemma_mod_twice(a, m);
    lemma_mod_bound(a, m);
    lemma_small_mod((a % m) as nat, m as nat);
}

/// Below a prime, the only non-unit residue is zero.
pub proof fn lemma_prime_non_unit_is_zero(v: nat, m: nat)
    requires
        is_prime_number(m),
        v < m,
        spec_gcd(v, m) != 1,
    ensures
        v == 0,
{
    if v > 0 {
        lemma_gcd_divides(v, m);
        let g = spec_gcd(v, m);
        lemma_mod_is_zero(v, g);
        assert(m % g == 0);
    }
}

/// Modulo a prime, a product of nonzero residues is nonzero.
pub proof fn lemma_prime_product_nonzero(a: int, b: int, p: nat)
    requires
        is_prime_number(p),
        a % (p as int) != 0,
        b % (p as int) != 0,
    ensures
        (a * b) % (p as int) != 0,
{
    let pi = p as int;
    let a1 = a % pi;
    lemma_mod_bound(a, pi);
    if spec_gcd(a1 as nat, p) != 1 {
        lemma_prime_non_unit_is_zero(a1 as nat, p);
    }
    lemma_bezout(a1 as nat, p);
    let x = spec_extended_gcd(a1, pi).1;
    let y = spec_extended_gcd(a1, pi).2;
    if (a * b) % pi == 0 {
        lemma_mul_mod_noop_left(a, b, pi);
        assert(b == (a1 * b) * x + pi * (b * y)) by (nonlinear_arith)
            requires
                a1 * x + pi * y == 1,
        ;
        lemma_mod_multiples_vanish(b * y, (a1 * b) * x, pi);
        lemma_mul_mod_noop_left(a1 * b, x, pi);
        lemma_mul_basics(x);
        lemma_small_mod(0, p);
    }
}

/// `m` is a power `p^k`, `k >= 1`, of a prime `p`.
pub open spec fn is_prime_power(m: nat) -> bool {
    exists|p: nat, k: nat| #![trigger pow(p as int, k)] is_prime_number(p) && k >= 1 && m == pow(p as int, k)
}

/// A number not divisible by the prime `p` is coprime to every power of `p`.
proof fn lemma_coprime_prime_power(v: nat, p: nat, k: nat)
    requires
        is_prime_number(p),
        v % p != 0,
    ensures
        spec_gcd(v, pow(p as int, k) as nat) == 1,
    decreases k,
{
    reveal(pow);
    lemma_pow_positive(p as int, k);
    let pk = pow(p as int, k) as nat;
    if k == 0 {
        assert(pk == 1);
        lemma_small_mod(0, 1);
        assert(spec_gcd(1, v % 1) == spec_gcd(1, 0));
    } else {
        let pj = pow(p as int, (k - 1) as nat) as nat;
        lemma_pow_positive(p as int, (k - 1) as nat);
        lemma_coprime_prime_power(v, p, (k - 1) as nat);
        // gcd(v, p) == gcd(v % p, p) == 1
        let r = v % p;
        lemma_mod_bound(v as int, p as int);
        if spec_gcd(r, p) != 1 {
            lemma_prime_non_unit_is_zero(r, p);
        }
        lemma_mod_twice(v as int, p as int);
        assert(spec_gcd(v, p) == spec_gcd(p, r));
        assert(spec_gcd(r, p) == spec_gcd(p, r % p));
        lemma_bezout(v, p);
        lemma_bezout(v, pj);
        let x1 = spec_extended_gcd(v as int, p as int).1;
        let y1 = spec_extended_gcd(v as int, p as int).2;
        let x2 = spec_extended_gcd(v as int, pj as int).1;
        let y2 = spec_extended_gcd(v as int, pj as int).2;
        assert(pk == p * pj);
        let xx = x1 + x2 - v * x1 * x2;
        let yy = y1 * y2;
        assert(v * xx + pk * yy == 1) by (nonlinear_arith)
            requires
                v * x1 + p * y1 == 1,
                v * x2 + pj * y2 == 1,
                pk == p * pj,
                xx == x1 + x2 - v * x1 * x2,
                yy == y1 * y2,
        ;
        // a common divisor of v and p^k divides 1
        let g = spec_gcd(v, pk);
        lemma_gcd_divides(v, pk);
        assert(g > 0);
        lemma_mul_mod_noop_left(v as int, xx, g as int);
        lemma_mul_mod_noop_left(pk as int, yy, g as int);
        lemma_mul_basics(xx);
        lemma_mul_basics(yy);
        lemma_small_mod(0, g);
        lemma_add_mod_noop(v * xx, pk * yy, g as int);
        if g > 1 {
            lemma_small_mod(1, g);
        }
    }
}

/// When column `col` has zeros from the diagonal down and the columns before it
/// are those of the identity, `e_col - sum_{j < col} rows[j][col] e_j` is a
/// nonzero kernel vector.
proof fn lemma_stuck_column_kernel(rows: Seq<Seq<u64>>, size: int, col: int, m: int) -> (y: Seq<int>)
    requires
        m > 1,
        0 <= col < size,
        rows.len() == size,
        forall|a: int, c: int|
            0 <= a < size && 0 <= c < col ==> #[trigger] rows[a][c] == (if a == c {
                1u64
            } else {
                0u64
            }),
        forall|a: int| col <= a < size ==> #[trigger] rows[a][col] == 0,
    ensures
        y.len() == size,
        nonzero_mod(y, m),
        in_kernel(rows, y, size, m),
{
    let y = Seq::new(size as nat, |k: int| if k < col { -(rows[k][col] as int) } else if k == col { 1int } else { 0int });
    lemma_small_mod(1, m as nat);
    assert(y[col] % m != 0);
    lemma_small_mod(0, m as nat);
    assert forall|a: int| 0 <= a < size implies #[trigger] dot(rows[a], y, size) % m == 0 by {
        let f = |k: int| rows[a][k] as int * y[k];
        if a < col {
            let c = rows[a][col] as int;
            let h1 = |k: int| if k == a { -c } else { 0int };
            let h2 = |k: int| if k == col { c } else { 0int };
            assert forall|k: int| 0 <= k < size implies #[trigger] f(k) == h1(k) + h2(k) by {
                if k < col {
                    assert(rows[a][k] == (if a == k { 1u64 } else { 0u64 }));
                }
            }
            lemma_sum_ext(size, f, |k: int| h1(k) + h2(k));
            crate::algebra::lemma_sum_add(size, h1, h2);
            lemma_sum_single(size, h1, a);
            lemma_sum_single(size, h2, col);
        } else {
            assert forall|k: int| 0 <= k < size implies #[trigger] f(k) == 0 by {
                if k < col {
                    assert(rows[a][k] == 0u64);
                }
            }
            crate::algebra::lemma_sum_zero(size, f);
        }
    }
    y
}

/// Modulo `p^k`: when column `col` has multiples of `p` from the diagonal down
/// and the columns before it are those of the identity,
/// `p^(k-1) (e_col - sum_{j < col} rows[j][col] e_j)` is a nonzero kernel vector.
proof fn lemma_stuck_column_kernel_power(rows: Seq<Seq<u64>>, size: int, col: int, p: nat, k: nat) -> (y: Seq<int>)
    requires
        p > 1,
        k >= 1,
        0 <= col < size,
        rows.len() == size,
        forall|a: int, c: int|
            0 <= a < size && 0 <= c < col ==> #[trigger] rows[a][c] == (if a == c {
                1u64
            } else {
                0u64
            }),
        forall|a: int| col <= a < size ==> (#[trigger] rows[a][col] as int) % (p as int) == 0,
    ensures
        y.len() == size,
        nonzero_mod(y, pow(p as int, k)),
        in_kernel(rows, y, size, pow(p as int, k)),
{
    reveal(pow);
    let m = pow(p as int, k);
    let s = pow(p as int, (k - 1) as nat);
    lemma_pow_positive(p as int, (k - 1) as nat);
    assert(m == p * s);
    assert(s < m) by (nonlinear_arith)
        requires
            m == p * s,
            s > 0,
            p > 1,
    ;
    let base = Seq::new(size as nat, |t: int| if t < col { -(rows[t][col] as int) } else if t == col { 1int } else { 0int });
    let y = Seq::new(size as nat, |t: int| s * base[t]);
    lemma_small_mod(s as nat, m as nat);
    assert(y[col] % m != 0);
    lemma_small_mod(0, m as nat);
    assert forall|a: int| 0 <= a < size implies #[trigger] dot(rows[a], y, size) % m == 0 by {
        let f = |t: int| rows[a][t] as int * base[t];
        let h = |t: int| rows[a][t] as int * y[t];
        assert forall|t: int| 0 <= t < size implies #[trigger] h(t) == s * f(t) by {
            lemma_mul_is_associative(rows[a][t] as int, s, base[t]);
            lemma_mul_is_commutative(rows[a][t] as int, s);
            lemma_mul_is_associative(s, rows[a][t] as int, base[t]);
        }
        lemma_sum_ext(size, h, |t: int| s * f(t));
        lemma_sum_scale(size, f, s);
        if a < col {
            let c = rows[a][col] as int;
            let h1 = |t: int| if t == a { -c } else { 0int };
            let h2 = |t: int| if t == col { c } else { 0int };
            assert forall|t: int| 0 <= t < size implies #[trigger] f(t) == h1(t) + h2(t) by {
                lemma_mul_basics(base[t]);
                lemma_mul_basics(rows[a][t] as int);
                if t < col {
                    assert(rows[a][t] == (if a == t { 1u64 } else { 0u64 }));
                }
            }
            lemma_sum_ext(size, f, |t: int| h1(t) + h2(t));
            crate::algebra::lemma_sum_add(size, h1, h2);
            lemma_sum_single(size, h1, a);
            lemma_sum_single(size, h2, col);
            lemma_mul_basics(s);
        } else {
            let h3 = |t: int| if t == col { rows[a][col] as int } else { 0int };
            assert forall|t: int| 0 <= t < size implies #[trigger] f(t) == h3(t) by {
                lemma_mul_basics(base[t]);
                lemma_mul_basics(rows[a][t] as int);
                if t < col {
                    assert(rows[a][t] == 0u64);
                }
            }
            lemma_sum_ext(size, f, h3);
            lemma_sum_single(size, h3, col);
            let q = (rows[a][col] as int) / (p as int);
            lemma_fundamental_div_mod(rows[a][col] as int, p as int);
            assert(s * (rows[a][col] as int) == m * q) by (nonlinear_arith)
                requires
                    rows[a][col] as int == p * q,
                    m == p * s,
            ;
            lemma_mod_multiples_basic(q, m);
        }
    }
    y
}

/// Rows equal to those of the identity have only the zero kernel modulo `m`.
proof fn lemma_identity_kernel(rows: Seq<Seq<u64>>, size: int, y: Seq<int>, m: int)
    requires
        m > 1,
        rows.len() == size,
        y.len() == size,
        forall|a: int, c: int|
            0 <= a < size && 0 <= c < size ==> #[trigger] rows[a][c] == (if a == c {
                1u64
            } else {
                0u64
            }),
        in_kernel(rows, y, size, m),
    ensures
        !nonzero_mod(y, m),
{
    assert forall|a: int| 0 <= a < size implies #[trigger] (y[a] % m) == 0 by {
        let f = |k: int| rows[a][k] as int * y[k];
        assert forall|k: int| 0 <= k < size && k != a implies #[trigger] f(k) == 0 by {
            assert(rows[a][k] == 0u64);
        }
        assert(rows[a][a] == 1u64);
        lemma_sum_single(size, f, a);
        assert(dot(rows[a], y, size) % m == 0);
    }
}

/// Solve a modular linear system over `Z/modulus Z` using unit pivots.
///
/// In column `c` of `a`, read modulo `m`, row `r` holds a unit and every
/// other row among the first `n` holds zero.
pub open spec fn lone_unit_in_column(a: Seq<Seq<u64>>, n: int, m: int, r: int, c: int) -> bool {
    &&& spec_gcd((a[r][c] as int % m) as nat, m as nat) == 1
    &&& forall|k: int| 0 <= k < n && k != r ==> (#[trigger] a[k][c] as int) % m == 0
}

/// In row `r` of `a`, read modulo `m`, column `c` holds the one nonzero entry
/// among the columns `from..n`.
pub open spec fn lone_entry_in_row(a: Seq<Seq<u64>>, n: int, m: int, from: int, r: int, c: int) -> bool {
    &&& (a[r][c] as int) % m != 0
    &&& forall|k: int| from <= k < n && k != c ==> (#[trigger] a[r][k] as int) % m == 0
}

/// The columns `from..n` of `a` form, in the rows `from..n`, a permutation
/// matrix with unit weights, and the rows above hold zeros there.
pub open spec fn monomial_from(a: Seq<Seq<u64>>, n: int, m: int, from: int) -> bool {
    &&& forall|c: int| from <= c < n ==> #[trigger] column_has_lone_unit(a, n, m, from, c)
    &&& forall|r: int| from <= r < n ==> #[trigger] row_has_lone_entry(a, n, m, from, r)
}

/// Some row among `from..n` holds the lone unit of column `c`.
pub open spec fn column_has_lone_unit(a: Seq<Seq<u64>>, n: int, m: int, from: int, c: int) -> bool {
    exists|r: int| from <= r < n && #[trigger] lone_unit_in_column(a, n, m, r, c)
}

/// Row `r` has a lone nonzero entry among the columns `from..n`.
pub open spec fn row_has_lone_entry(a: Seq<Seq<u64>>, n: int, m: int, from: int, r: int) -> bool {
    exists|c: int| from <= c < n && #[trigger] lone_entry_in_row(a, n, m, from, r, c)
}

/// The `n × n` matrix `a`, read modulo `m`, has exactly one nonzero entry in
/// each row and each column, and those entries are units: it is a permutation
/// matrix with unit weights.
pub open spec fn unit_monomial(a: Seq<Seq<u64>>, n: int, m: int) -> bool {
    monomial_from(a, n, m, 0)
}

/// `gcd(0, m) == m`: zero is a unit only modulo one.
proof fn lemma_gcd_zero_left(m: nat)
    requires
        m > 0,
    ensures
        spec_gcd(0, m) == m,
{
    lemma_small_mod(0, m);
    assert(spec_gcd(0, m) == spec_gcd(m, 0));
}

/// From row and column `from` on, `a` read modulo `m` is triangular with a
/// unit diagonal: the diagonal entries are units, and the entries below the
/// diagonal (`upper`) or above it (otherwise) are zero.
pub open spec fn triangular_from(a: Seq<Seq<u64>>, n: int, m: int, from: int, upper: bool) -> bool {
    forall|r: int, c: int|
        from <= r < n && from <= c < n ==> (r == c ==> spec_gcd((#[trigger] a[r][c] as int % m) as nat, m as nat)
            == 1) && ((if upper { c < r } else { c > r }) ==> (a[r][c] as int) % m == 0)
}

/// The `n × n` matrix `a` read modulo `m` is upper (or lower) triangular with
/// units on the diagonal.
pub open spec fn unit_triangular(a: Seq<Seq<u64>>, n: int, m: int, upper: bool) -> bool {
    triangular_from(a, n, m, 0, upper)
}

/// Reducing the entries modulo `m` keeps a unit triangular matrix.
proof fn lemma_triangular_reduced(a: Seq<Seq<u64>>, b: Seq<Seq<u64>>, n: int, m: int, upper: bool)
    requires
        m > 1,
        triangular_from(a, n, m, 0, upper),
        forall|r: int, c: int| 0 <= r < n && 0 <= c < n ==> (#[trigger] b[r][c] as int) == (a[r][c] as int) % m,
    ensures
        triangular_from(b, n, m, 0, upper),
{
    assert forall|r: int, c: int| 0 <= r < n && 0 <= c < n implies (#[trigger] b[r][c] as int) % m == (a[r][c] as int) % m by {
        lemma_mod_twice(a[r][c] as int, m);
    }
}

/// Reducing the entries modulo `m` keeps a permutation matrix with unit weights.
proof fn lemma_monomial_reduced(a: Seq<Seq<u64>>, b: Seq<Seq<u64>>, n: int, m: int)
    requires
        m > 1,
        a.len() == n,
        b.len() == n,
        monomial_from(a, n, m, 0),
        forall|r: int, c: int| 0 <= r < n && 0 <= c < n ==> (#[trigger] b[r][c] as int) == (a[r][c] as int) % m,
    ensures
        monomial_from(b, n, m, 0),
{
    assert forall|r: int, c: int| 0 <= r < n && 0 <= c < n implies (#[trigger] b[r][c] as int) % m == (a[r][c] as int) % m by {
        lemma_mod_twice(a[r][c] as int, m);
    }
    assert forall|c: int| 0 <= c < n implies #[trigger] column_has_lone_unit(b, n, m, 0, c) by {
        assert(column_has_lone_unit(a, n, m, 0, c));
        let r = choose|r: int| 0 <= r < n && #[trigger] lone_unit_in_column(a, n, m, r, c);
        assert(lone_unit_in_column(b, n, m, r, c));
    }
    assert forall|r: int| 0 <= r < n implies #[trigger] row_has_lone_entry(b, n, m, 0, r) by {
        assert(row_has_lone_entry(a, n, m, 0, r));
        let c = choose|c: int| 0 <= c < n && #[trigger] lone_entry_in_row(a, n, m, 0, r, c);
        assert(lone_entry_in_row(b, n, m, 0, r, c));
    }
}

/// One elimination step on a permutation matrix with unit weights: moving
/// the lone unit of column `col` up to row `col` and scaling that row leaves
/// a permutation matrix with unit weights in the remaining columns, and
/// column `col` zero outside row `col`.
proof fn lemma_monomial_step(s: Seq<Seq<u64>>, s2: Seq<Seq<u64>>, n: int, m: int, col: int, pr: int, inv: int)
    requires
        m > 1,
        0 <= col <= pr < n,
        s.len() == n,
        s2.len() == n,
        monomial_from(s, n, m, col),
        lone_unit_in_column(s, n, m, pr, col),
        forall|t: int| 0 <= t < n ==> (#[trigger] s2[col][t] as int) == (s[pr][t] * inv) % m,
        pr != col ==> s2[pr] == s[col],
        forall|a: int| 0 <= a < n && a != col && a != pr ==> #[trigger] s2[a] == s[a],
    ensures
        monomial_from(s2, n, m, col + 1),
        forall|a: int| 0 <= a < n && a != col ==> (#[trigger] s2[a][col] as int) % m == 0,
{
    lemma_small_mod(0, m as nat);
    assert(s[pr][col] as int % m != 0) by {
        if s[pr][col] as int % m == 0 {
            lemma_gcd_zero_left(m as nat);
        }
    }
    assert(row_has_lone_entry(s, n, m, col, pr));
    let cp = choose|c: int| col <= c < n && #[trigger] lone_entry_in_row(s, n, m, col, pr, c);
    assert(cp == col);
    assert forall|k: int| col < k < n implies (#[trigger] s2[col][k] as int) % m == 0 by {
        assert(s[pr][k] as int % m == 0);
        lemma_mul_mod_noop_left(s[pr][k] as int, inv, m);
        lemma_mul_basics(inv);
        lemma_mod_twice(s[pr][k] * inv, m);
    }
    assert forall|c: int| col + 1 <= c < n implies #[trigger] column_has_lone_unit(s2, n, m, col + 1, c) by {
        assert(column_has_lone_unit(s, n, m, col, c));
        let rc = choose|r: int| col <= r < n && #[trigger] lone_unit_in_column(s, n, m, r, c);
        assert(rc != pr) by {
            if rc == pr {
                assert(s[pr][c] as int % m == 0);
                lemma_gcd_zero_left(m as nat);
            }
        }
        let p = if rc == col { pr } else { rc };
        assert(s2[p][c] == s[rc][c]);
        assert forall|k: int| 0 <= k < n && k != p implies (#[trigger] s2[k][c] as int) % m == 0 by {
            if k == col {
            } else if k == pr {
                assert(s2[k] == s[col]);
                assert(rc != col);
            } else {
                assert(s2[k] == s[k]);
            }
        }
        assert(lone_unit_in_column(s2, n, m, p, c));
    }
    assert forall|a: int| col + 1 <= a < n implies #[trigger] row_has_lone_entry(s2, n, m, col + 1, a) by {
        let o = if a == pr { col } else { a };
        assert(row_has_lone_entry(s, n, m, col, o));
        assert(s2[a] == s[o]);
        let c1 = choose|c: int| col <= c < n && #[trigger] lone_entry_in_row(s, n, m, col, o, c);
        assert(c1 != col) by {
            if c1 == col {
                assert(o != pr);
            }
        }
        assert(lone_entry_in_row(s2, n, m, col + 1, a, c1));
    }
    assert forall|a: int| 0 <= a < n && a != col implies (#[trigger] s2[a][col] as int) % m == 0 by {
        if a == pr {
            assert(s2[a] == s[col]);
        } else {
            assert(s2[a] == s[a]);
        }
    }
}

/// A result solves the system, and then the matrix is invertible modulo
/// `modulus`. The elimination picks, in each column, the first row at or below
/// the diagonal whose entry is a unit; where there is none it reports
/// `NotInvertible`, and for a prime or prime-power modulus the matrix is then
/// singular. For every modulus above one, a permutation matrix with unit
/// weights (the identity among them) is always solved.
pub fn solve_modular_linear_system(matrix: &[Vec<u64>], rhs: &[u64], modulus: u64) -> (r: Result<
    Vec<u64>,
    NtruError,
>)
    ensures
        (r matches Err(NtruError::Shape)) <==> !square_system(rows_of(matrix@), rhs@) || modulus
            <= 1,
        r matches Err(e) ==> e is Shape || e is NotInvertible,
        r matches Ok(x) ==> x.len() == rhs.len() && (forall|i: int|
            0 <= i < x.len() ==> #[trigger] x[i] < modulus) && solves(
            rows_of(matrix@),
            rhs@,
            ints_u64(x@),
            modulus as int,
        ),
        r is Ok ==> !singular_mod(rows_of(matrix@), rhs.len() as int, modulus as int),
        (r matches Err(NtruError::NotInvertible)) && is_prime_number(modulus as nat) ==> singular_mod(
            rows_of(matrix@),
            rhs.len() as int,
            modulus as int,
        ),
        (r matches Err(NtruError::NotInvertible)) && is_prime_power(modulus as nat) ==> singular_mod(
            rows_of(matrix@),
            rhs.len() as int,
            modulus as int,
        ),
        square_system(rows_of(matrix@), rhs@) && modulus > 1 && unit_monomial(
            rows_of(matrix@),
            rhs.len() as int,
            modulus as int,
        ) ==> r is Ok,
        square_system(rows_of(matrix@), rhs@) && modulus > 1 && (unit_triangular(
            rows_of(matrix@),
            rhs.len() as int,
            modulus as int,
            true,
        ) || unit_triangular(rows_of(matrix@), rhs.len() as int, modulus as int, false)) ==> r is Ok,
{
    let size = rhs.len();
    if matrix.len() != size {
        return Err(NtruError::Shape);
    }
    let mut i: usize = 0;
    while i < size
        invariant
            matrix.len() == size,
            size == rhs.len(),
            forall|k: int| 0 <= k < i ==> #[trigger] matrix@[k]@.len() == size,
        decreases size - i,
    {
        if matrix[i].len() != size {
            assert(!square_system(rows_of(matrix@), rhs@)) by {
                assert(rows_of(matrix@)[i as int].len() != size);
            }
            return Err(NtruError::Shape);
        }
        i = i + 1;
    }
    assert(square_system(rows_of(matrix@), rhs@));
    if modulus <= 1 {
        return Err(NtruError::Shape);
    }
    let m = modulus;
    let ghost mi = m as int;
    // the augmented rows, reduced modulo m
    let mut rows: Vec<Vec<u64>> = Vec::new();
    for r in 0..size
        invariant
            matrix.len() == size,
            size == rhs.len(),
            m > 1,
            forall|k: int| 0 <= k < size ==> #[trigger] matrix@[k]@.len() == size,
            rows.len() == r,
            forall|a: int| 0 <= a < r ==> #[trigger] rows@[a]@.len() == size + 1,
            forall|a: int, c: int|
                0 <= a < r && 0 <= c < size ==> #[trigger] rows@[a]@[c] as int == (matrix@[a]@[c]
                    as int) % (m as int),
            forall|a: int| 0 <= a < r ==> #[trigger] rows@[a]@[size as int] as int == (rhs@[a] as int)
                % (m as int),
    {
        let mut augmented: Vec<u64> = Vec::new();
        for c in 0..size
            invariant
                matrix.len() == size,
                r < size,
                m > 1,
                matrix@[r as int]@.len() == size,
                augmented.len() == c,
                forall|k: int|
                    0 <= k < c ==> #[trigger] augmented@[k] as int == (matrix@[r as int]@[k] as int)
                        % (m as int),
        {
            augmented.push(matrix[r][c] % m);
        }
        augmented.push(rhs[r] % m);
        rows.push(augmented);
    }
    let ghost aug = rows_of(rows@);
    let ghost mono = unit_monomial(rows_of(matrix@), size as int, mi);
    let ghost up = unit_triangular(rows_of(matrix@), size as int, mi, true);
    let ghost lo = unit_triangular(rows_of(matrix@), size as int, mi, false);
    proof {
        if mono {
            lemma_monomial_reduced(rows_of(matrix@), aug, size as int, mi);
        }
        if up {
            lemma_triangular_reduced(rows_of(matrix@), aug, size as int, mi, true);
        }
        if lo {
            lemma_triangular_reduced(rows_of(matrix@), aug, size as int, mi, false);
        }
    }
    proof {
        assert forall|y: Seq<int>| y.len() == size && system_holds(aug, y, size as int, mi) implies solves(
            rows_of(matrix@),
            rhs@,
            y,
            mi,
        ) by {
            assert forall|r: int| 0 <= r < size implies #[trigger] ((dot(
                rows_of(matrix@)[r],
                y,
                size as int,
            ) - rhs@[r] as int) % mi) == 0 by {
                assert(equation_holds(aug[r], y, size as int, mi));
                let row_ints = Seq::new(size as nat, |k: int| matrix@[r]@[k] as int);
                assert forall|k: int| 0 <= k < size implies #[trigger] (aug[r][k] as int) % mi
                    == row_ints[k] % mi by {
                    lemma_mod_twice(matrix@[r]@[k] as int, mi);
                }
                lemma_dot_congruent(aug[r], row_ints, y, size as int, mi);
                assert(rows_of(matrix@)[r] == matrix@[r]@);
                assert forall|k: int| 0 <= k < size implies #[trigger] (matrix@[r]@[k] as int) % mi
                    == row_ints[k] % mi by {}
                lemma_dot_congruent(matrix@[r]@, row_ints, y, size as int, mi);
                lemma_sub_mod_noop(dot(aug[r], y, size as int), aug[r][size as int] as int, mi);
                lemma_sub_mod_noop(dot(matrix@[r]@, y, size as int), rhs@[r] as int, mi);
                lemma_mod_twice(rhs@[r] as int, mi);
            }
        }
        assert forall|y: Seq<int>| y.len() == size implies (#[trigger] in_kernel(aug, y, size as int, mi)
            <==> in_kernel(rows_of(matrix@), y, size as int, mi)) by {
            assert forall|r: int| 0 <= r < size implies #[trigger] dot(aug[r], y, size as int) % mi
                == dot(rows_of(matrix@)[r], y, size as int) % mi by {
                let row_ints = Seq::new(size as nat, |k: int| matrix@[r]@[k] as int);
                assert forall|k: int| 0 <= k < size implies #[trigger] (aug[r][k] as int) % mi
                    == row_ints[k] % mi by {
                    lemma_mod_twice(matrix@[r]@[k] as int, mi);
                }
                lemma_dot_congruent(aug[r], row_ints, y, size as int, mi);
                assert forall|k: int| 0 <= k < size implies #[trigger] (matrix@[r]@[k] as int) % mi
                    == row_ints[k] % mi by {}
                lemma_dot_congruent(matrix@[r]@, row_ints, y, size as int, mi);
                assert(rows_of(matrix@)[r] == matrix@[r]@);
            }
            assert(rows_of(matrix@).len() == size);
            if in_kernel(aug, y, size as int, mi) {
                assert forall|r: int| 0 <= r < size implies #[trigger] dot(rows_of(matrix@)[r], y, size as int) % mi == 0 by {
                    assert(dot(aug[r], y, size as int) % mi == 0);
                }
            }
            if in_kernel(rows_of(matrix@), y, size as int, mi) {
                assert forall|r: int| 0 <= r < size implies #[trigger] dot(aug[r], y, size as int) % mi == 0 by {
                    assert(dot(rows_of(matrix@)[r], y, size as int) % mi == 0);
                }
            }
        }
    }
    for col in 0..size
        invariant
            m > 1,
            mi == m,
            m == modulus,
            square_system(rows_of(matrix@), rhs@),
            size == rhs.len(),
            aug.len() == size,
            rows.len() == size,
            forall|a: int| 0 <= a < size ==> #[trigger] rows@[a]@.len() == size + 1,
            forall|a: int, c: int|
                0 <= a < size && 0 <= c <= size ==> #[trigger] rows@[a]@[c] < m,
            forall|a: int, c: int|
                0 <= a < size && 0 <= c < col ==> #[trigger] rows@[a]@[c] == (if a == c {
                    1u64
                } else {
                    0u64
                }),
            mono ==> monomial_from(rows_of(rows@), size as int, mi, col as int),
            mono == unit_monomial(rows_of(matrix@), size as int, mi),
            up == unit_triangular(rows_of(matrix@), size as int, mi, true),
            lo == unit_triangular(rows_of(matrix@), size as int, mi, false),
            up ==> triangular_from(rows_of(rows@), size as int, mi, col as int, true),
            lo ==> triangular_from(rows_of(rows@), size as int, mi, col as int, false),
            forall|y: Seq<int>|
                y.len() == size && #[trigger] system_holds(rows_of(rows@), y, size as int, mi)
                    ==> system_holds(aug, y, size as int, mi),
            forall|y: Seq<int>|
                #![trigger in_kernel(rows_of(rows@), y, size as int, mi)]
                #![trigger in_kernel(aug, y, size as int, mi)]
                y.len() == size ==> (in_kernel(rows_of(rows@), y, size as int, mi) <==> in_kernel(
                    aug,
                    y,
                    size as int,
                    mi,
                )),
            forall|y: Seq<int>|
                y.len() == size ==> (#[trigger] in_kernel(aug, y, size as int, mi) <==> in_kernel(
                    rows_of(matrix@),
                    y,
                    size as int,
                    mi,
                )),
    {
        // find a unit pivot at or below the diagonal
        let ghost head = rows_of(rows@);
        let ghost pr: int = if mono {
            choose|r: int| col <= r < size && #[trigger] lone_unit_in_column(head, size as int, mi, r, col as int)
        } else {
            0
        };
        proof {
            if mono {
                assert(column_has_lone_unit(head, size as int, mi, col as int, col as int));
            }
        }
        let mut pivot_row = col;
        while pivot_row < size && gcd(rows[pivot_row][col], m) != 1
            invariant
                col <= pivot_row <= size,
                col < size,
                rows.len() == size,
                m == modulus,
                m > 1,
                mi == m,
                head == rows_of(rows@),
                forall|a: int, c: int|
                    0 <= a < size && 0 <= c <= size ==> #[trigger] rows@[a]@[c] < m,
                mono ==> col <= pr < size && pivot_row <= pr && lone_unit_in_column(head, size as int, mi, pr, col as int),
                (up || lo) ==> pivot_row == col,
                up ==> triangular_from(head, size as int, mi, col as int, true),
                lo ==> triangular_from(head, size as int, mi, col as int, false),
                forall|a: int| 0 <= a < size ==> #[trigger] rows@[a]@.len() == size + 1,
                forall|a: int|
                    col <= a < pivot_row ==> spec_gcd(#[trigger] rows@[a]@[col as int] as nat, m as nat)
                        != 1,
            decreases size - pivot_row,
        {
            proof {
                if (up || lo) && pivot_row == col {
                    assert(head[col as int] == rows@[col as int]@);
                    assert(head[col as int][col as int] as int % mi != 0 || true);
                    lemma_small_mod(rows@[col as int]@[col as int] as nat, m as nat);
                }
                if mono && pivot_row == pr {
                    assert(head[pr] == rows@[pr]@);
                    lemma_small_mod(rows@[pr]@[col as int] as nat, m as nat);
                }
            }
            pivot_row = pivot_row + 1;
        }
        proof {
            if mono {
                assert(pivot_row < size);
                if pivot_row != pr {
                    assert(head[pivot_row as int] == rows@[pivot_row as int]@);
                    lemma_small_mod(rows@[pivot_row as int]@[col as int] as nat, m as nat);
                    lemma_gcd_zero_left(m as nat);
                }
                assert(pivot_row == pr);
            }
        }
        if pivot_row == size {
            proof {
                if is_prime_number(m as nat) {
                    let cur = rows_of(rows@);
                    assert forall|a: int| col <= a < size implies #[trigger] cur[a][col as int] == 0 by {
                        assert(cur[a] == rows@[a]@);
                        lemma_prime_non_unit_is_zero(rows@[a]@[col as int] as nat, m as nat);
                    }
                    assert forall|a: int, c: int|
                        0 <= a < size && 0 <= c < col implies #[trigger] cur[a][c] == (if a == c {
                            1u64
                        } else {
                            0u64
                        }) by {
                        assert(cur[a] == rows@[a]@);
                    }
                    let y = lemma_stuck_column_kernel(cur, size as int, col as int, mi);
                    assert(in_kernel(aug, y, size as int, mi));
                    assert(in_kernel(rows_of(matrix@), y, size as int, mi));
                }
                if is_prime_power(m as nat) {
                    let (pp, kk) = choose|pp: nat, kk: nat|
                        #![trigger pow(pp as int, kk)]
                        is_prime_number(pp) && kk >= 1 && m as nat == pow(pp as int, kk);
                    let cur = rows_of(rows@);
                    assert forall|a: int| col <= a < size implies (#[trigger] cur[a][col as int] as int) % (pp as int) == 0 by {
                        assert(cur[a] == rows@[a]@);
                        let v = rows@[a]@[col as int] as nat;
                        if v % pp != 0 {
                            lemma_coprime_prime_power(v, pp, kk);
                        }
                    }
                    assert forall|a: int, c: int|
                        0 <= a < size && 0 <= c < col implies #[trigger] cur[a][c] == (if a == c {
                            1u64
                        } else {
                            0u64
                        }) by {
                        assert(cur[a] == rows@[a]@);
                    }
                    let y = lemma_stuck_column_kernel_power(cur, size as int, col as int, pp, kk);
                    assert(in_kernel(aug, y, size as int, mi));
                    assert(in_kernel(rows_of(matrix@), y, size as int, mi));
                }
            }
            return Err(NtruError::NotInvertible);
        }
        if pivot_row != col {
            let ghost before = rows_of(rows@);
            let upper = rows[col].clone();
            let lower = rows[pivot_row].clone();
            assert(upper@ =~= rows@[col as int]@);
            assert(lower@ =~= rows@[pivot_row as int]@);
            rows.set(col, lower);
            rows.set(pivot_row, upper);
            proof {
                assert forall|a: int, c: int|
                    0 <= a < size && 0 <= c < col implies #[trigger] rows@[a]@[c] == (if a == c {
                        1u64
                    } else {
                        0u64
                    }) by {
                    if a == col {
                        assert(rows@[a]@ == before[pivot_row as int]);
                    } else if a == pivot_row {
                        assert(rows@[a]@ == before[col as int]);
                    } else {
                        assert(rows@[a]@ == before[a]);
                    }
                }
                assert forall|a: int, c: int|
                    0 <= a < size && 0 <= c <= size implies #[trigger] rows@[a]@[c] < m by {
                    if a == col {
                        assert(rows@[a]@ == before[pivot_row as int]);
                    } else if a == pivot_row {
                        assert(rows@[a]@ == before[col as int]);
                    } else {
                        assert(rows@[a]@ == before[a]);
                    }
                }
                let after = rows_of(rows@);
                assert forall|y: Seq<int>|
                    y.len() == size && #[trigger] system_holds(after, y, size as int, mi) implies system_holds(
                    before,
                    y,
                    size as int,
                    mi,
                ) by {
                    assert forall|r: int| 0 <= r < size implies #[trigger] equation_holds(
                        before[r],
                        y,
                        size as int,
                        mi,
                    ) by {
                        if r == col {
                            assert(before[r] == after[pivot_row as int]);
                        } else if r == pivot_row {
                            assert(before[r] == after[col as int]);
                        } else {
                            assert(before[r] == after[r]);
                        }
                    }
                }
                assert forall|y: Seq<int>| y.len() == size implies (#[trigger] in_kernel(after, y, size as int, mi)
                    <==> in_kernel(aug, y, size as int, mi)) by {
                    if in_kernel(after, y, size as int, mi) {
                        assert forall|r: int| 0 <= r < size implies #[trigger] dot(before[r], y, size as int) % mi == 0 by {
                            if r == col {
                                assert(before[r] == after[pivot_row as int]);
                            } else if r == pivot_row {
                                assert(before[r] == after[col as int]);
                            } else {
                                assert(before[r] == after[r]);
                            }
                        }
                        assert(in_kernel(before, y, size as int, mi));
                    }
                    if in_kernel(aug, y, size as int, mi) {
                        assert(in_kernel(before, y, size as int, mi));
                        assert forall|r: int| 0 <= r < size implies #[trigger] dot(after[r], y, size as int) % mi == 0 by {
                            if r == col {
                                assert(after[r] == before[pivot_row as int]);
                            } else if r == pivot_row {
                                assert(after[r] == before[col as int]);
                            } else {
                                assert(before[r] == after[r]);
                            }
                        }
                    }
                }
            }
        }
        proof {
            if mono {
                assert forall|a: int| 0 <= a < size implies #[trigger] rows_of(rows@)[a] == (if a == col {
                    head[pr]
                } else if a == pr {
                    head[col as int]
                } else {
                    head[a]
                }) by {}
                assert(head[pr] == rows_of(rows@)[col as int]);
                lemma_small_mod(head[pr][col as int] as nat, m as nat);
            }
        }
        let pivot_value = rows[col][col];
        let pivot_inv = match inv_mod(pivot_value, m) {
            Some(v) => v,
            None => {
                return Err(NtruError::NotInvertible);
            },
        };
        // scale the pivot row so that its pivot is one
        let ghost before_scale = rows_of(rows@);
        let width = rows[col].len();
        let mut scaled: Vec<u64> = Vec::new();
        for k in 0..width
            invariant
                m > 1,
                rows.len() == size,
                col < size,
                width == size + 1,
                rows@[col as int]@.len() == size + 1,
                scaled.len() == k,
                forall|t: int|
                    0 <= t < k ==> #[trigger] scaled@[t] as int == (rows@[col as int]@[t]
                        * pivot_inv) % (m as int),
        {
            scaled.push(mul_mod(rows[col][k], pivot_inv, m));
        }
        proof {
            lemma_small_mod(1, m as nat);
            lemma_mul_is_commutative(pivot_value as int, pivot_inv as int);
            // entries left of the pivot stay zero, the pivot becomes one
            assert forall|c: int| 0 <= c < col implies #[trigger] scaled@[c] == 0 by {
                assert(rows@[col as int]@[c] == 0);
                lemma_small_mod(0, m as nat);
            }
        }
        rows.set(col, scaled);
        proof {
            let after = rows_of(rows@);
            assert forall|y: Seq<int>|
                y.len() == size && #[trigger] system_holds(after, y, size as int, mi) implies system_holds(
                before_scale,
                y,
                size as int,
                mi,
            ) by {
                assert forall|r: int| 0 <= r < size implies #[trigger] equation_holds(
                    before_scale[r],
                    y,
                    size as int,
                    mi,
                ) by {
                    assert(equation_holds(after[r], y, size as int, mi));
                    if r == col {
                        lemma_scale_equation(
                            before_scale[r],
                            after[r],
                            y,
                            size as int,
                            pivot_inv as int,
                            pivot_value as int,
                            mi,
                        );
                    } else {
                        assert(before_scale[r] == after[r]);
                    }
                }
            }
            assert forall|y: Seq<int>| y.len() == size implies (#[trigger] in_kernel(after, y, size as int, mi)
                <==> in_kernel(aug, y, size as int, mi)) by {
                assert forall|k: int| 0 <= k < size implies #[trigger] after[col as int][k] as int
                    == (before_scale[col as int][k] * pivot_inv) % mi by {
                    assert(after[col as int] == scaled@);
                }
                lemma_dot_scaled(before_scale[col as int], after[col as int], y, size as int, pivot_inv as int, mi);
                lemma_unit_scale_zero(dot(before_scale[col as int], y, size as int), pivot_inv as int, pivot_value as int, mi);
                assert(in_kernel(before_scale, y, size as int, mi) == in_kernel(aug, y, size as int, mi));
                if in_kernel(after, y, size as int, mi) {
                    assert forall|r: int| 0 <= r < size implies #[trigger] dot(before_scale[r], y, size as int) % mi == 0 by {
                        assert(dot(after[r], y, size as int) % mi == 0);
                        if r != col {
                            assert(before_scale[r] == after[r]);
                        }
                    }
                    assert(in_kernel(before_scale, y, size as int, mi));
                }
                if in_kernel(aug, y, size as int, mi) {
                    assert(in_kernel(before_scale, y, size as int, mi));
                    assert forall|r: int| 0 <= r < size implies #[trigger] dot(after[r], y, size as int) % mi == 0 by {
                        assert(dot(before_scale[r], y, size as int) % mi == 0);
                        if r != col {
                            assert(before_scale[r] == after[r]);
                        }
                    }
                }
            }
        }
        proof {
            if mono {
                let s2 = rows_of(rows@);
                assert forall|t: int| 0 <= t < size implies (#[trigger] s2[col as int][t] as int) == (head[pr][t]
                    * pivot_inv) % mi by {
                    assert(before_scale[col as int] == head[pr]);
                    assert(s2[col as int] == rows@[col as int]@);
                }
                assert forall|a: int| 0 <= a < size && a != col && a != pr implies #[trigger] s2[a] == head[a] by {
                    assert(before_scale[a] == head[a]);
                }
                if pr != col {
                    assert(s2[pr] == before_scale[pr]);
                }
                lemma_monomial_step(head, s2, size as int, mi, col as int, pr, pivot_inv as int);
            }
            if up || lo {
                let s2 = rows_of(rows@);
                assert forall|a: int| 0 <= a < size && a != col implies #[trigger] s2[a] == head[a] by {
                    assert(s2[a] == before_scale[a]);
                }
                if lo {
                    assert forall|c: int| col < c < size implies #[trigger] s2[col as int][c] == 0 by {
                        assert(s2[col as int] == rows@[col as int]@);
                        assert(before_scale[col as int] == head[col as int]);
                        assert((head[col as int][c] as int) % mi == 0);
                        lemma_mul_mod_noop_left(head[col as int][c] as int, pivot_inv as int, mi);
                        lemma_mul_basics(pivot_inv as int);
                        lemma_small_mod(0, m as nat);
                    }
                }
            }
        }
        let pivot = rows[col].clone();
        assert(pivot@ =~= rows@[col as int]@);
        // clear the pivot column in every other row
        let ghost before_elim = rows_of(rows@);
        for row_index in 0..size
            invariant
                m > 1,
                mi == m,
                col < size,
                rows.len() == size,
                pivot@ == before_elim[col as int],
                pivot@.len() == size + 1,
                pivot@[col as int] == 1,
                forall|c: int| 0 <= c < col ==> #[trigger] pivot@[c] == 0,
                forall|c: int| 0 <= c <= size ==> #[trigger] pivot@[c] < m,
                rows_of(rows@)[col as int] == pivot@,
                forall|a: int| 0 <= a < size ==> #[trigger] rows@[a]@.len() == size + 1,
                forall|a: int, c: int|
                    0 <= a < size && 0 <= c <= size ==> #[trigger] rows@[a]@[c] < m,
                forall|a: int, c: int|
                    0 <= a < size && 0 <= c < col ==> #[trigger] rows@[a]@[c] == (if a == c {
                        1u64
                    } else {
                        0u64
                    }),
                forall|a: int| 0 <= a < row_index && a != col ==> #[trigger] rows@[a]@[col as int] == 0,
                mono ==> rows_of(rows@) == before_elim,
                up ==> triangular_from(head, size as int, mi, col as int, true),
                lo ==> triangular_from(head, size as int, mi, col as int, false),
                up ==> forall|a: int| col < a < size ==> #[trigger] rows_of(rows@)[a] == head[a],
                lo ==> forall|a: int, c: int| col < a < size && col < c < size ==> #[trigger] rows_of(rows@)[a][c] == head[a][c],
                lo ==> forall|c: int| 0 <= c < size && c != col ==> #[trigger] pivot@[c] == 0,
                mono ==> monomial_from(before_elim, size as int, mi, col + 1),
                mono ==> forall|a: int| 0 <= a < size && a != col ==> (#[trigger] before_elim[a][col as int] as int) % mi == 0,
                forall|y: Seq<int>|
                    y.len() == size && #[trigger] system_holds(rows_of(rows@), y, size as int, mi)
                        ==> system_holds(before_elim, y, size as int, mi),
                forall|y: Seq<int>|
                    #![trigger in_kernel(rows_of(rows@), y, size as int, mi)]
                    #![trigger in_kernel(before_elim, y, size as int, mi)]
                    y.len() == size ==> (in_kernel(rows_of(rows@), y, size as int, mi) <==> in_kernel(
                        before_elim,
                        y,
                        size as int,
                        mi,
                    )),
        {
            if row_index != col {
                let factor = rows[row_index][col];
                if factor != 0 {
                    proof {
                        if mono {
                            assert(before_elim[row_index as int] == rows@[row_index as int]@);
                            lemma_small_mod(factor as nat, m as nat);
                        }
                        if up && row_index > col {
                            assert(rows_of(rows@)[row_index as int] == head[row_index as int]);
                            assert((head[row_index as int][col as int] as int) % mi == 0);
                            lemma_small_mod(factor as nat, m as nat);
                        }
                    }
                    let ghost before_row = rows_of(rows@);
                    let width = pivot.len();
                    let mut reduced: Vec<u64> = Vec::new();
                    for idx in 0..width
                        invariant
                            m > 1,
                            rows.len() == size,
                            width == size + 1,
                            row_index < size,
                            rows@[row_index as int]@.len() == size + 1,
                            pivot@.len() == size + 1,
                            forall|c: int| 0 <= c <= size ==> #[trigger] pivot@[c] < m,
                            reduced.len() == idx,
                            forall|t: int|
                                0 <= t < idx ==> #[trigger] reduced@[t] as int == (rows@[row_index as int]@[t]
                                    + m - (factor * pivot@[t]) % (m as int)) % (m as int),
                    {
                        let product = mul_mod(factor, pivot[idx], m);
                        reduced.push(sub_mod(rows[row_index][idx], product, m));
                    }
                    proof {
                        assert(rows@[row_index as int]@ == before_row[row_index as int]);
                        assert forall|t: int| 0 <= t <= size implies (#[trigger] reduced@[t] as int)
                            % mi == (before_row[row_index as int][t] - factor * pivot@[t]) % mi by {
                            let b = before_row[row_index as int][t] as int;
                            let x = factor * pivot@[t];
                            assert(reduced@[t] as int == (b + mi - x % mi) % mi);
                            lemma_mod_twice(b + mi - x % mi, mi);
                            lemma_mod_add_multiples_vanish(
                                before_row[row_index as int][t] - (factor * pivot@[t]) % mi,
                                mi,
                            );
                            lemma_sub_mod_noop(
                                before_row[row_index as int][t] as int,
                                (factor * pivot@[t]) % mi,
                                mi,
                            );
                            lemma_sub_mod_noop(
                                before_row[row_index as int][t] as int,
                                factor * pivot@[t],
                                mi,
                            );
                            lemma_mod_twice(factor * pivot@[t], mi);
                        }
                        assert forall|c: int| 0 <= c < col implies #[trigger] reduced@[c] == (if row_index == c {
                            1u64
                        } else {
                            0u64
                        }) by {
                            lemma_mul_basics(factor as int);
                            lemma_small_mod(0, m as nat);
                            lemma_small_mod(1, m as nat);
                            lemma_mod_self_0(mi);
                            lemma_mod_add_multiples_vanish(before_row[row_index as int][c] as int, mi);
                            lemma_small_mod(before_row[row_index as int][c] as nat, m as nat);
                        }
                        lemma_mul_basics(factor as int);
                        lemma_small_mod(factor as nat, m as nat);
                        lemma_mod_self_0(mi);
                        lemma_mod_add_multiples_vanish(0, mi);
                        if lo && row_index > col {
                            assert forall|c: int| col < c < size implies #[trigger] reduced@[c] == head[row_index as int][c] by {
                                let b = before_row[row_index as int][c] as int;
                                assert(pivot@[c] == 0);
                                assert(reduced@[c] as int == (b + mi - (factor * pivot@[c]) % mi) % mi);
                                lemma_mul_basics(factor as int);
                                lemma_small_mod(0, m as nat);
                                lemma_mod_add_multiples_vanish(b, mi);
                                lemma_small_mod(b as nat, m as nat);
                                assert(rows_of(rows@)[row_index as int][c] == head[row_index as int][c]);
                            }
                        }
                    }
                    let ghost red = reduced@;
                    rows.set(row_index, reduced);
                    proof {
                        let cur = rows_of(rows@);
                        assert(cur[row_index as int] == red);
                        if up {
                            assert forall|a: int| col < a < size implies #[trigger] cur[a] == head[a] by {
                                assert(cur[a] == before_row[a]);
                            }
                        }
                        if lo {
                            assert forall|a: int, c: int| col < a < size && col < c < size implies #[trigger] cur[a][c]
                                == head[a][c] by {
                                if a != row_index {
                                    assert(cur[a] == before_row[a]);
                                }
                            }
                        }
                    }
                    proof {
                        let after = rows_of(rows@);
                        assert forall|y: Seq<int>|
                            y.len() == size && #[trigger] system_holds(after, y, size as int, mi) implies system_holds(
                            before_row,
                            y,
                            size as int,
                            mi,
                        ) by {
                            assert forall|r: int| 0 <= r < size implies #[trigger] equation_holds(
                                before_row[r],
                                y,
                                size as int,
                                mi,
                            ) by {
                                assert(equation_holds(after[r], y, size as int, mi));
                                if r == row_index {
                                    assert(equation_holds(after[col as int], y, size as int, mi));
                                    lemma_eliminate_equation(
                                        before_row[r],
                                        pivot@,
                                        after[r],
                                        y,
                                        size as int,
                                        factor as int,
                                        mi,
                                    );
                                } else {
                                    assert(before_row[r] == after[r]);
                                }
                            }
                        }
                        assert forall|y: Seq<int>| y.len() == size implies (#[trigger] in_kernel(after, y, size as int, mi)
                            <==> in_kernel(before_elim, y, size as int, mi)) by {
                            let ri = row_index as int;
                            lemma_dot_eliminated(before_row[ri], pivot@, after[ri], y, size as int, factor as int, mi);
                            assert(after[col as int] == pivot@);
                            assert(before_row[col as int] == pivot@);
                            if in_kernel(after, y, size as int, mi) {
                                assert(dot(after[col as int], y, size as int) % mi == 0);
                                lemma_subtract_zero(dot(before_row[ri], y, size as int), factor as int, dot(pivot@, y, size as int), mi);
                                assert forall|r: int| 0 <= r < size implies #[trigger] dot(before_row[r], y, size as int) % mi == 0 by {
                                    assert(dot(after[r], y, size as int) % mi == 0);
                                    if r != ri {
                                        assert(before_row[r] == after[r]);
                                    }
                                }
                                assert(in_kernel(before_row, y, size as int, mi));
                            }
                            if in_kernel(before_elim, y, size as int, mi) {
                                assert(in_kernel(before_row, y, size as int, mi));
                                assert(dot(before_row[col as int], y, size as int) % mi == 0);
                                lemma_subtract_zero(dot(before_row[ri], y, size as int), factor as int, dot(pivot@, y, size as int), mi);
                                assert forall|r: int| 0 <= r < size implies #[trigger] dot(after[r], y, size as int) % mi == 0 by {
                                    assert(dot(before_row[r], y, size as int) % mi == 0);
                                    if r != ri {
                                        assert(before_row[r] == after[r]);
                                    }
                                }
                            }
                        }
                    }
                }
            }
        }
        proof {
            let cur = rows_of(rows@);
            if up {
                assert forall|r: int, c: int| col + 1 <= r < size && col + 1 <= c < size implies #[trigger] cur[r][c]
                    == head[r][c] by {
                    assert(cur[r] == head[r]);
                }
                assert(triangular_from(cur, size as int, mi, col + 1, true));
            }
            if lo {
                assert forall|r: int, c: int| col + 1 <= r < size && col + 1 <= c < size implies #[trigger] cur[r][c]
                    == head[r][c] by {}
                assert(triangular_from(cur, size as int, mi, col + 1, false));
            }
        }
    }
    // the system is now `I x = rows[.][size]`
    let mut solution: Vec<u64> = Vec::new();
    for r in 0..size
        invariant
            m > 1,
            rows.len() == size,
            forall|a: int| 0 <= a < size ==> #[trigger] rows@[a]@.len() == size + 1,
            solution.len() == r,
            forall|t: int| 0 <= t < r ==> #[trigger] solution@[t] == rows@[t]@[size as int] % m,
    {
        solution.push(rows[r][size] % m);
    }
    proof {
        let x = ints_u64(solution@);
        let fin = rows_of(rows@);
        assert forall|r: int| 0 <= r < size implies #[trigger] equation_holds(fin[r], x, size as int, mi) by {
            let f = |k: int| fin[r][k] as int * x[k];
            assert forall|k: int| 0 <= k < size && k != r implies #[trigger] f(k) == 0 by {
                assert(fin[r][k] == rows@[r]@[k]);
                assert(rows@[r]@[k] == 0);
            }
            assert(fin[r][r] == 1);
            lemma_sum_single(size as int, f, r);
            lemma_small_mod(fin[r][size as int] as nat, m as nat);
            lemma_small_mod(0, m as nat);
        }
        assert(system_holds(fin, x, size as int, mi));
        assert(x.len() == size);
        // the matrix is invertible: its kernel is that of the identity
        assert forall|a: int, c: int| 0 <= a < size && 0 <= c < size implies #[trigger] fin[a][c] == (if a == c {
            1u64
        } else {
            0u64
        }) by {
            assert(fin[a] == rows@[a]@);
        }
        assert forall|y: Seq<int>| y.len() == size && #[trigger] in_kernel(rows_of(matrix@), y, size as int, mi) implies !nonzero_mod(y, mi) by {
            assert(in_kernel(aug, y, size as int, mi));
            assert(in_kernel(fin, y, size as int, mi));
            lemma_identity_kernel(fin, size as int, y, mi);
        }
    }
    Ok(solution)
}

} // verus!
