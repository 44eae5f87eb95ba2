//! Arithmetic in the cyclic rings `(Z/mZ)[x] / (x^n - 1)` and the dihedral
//! inverse built on them.
use crate::algebra::{
    convolution, group_product, group_product_mod, ints_u64, lemma_product_reduce_left,
    lemma_sum_ext, lemma_sum_single, lemma_sum_swap, one_mod_spec, reduce, row, sum, term, lemma_partial_complete, lemma_partial_next_row,
    lemma_partial_skip_mod, lemma_partial_skip_row_mod, lemma_partial_step_mod, partial_product,
    lemma_sum_zero, left_invertible_mod, nonzero_mod, zero_divisor_mod, lemma_sum_congruent,
};
use crate::arith::{add_mod, inv_mod, mul_mod, spec_gcd, sub_mod};
use crate::linalg::{
    column_has_lone_unit, dot, in_kernel, is_prime_power, lemma_prime_non_unit_is_zero, lemma_prime_product_nonzero,
    lone_entry_in_row, lone_unit_in_column, row_has_lone_entry, solve_modular_linear_system, solves, unit_monomial,
};
use crate::fft::is_prime_number;
use crate::folding::{
    coeff_int, fold, lemma_cong_add, lemma_cong_scale, lemma_fold_constant, lemma_fold_empty,
    lemma_fold_exact, lemma_fold_linear, lemma_fold_product, lemma_product_shifted,
    lemma_sum_tail_zero, shifted_sum,
};
use crate::algebra::{
    affine, lemma_group_product_associative, lemma_group_product_identity,
    lemma_product_affine_left, lemma_product_congruent, lemma_product_zero_left, unit_element,
};
use crate::perm::rows_of;
use crate::prime::{is_prime, spec_is_prime};
use crate::dihedral::{dihedral_model, lemma_dihedral_inverse_residues, lemma_singular_determinant_not_invertible};
use vstd::arithmetic::mul::*;
use crate::error::NtruError;
use crate::group::{group_name, singleton_indices, GroupKind, GroupModel};
use vstd::arithmetic::div_mod::*;
use vstd::prelude::*;

verus! {

/// The cyclic group `C_n` with its elements in the order `0, 1, ..., n - 1`:
/// its group algebra is `Z[x] / (x^n - 1)`.
pub open spec fn cyclic_model(n: nat) -> GroupModel {
    GroupModel {
        kind: GroupKind::Cyclic,
        n,
        name: group_name(GroupKind::Cyclic, n),
        elements: singleton_indices(n),
    }
}

/// Multiply in `(Z/mZ)[x] / (x^n - 1)`.
pub fn cyclic_convolution_mod(lhs: &[u64], rhs: &[u64], modulus: u64) -> (r: Result<
    Vec<u64>,
    NtruError,
>)
    requires
        lhs.len() <= usize::MAX / 2,
    ensures
        r is Err <==> lhs.len() != rhs.len() || modulus == 0,
        r matches Err(e) ==> e is Shape,
        r matches Ok(out) ==> ints_u64(out@) == group_product_mod(
            cyclic_model(lhs.len() as nat),
            ints_u64(lhs@),
            ints_u64(rhs@),
            modulus as int,
        ),
{
    if lhs.len() != rhs.len() || modulus == 0 {
        return Err(NtruError::Shape);
    }
    let n = lhs.len();
    let ghost g = cyclic_model(n as nat);
    let ghost a = ints_u64(lhs@);
    let ghost b = ints_u64(rhs@);
    let ghost m = modulus as int;
    let mut out: Vec<u64> = vec![0; n];
    proof {
        lemma_small_mod(0, modulus as nat);
    }
    for i in 0..n
        invariant
            n == lhs.len(),
            n == rhs.len(),
            n <= usize::MAX / 2,
            modulus > 0,
            m == modulus,
            g == cyclic_model(n as nat),
            a == ints_u64(lhs@),
            b == ints_u64(rhs@),
            out.len() == n,
            forall|x: int| 0 <= x < n ==> #[trigger] out@[x] as int == partial_product(g, a, b, i as int, 0, x) % m,
    {
        let lhs_value = lhs[i] % modulus;
        if lhs_value == 0 {
            proof {
                assert forall|x: int| 0 <= x < n implies #[trigger] out@[x] as int == partial_product(g, a, b, i + 1, 0, x) % m by {
                    lemma_partial_skip_row_mod(g, a, b, i as int, x, m);
                }
            }
        } else {
            for j in 0..n
                invariant
                    n == lhs.len(),
                    n == rhs.len(),
                    n <= usize::MAX / 2,
                    i < n,
                    modulus > 0,
                    m == modulus,
                    lhs_value == lhs[i as int] % modulus,
                    g == cyclic_model(n as nat),
                    a == ints_u64(lhs@),
                    b == ints_u64(rhs@),
                    out.len() == n,
                    forall|x: int| 0 <= x < n ==> #[trigger] out@[x] as int == partial_product(g, a, b, i as int, j as int, x) % m,
            {
                let rhs_value = rhs[j] % modulus;
                if rhs_value == 0 {
                    proof {
                        assert forall|x: int| 0 <= x < n implies #[trigger] out@[x] as int == partial_product(g, a, b, i as int, j + 1, x) % m by {
                            lemma_partial_skip_mod(g, a, b, i as int, j as int, x, m);
                        }
                    }
                } else {
                    let index = (i + j) % n;
                    let ghost before = out@;
                    let updated = add_mod(out[index], mul_mod(lhs_value, rhs_value, modulus), modulus);
                    out.set(index, updated);
                    proof {
                        assert forall|x: int| 0 <= x < n implies #[trigger] out@[x] as int == partial_product(g, a, b, i as int, j + 1, x) % m by {
                            lemma_partial_step_mod(g, a, b, i as int, j as int, x, before[x] as int, out@[x] as int, m);
                        }
                    }
                }
            }
            proof {
                assert forall|x: int| 0 <= x < n implies #[trigger] out@[x] as int == partial_product(g, a, b, i + 1, 0, x) % m by {
                    lemma_partial_next_row(g, a, b, i as int, x);
                }
            }
        }
    }
    proof {
        assert forall|x: int| 0 <= x < n implies #[trigger] ints_u64(out@)[x] == group_product_mod(g, a, b, m)[x] by {
            lemma_partial_complete(g, a, b, x);
        }
        assert(ints_u64(out@) =~= group_product_mod(g, a, b, m));
    }
    Ok(out)
}


/// `(n - k) mod n`, the exponent of `x^-1` raised to `k`.
pub open spec fn negate_index(n: int, k: int) -> int {
    (n - k) % n
}

pub proof fn lemma_negate_index(n: int, k: int)
    requires
        0 <= k < n,
    ensures
        0 <= negate_index(n, k) < n,
        negate_index(n, negate_index(n, k)) == k,
{
    if k == 0 {
        lemma_mod_self_0(n);
    } else {
        lemma_small_mod((n - k) as nat, n as nat);
        lemma_small_mod(k as nat, n as nat);
    }
}

/// Apply `x -> x^-1` in `(Z/mZ)[x] / (x^n - 1)`.
pub fn cyclic_involution(values: &[u64], modulus: u64) -> (r: Vec<u64>)
    requires
        modulus > 0,
    ensures
        r.len() == values.len(),
        forall|k: int|
            0 <= k < values.len() ==> #[trigger] r[k] as int == values[negate_index(
                values.len() as int,
                k,
            )] as int % (modulus as int),
{
    let n = values.len();
    let mut out: Vec<u64> = vec![0; n];
    for i in 0..n
        invariant
            n == values.len(),
            modulus > 0,
            out.len() == n,
            forall|k: int|
                0 <= k < n ==> #[trigger] out@[k] as int == (if negate_index(n as int, k) < i {
                    values[negate_index(n as int, k)] as int % (modulus as int)
                } else {
                    0
                }),
    {
        let target = (n - i) % n;
        proof {
            lemma_negate_index(n as int, i as int);
        }
        let ghost before = out@;
        out.set(target, values[i] % modulus);
        proof {
            assert forall|k: int| 0 <= k < n implies #[trigger] out@[k] as int == (if negate_index(
                n as int,
                k,
            ) < i + 1 {
                values[negate_index(n as int, k)] as int % (modulus as int)
            } else {
                0
            }) by {
                lemma_negate_index(n as int, k);
                if k != target {
                    assert(negate_index(n as int, k) != i);
                }
            }
        }
    }
    out
}

proof fn lemma_cyclic_index(n: int, i: int, j: int, x: int)
    requires
        0 <= i < n,
        0 <= j < n,
        0 <= x < n,
    ensures
        (i + j) % n == x <==> i == (x + n - j) % n,
        0 <= (x + n - j) % n < n,
{
    lemma_fundamental_div_mod(i + j, n);
    lemma_mod_bound(i + j, n);
    lemma_fundamental_div_mod(x + n - j, n);
    lemma_mod_bound(x + n - j, n);
    if i + j < n {
        lemma_small_mod((i + j) as nat, n as nat);
    } else {
        lemma_mod_sub_multiples_vanish(i + j, n);
        lemma_small_mod((i + j - n) as nat, n as nat);
    }
    if x + n - j < n {
        lemma_small_mod((x + n - j) as nat, n as nat);
    } else {
        lemma_mod_sub_multiples_vanish(x + n - j, n);
        lemma_small_mod((x - j) as nat, n as nat);
    }
}

/// In `Z[x] / (x^n - 1)` the coefficient of `x^k` in `a * b` is
/// `sum_j a[k - j mod n] b[j]`: multiplication by `a` is the circulant matrix of `a`.
pub proof fn lemma_cyclic_circulant(a: Seq<int>, b: Seq<int>, x: int)
    requires
        a.len() == b.len(),
        a.len() > 0,
        0 <= x < a.len(),
    ensures
        convolution(cyclic_model(a.len()), a, b, x) == sum(
            a.len() as int,
            |j: int| a[(x + a.len() - j) % (a.len() as int)] * b[j],
        ),
{
    let n = a.len() as int;
    let g = cyclic_model(a.len());
    let f = |i: int, j: int| term(g, a, b, i, j, x);
    assert forall|i: int| 0 <= i < n implies #[trigger] row(g, a, b, i, x) == sum(
        n,
        |j: int| f(i, j),
    ) by {
        lemma_sum_ext(n, |j: int| term(g, a, b, i, j, x), |j: int| f(i, j));
    }
    lemma_sum_ext(n, |i: int| row(g, a, b, i, x), |i: int| sum(n, |j: int| f(i, j)));
    lemma_sum_swap(n, n, f);
    let inner = |j: int| sum(n, |i: int| f(i, j));
    assert forall|j: int| 0 <= j < n implies #[trigger] inner(j) == a[(x + n - j) % n] * b[j] by {
        let i0 = (x + n - j) % n;
        lemma_cyclic_index(n, 0, j, x);
        assert forall|i: int| 0 <= i < n && i != i0 implies #[trigger] f(i, j) == 0 by {
            lemma_cyclic_index(n, i, j, x);
        }
        lemma_cyclic_index(n, i0, j, x);
        lemma_sum_single(n, |i: int| f(i, j), i0);
    }
    lemma_sum_ext(n, inner, |j: int| a[(x + n - j) % n] * b[j]);
}

/// Row `x` of the circulant matrix of `a` gives coefficient `x` of `a b` modulo `m`.
proof fn lemma_circulant_row(a: Seq<int>, row_x: Seq<u64>, b: Seq<int>, x: int, m: int)
    requires
        m > 1,
        a.len() > 0,
        b.len() == a.len(),
        0 <= x < a.len(),
        forall|c: int| 0 <= c < a.len() ==> #[trigger] row_x[c] as int == a[(x + a.len() - c) % (a.len() as int)] % m,
    ensures
        dot(row_x, b, a.len() as int) % m == convolution(cyclic_model(a.len()), a, b, x) % m,
{
    let n = a.len() as int;
    lemma_cyclic_circulant(a, b, x);
    let f = |j: int| a[(x + n - j) % n] * b[j];
    let h = |j: int| row_x[j] as int * b[j];
    assert forall|j: int| 0 <= j < n implies #[trigger] f(j) % m == h(j) % m by {
        lemma_mul_mod_noop_left(a[(x + n - j) % n], b[j], m);
        lemma_mul_mod_noop_left(row_x[j] as int, b[j], m);
        lemma_mod_twice(a[(x + n - j) % n], m);
    }
    crate::algebra::lemma_sum_congruent(n, f, h, m);
}

/// In `values`, read modulo `m`, the coefficient of `x^k` is a unit and every
/// other coefficient is zero.
pub open spec fn lone_unit_coefficient(values: Seq<u64>, m: int, k: int) -> bool {
    &&& 0 <= k < values.len()
    &&& spec_gcd((values[k] as int % m) as nat, m as nat) == 1
    &&& forall|j: int| 0 <= j < values.len() && j != k ==> (#[trigger] values[j] as int) % m == 0
}

/// `values`, read modulo `m`, is `c x^k` for a unit `c`.
pub open spec fn unit_monomial_element(values: Seq<u64>, m: int) -> bool {
    exists|k: int| #[trigger] lone_unit_coefficient(values, m, k)
}

/// The circulant matrix of `c x^k`, `c` a unit, is a permutation matrix with
/// unit weights: column `c` holds its unit in row `(c + k) mod n`.
proof fn lemma_circulant_monomial(values: Seq<u64>, mat: Seq<Seq<u64>>, m: int, k: int)
    requires
        m > 1,
        values.len() > 0,
        mat.len() == values.len(),
        lone_unit_coefficient(values, m, k),
        forall|a: int, c: int|
            0 <= a < values.len() && 0 <= c < values.len() ==> #[trigger] mat[a][c] as int == values[(a
                + values.len() - c) % (values.len() as int)] as int % m,
    ensures
        unit_monomial(mat, values.len() as int, m),
{
    let n = values.len() as int;
    assert forall|a: int, c: int| 0 <= a < n && 0 <= c < n implies (#[trigger] mat[a][c] as int) % m == (values[(a + n - c) % n] as int) % m by {
        lemma_mod_twice(values[(a + n - c) % n] as int, m);
    }
    assert forall|c: int| 0 <= c < n implies #[trigger] column_has_lone_unit(mat, n, m, 0, c) by {
        let r = (k + c) % n;
        lemma_cyclic_index(n, k, c, 0);
        lemma_mod_bound(k + c, n);
        lemma_cyclic_index(n, k, c, r);
        assert(mat[r][c] as int % m == values[k] as int % m);
        assert forall|a: int| 0 <= a < n && a != r implies (#[trigger] mat[a][c] as int) % m == 0 by {
            lemma_cyclic_index(n, k, c, a);
            lemma_cyclic_index(n, (a + n - c) % n, c, a);
        }
        assert(lone_unit_in_column(mat, n, m, r, c));
    }
    assert forall|a: int| 0 <= a < n implies #[trigger] row_has_lone_entry(mat, n, m, 0, a) by {
        let c = (a + n - k) % n;
        lemma_cyclic_index(n, 0, k, a);
        lemma_cyclic_index(n, c, k, a);
        lemma_cyclic_index(n, k, c, a);
        assert((c + k) % n == (k + c) % n);
        assert(mat[a][c] as int % m == values[k] as int % m);
        lemma_gcd_zero_right_unit(values[k] as int % m, m);
        assert forall|j: int| 0 <= j < n && j != c implies (#[trigger] mat[a][j] as int) % m == 0 by {
            lemma_cyclic_index(n, j, k, a);
            lemma_cyclic_index(n, k, j, a);
            assert((j + k) % n == (k + j) % n);
            lemma_cyclic_index(n, (a + n - j) % n, j, a);
        }
        assert(lone_entry_in_row(mat, n, m, 0, a, c));
    }
}

/// A unit residue is not zero.
proof fn lemma_gcd_zero_right_unit(x: int, m: int)
    requires
        m > 1,
        0 <= x,
        spec_gcd(x as nat, m as nat) == 1,
    ensures
        x % m != 0 || x != 0,
        x != 0,
{
    if x == 0 {
        lemma_small_mod(0, m as nat);
        assert(spec_gcd(0, m as nat) == spec_gcd(m as nat, 0));
    }
}

/// `c x^k`, `c` a unit, is not a zero divisor: in `(c x^k) b` the coefficient
/// of `x^(j + k)` is `c b_j`, which vanishes only where `b_j` does.
proof fn lemma_unit_monomial_not_zero_divisor(values: Seq<u64>, m: int, k: int)
    requires
        m > 1,
        values.len() > 0,
        lone_unit_coefficient(values, m, k),
    ensures
        !zero_divisor_mod(cyclic_model(values.len()), ints_u64(values), m),
{
    let n = values.len() as int;
    let g = cyclic_model(values.len());
    let e = ints_u64(values);
    if zero_divisor_mod(g, e, m) {
        let b = choose|b: Seq<int>|
            b.len() == g.order() && nonzero_mod(b, m) && #[trigger] group_product_mod(g, e, b, m) == Seq::new(
                g.order(),
                |x: int| 0int,
            );
        let j0 = choose|j: int| 0 <= j < b.len() && #[trigger] (b[j] % m) != 0;
        let x = (j0 + k) % n;
        lemma_mod_bound(j0 + k, n);
        lemma_cyclic_circulant(e, b, x);
        let f = |j: int| e[(x + n - j) % n] * b[j];
        let h = |j: int| if j == j0 { f(j0) } else { 0 };
        lemma_cyclic_index(n, j0, k, x);
        assert((x + n - j0) % n == k) by {
            lemma_cyclic_index(n, k, j0, x);
            assert((k + j0) % n == (j0 + k) % n);
        }
        assert forall|j: int| 0 <= j < n implies #[trigger] f(j) % m == h(j) % m by {
            if j != j0 {
                lemma_cyclic_index(n, k, j, x);
                lemma_cyclic_index(n, j, k, x);
                assert((k + j) % n == (j + k) % n);
                lemma_cyclic_index(n, (x + n - j) % n, j, x);
                let i = (x + n - j) % n;
                assert(e[i] % m == 0);
                lemma_mul_mod_noop_left(e[i], b[j], m);
                lemma_mul_basics(b[j]);
                lemma_small_mod(0, m as nat);
            }
        }
        lemma_sum_congruent(n, f, h, m);
        lemma_sum_single(n, h, j0);
        assert(group_product_mod(g, e, b, m)[x] == 0);
        assert((e[k] * b[j0]) % m == 0);
        let u = e[k] % m;
        lemma_mod_bound(e[k], m);
        crate::arith::lemma_bezout(u as nat, m as nat);
        let xg = crate::arith::spec_extended_gcd(u, m).1;
        let yg = crate::arith::spec_extended_gcd(u, m).2;
        assert(u * xg + m * yg == 1);
        assert(xg * u == m * (-yg) + 1) by (nonlinear_arith)
            requires
                u * xg + m * yg == 1,
        ;
        lemma_mod_multiples_vanish(-yg, 1, m);
        lemma_small_mod(1, m as nat);
        lemma_mul_mod_noop_left(e[k], b[j0], m);
        crate::linalg::lemma_unit_scale_zero(b[j0], u, xg, m);
    }
}

fn cyclic_inverse_linear_solve(values: &[u64], modulus: u64) -> (r: Result<Vec<u64>, NtruError>)
    requires
        values.len() > 0,
        values.len() <= usize::MAX / 2,
        modulus > 1,
    ensures
        r matches Err(e) ==> e is NotInvertible,
        r matches Ok(v) ==> v.len() == values.len() && (forall|i: int|
            0 <= i < v.len() ==> #[trigger] v[i] < modulus) && group_product_mod(
            cyclic_model(values.len() as nat),
            ints_u64(values@),
            ints_u64(v@),
            modulus as int,
        ) == one_mod_spec(values.len() as nat, modulus as int),
        r is Err && (is_prime_number(modulus as nat) || is_prime_power(modulus as nat)) ==> zero_divisor_mod(
            cyclic_model(values.len() as nat),
            ints_u64(values@),
            modulus as int,
        ),
        unit_monomial_element(values@, modulus as int) ==> r is Ok,
{
    let n = values.len();
    let ghost m = modulus as int;
    let mut matrix: Vec<Vec<u64>> = Vec::new();
    for row in 0..n
        invariant
            n == values.len(),
            n <= usize::MAX / 2,
            modulus > 1,
            m == modulus,
            matrix.len() == row,
            forall|a: int| 0 <= a < row ==> #[trigger] matrix@[a]@.len() == n,
            forall|a: int, c: int|
                0 <= a < row && 0 <= c < n ==> #[trigger] matrix@[a]@[c] as int == values[(a + n
                    - c) % (n as int)] as int % m,
    {
        let mut line: Vec<u64> = Vec::new();
        for col in 0..n
            invariant
                n == values.len(),
                n <= usize::MAX / 2,
                row < n,
                modulus > 1,
                m == modulus,
                line.len() == col,
                forall|c: int|
                    0 <= c < col ==> #[trigger] line@[c] as int == values[(row + n - c) % (n as int)]
                        as int % m,
        {
            let index = (row + n - col) % n;
            line.push(values[index] % modulus);
        }
        matrix.push(line);
    }
    let mut rhs: Vec<u64> = vec![0; n];
    rhs.set(0, 1 % modulus);
    proof {
        assert(crate::linalg::square_system(rows_of(matrix@), rhs@)) by {
            assert forall|i: int| 0 <= i < rows_of(matrix@).len() implies #[trigger] rows_of(matrix@)[i].len()
                == rhs@.len() by {
                assert(matrix@[i]@.len() == n);
            }
        }
        if unit_monomial_element(values@, m) {
            let k = choose|k: int| #[trigger] lone_unit_coefficient(values@, m, k);
            assert forall|a: int, c: int| 0 <= a < n && 0 <= c < n implies #[trigger] rows_of(matrix@)[a][c] as int
                == values@[(a + n - c) % (n as int)] as int % m by {
                assert(rows_of(matrix@)[a] == matrix@[a]@);
            }
            lemma_circulant_monomial(values@, rows_of(matrix@), m, k);
        }
    }
    let solved = solve_modular_linear_system(&matrix, &rhs, modulus);
    match solved {
        Ok(v) => {
            proof {
                let a = ints_u64(values@);
                let b = ints_u64(v@);
                let g = cyclic_model(n as nat);
                assert(matrix@.len() == n);
                assert forall|x: int| 0 <= x < n implies #[trigger] group_product_mod(g, a, b, m)[x]
                    == one_mod_spec(n as nat, m)[x] by {
                    assert(((dot(rows_of(matrix@)[x], b, n as int) - rhs@[x] as int) % m) == 0);
                    assert(rows_of(matrix@)[x] == matrix@[x]@);
                    lemma_circulant_row(a, matrix@[x]@, b, x, m);
                    let cv = convolution(g, a, b, x);
                    let d = dot(rows_of(matrix@)[x], b, n as int);
                    let rv = rhs@[x] as int;
                    assert(rv == one_mod_spec(n as nat, m)[x]);
                    lemma_mod_equivalence(d, rv, m);
                    lemma_mod_equivalence(cv, rv, m);
                    lemma_small_mod(rhs@[x] as nat, modulus as nat);
                }
                assert(group_product_mod(g, a, b, m) =~= one_mod_spec(n as nat, m));
            }
            Ok(v)
        },
        Err(e) => {
            proof {
                assert(crate::linalg::square_system(rows_of(matrix@), rhs@)) by {
                    assert forall|i: int| 0 <= i < rows_of(matrix@).len() implies #[trigger] rows_of(
                        matrix@,
                    )[i].len() == rhs@.len() by {
                        assert(matrix@[i]@.len() == n);
                    }
                }
                if is_prime_number(modulus as nat) || is_prime_power(modulus as nat) {
                    let a = ints_u64(values@);
                    let g = cyclic_model(n as nat);
                    let c = choose|c: Seq<int>|
                        c.len() == n && nonzero_mod(c, m) && #[trigger] in_kernel(rows_of(matrix@), c, n as int, m);
                    let z = Seq::new(n as nat, |x: int| 0int);
                    assert forall|x: int| 0 <= x < n implies #[trigger] group_product_mod(g, a, c, m)[x] == z[x] by {
                        assert(rows_of(matrix@)[x] == matrix@[x]@);
                        lemma_circulant_row(a, matrix@[x]@, c, x, m);
                        assert(dot(rows_of(matrix@)[x], c, n as int) % m == 0);
                    }
                    assert(group_product_mod(g, a, c, m) =~= z);
                }
            }
            Err(e)
        },
    }
}

/// A polynomial (coefficients from the constant term up) without its
/// trailing zero coefficients.
pub open spec fn trimmed(s: Seq<int>) -> Seq<int>
    decreases s.len(),
{
    if s.len() == 0 {
        s
    } else if s.last() == 0 {
        trimmed(s.drop_last())
    } else {
        s
    }
}

proof fn lemma_trimmed_prefix(s: Seq<int>)
    ensures
        trimmed(s).len() <= s.len(),
        trimmed(s) == s.take(trimmed(s).len() as int),
        trimmed(s).len() == 0 || trimmed(s).last() != 0,
        forall|k: int| trimmed(s).len() <= k < s.len() ==> #[trigger] s[k] == 0,
    decreases s.len(),
{
    if s.len() > 0 && s.last() == 0 {
        lemma_trimmed_prefix(s.drop_last());
        assert(s.drop_last().take(trimmed(s).len() as int) =~= s.take(trimmed(s).len() as int));
        assert forall|k: int| trimmed(s).len() <= k < s.len() implies #[trigger] s[k] == 0 by {
            if k < s.len() - 1 {
                assert(s.drop_last()[k] == s[k]);
            }
        }
    } else {
        assert(s.take(s.len() as int) =~= s);
    }
}

/// The coefficient of `x^i` in a coefficient vector (zero beyond its end).
pub open spec fn coeff(s: Seq<u64>, i: int) -> int {
    if 0 <= i < s.len() {
        s[i] as int
    } else {
        0
    }
}

/// Reduce coefficients modulo `modulus` and drop trailing zeros.
fn trim_polynomial(values: &[u64], modulus: u64) -> (r: Vec<u64>)
    requires
        modulus > 0,
    ensures
        ints_u64(r@) == trimmed(reduce(ints_u64(values@), modulus as int)),
        forall|i: int| 0 <= i < r.len() ==> #[trigger] r[i] < modulus,
{
    let mut out: Vec<u64> = Vec::new();
    for i in 0..values.len()
        invariant
            modulus > 0,
            ints_u64(out@) == reduce(ints_u64(values@), modulus as int).take(i as int),
            forall|k: int| 0 <= k < out.len() ==> #[trigger] out[k] < modulus,
    {
        let ghost before = out@;
        out.push(values[i] % modulus);
        assert(ints_u64(out@) =~= ints_u64(before).push((values[i as int] % modulus) as int));
        assert(ints_u64(out@) =~= reduce(ints_u64(values@), modulus as int).take(i + 1));
    }
    assert(reduce(ints_u64(values@), modulus as int).take(values.len() as int) =~= reduce(
        ints_u64(values@),
        modulus as int,
    ));
    while out.len() > 0 && out[out.len() - 1] == 0
        invariant
            trimmed(ints_u64(out@)) == trimmed(reduce(ints_u64(values@), modulus as int)),
            forall|k: int| 0 <= k < out.len() ==> #[trigger] out[k] < modulus,
        decreases out.len(),
    {
        let ghost before = out@;
        out.pop();
        assert(ints_u64(out@) =~= ints_u64(before).drop_last());
    }
    assert(trimmed(ints_u64(out@)) == ints_u64(out@));
    out
}

/// The trailing coefficients of `r` are reduced modulo `m`.
pub open spec fn residues(r: Seq<u64>, m: u64) -> bool {
    forall|i: int| 0 <= i < r.len() ==> #[trigger] r[i] < m
}

/// Subtract polynomials coefficientwise modulo `modulus`.
fn polynomial_sub(lhs: &[u64], rhs: &[u64], modulus: u64) -> (r: Vec<u64>)
    requires
        modulus > 0,
        forall|i: int| 0 <= i < rhs.len() ==> #[trigger] coeff(rhs@, i) <= coeff(lhs@, i) + modulus,
    ensures
        ints_u64(r@) == trimmed(
            Seq::new(
                if lhs.len() < rhs.len() {
                    rhs.len() as nat
                } else {
                    lhs.len() as nat
                },
                |i: int| (coeff(lhs@, i) - coeff(rhs@, i)) % (modulus as int),
            ),
        ),
        residues(r@, modulus),
{
    let size = if lhs.len() < rhs.len() {
        rhs.len()
    } else {
        lhs.len()
    };
    let ghost target = Seq::new(size as nat, |i: int| (coeff(lhs@, i) - coeff(rhs@, i)) % (modulus as int));
    let mut out: Vec<u64> = Vec::new();
    for index in 0..size
        invariant
            modulus > 0,
            size == if lhs.len() < rhs.len() { rhs.len() } else { lhs.len() },
            target == Seq::new(size as nat, |i: int| (coeff(lhs@, i) - coeff(rhs@, i)) % (modulus as int)),
            forall|i: int| 0 <= i < rhs.len() ==> #[trigger] coeff(rhs@, i) <= coeff(lhs@, i) + modulus,
            ints_u64(out@) == target.take(index as int),
            residues(out@, modulus),
    {
        let lhs_value = if index < lhs.len() {
            lhs[index]
        } else {
            0
        };
        let rhs_value = if index < rhs.len() {
            rhs[index]
        } else {
            0
        };
        assert(coeff(rhs@, index as int) <= coeff(lhs@, index as int) + modulus);
        let ghost before = out@;
        let v = sub_mod(lhs_value, rhs_value, modulus);
        out.push(v);
        assert(ints_u64(out@) =~= ints_u64(before).push(v as int));
        assert(ints_u64(out@) =~= target.take(index + 1));
    }
    assert(target.take(size as int) =~= target);
    let r = trim_polynomial(&out, modulus);
    proof {
        assert(reduce(ints_u64(out@), modulus as int) =~= ints_u64(out@)) by {
            assert forall|k: int| 0 <= k < out.len() implies #[trigger] reduce(ints_u64(out@), modulus as int)[k] == ints_u64(out@)[k] by {
                lemma_small_mod(out@[k] as nat, modulus as nat);
            }
        }
    }
    r
}

/// The product of two polynomials modulo `modulus`, as a product in the
/// group algebra of a cyclic group too large to wrap around.
pub open spec fn polynomial_product(a: Seq<u64>, b: Seq<u64>, m: int) -> Seq<int> {
    if a.len() == 0 || b.len() == 0 {
        Seq::empty()
    } else {
        trimmed(
            group_product_mod(
                cyclic_model((a.len() + b.len() - 1) as nat),
                ints_u64(a),
                ints_u64(b),
                m,
            ),
        )
    }
}

/// Multiply polynomials modulo `modulus`.
fn polynomial_mul(lhs: &[u64], rhs: &[u64], modulus: u64) -> (r: Vec<u64>)
    requires
        modulus > 0,
        lhs.len() + rhs.len() <= usize::MAX,
    ensures
        ints_u64(r@) == polynomial_product(lhs@, rhs@, modulus as int),
        residues(r@, modulus),
{
    if lhs.len() == 0 || rhs.len() == 0 {
        return Vec::new();
    }
    let size = lhs.len() + rhs.len() - 1;
    let ghost g = cyclic_model(size as nat);
    let ghost a = ints_u64(lhs@);
    let ghost b = ints_u64(rhs@);
    let ghost m = modulus as int;
    let mut out: Vec<u64> = vec![0; size];
    proof {
        lemma_small_mod(0, modulus as nat);
    }
    for i in 0..lhs.len()
        invariant
            size == lhs.len() + rhs.len() - 1,
            rhs.len() > 0,
            modulus > 0,
            m == modulus,
            g == cyclic_model(size as nat),
            a == ints_u64(lhs@),
            b == ints_u64(rhs@),
            out.len() == size,
            residues(out@, modulus),
            forall|x: int| 0 <= x < size ==> #[trigger] out@[x] as int == partial_product(g, a, b, i as int, 0, x) % m,
    {
        let lhs_value = lhs[i] % modulus;
        if lhs_value == 0 {
            proof {
                assert forall|x: int| 0 <= x < size implies #[trigger] out@[x] as int == partial_product(g, a, b, i + 1, 0, x) % m by {
                    lemma_partial_skip_row_mod(g, a, b, i as int, x, m);
                }
            }
        } else {
            for j in 0..rhs.len()
                invariant
                    size == lhs.len() + rhs.len() - 1,
                    i < lhs.len(),
                    modulus > 0,
                    m == modulus,
                    lhs_value == lhs[i as int] % modulus,
                    g == cyclic_model(size as nat),
                    a == ints_u64(lhs@),
                    b == ints_u64(rhs@),
                    out.len() == size,
                    residues(out@, modulus),
                    forall|x: int| 0 <= x < size ==> #[trigger] out@[x] as int == partial_product(g, a, b, i as int, j as int, x) % m,
            {
                let rhs_value = rhs[j] % modulus;
                if rhs_value == 0 {
                    proof {
                        assert forall|x: int| 0 <= x < size implies #[trigger] out@[x] as int == partial_product(g, a, b, i as int, j + 1, x) % m by {
                            lemma_partial_skip_mod(g, a, b, i as int, j as int, x, m);
                        }
                    }
                } else {
                    let index = i + j;
                    let ghost before = out@;
                    let updated = add_mod(out[index], mul_mod(lhs_value, rhs_value, modulus), modulus);
                    out.set(index, updated);
                    proof {
                        lemma_small_mod(index as nat, size as nat);
                        assert forall|x: int| 0 <= x < size implies #[trigger] out@[x] as int == partial_product(g, a, b, i as int, j + 1, x) % m by {
                            lemma_partial_step_mod(g, a, b, i as int, j as int, x, before[x] as int, out@[x] as int, m);
                        }
                    }
                }
            }
            proof {
                assert forall|x: int| 0 <= x < size implies #[trigger] out@[x] as int == partial_product(g, a, b, i + 1, 0, x) % m by {
                    lemma_partial_next_row(g, a, b, i as int, x);
                }
            }
        }
    }
    proof {
        assert forall|x: int| 0 <= x < size implies #[trigger] ints_u64(out@)[x] == group_product_mod(g, a, b, m)[x] by {
            lemma_partial_complete(g, a, b, x);
        }
        assert(ints_u64(out@) =~= group_product_mod(g, a, b, m));
    }
    let r = trim_polynomial(&out, modulus);
    proof {
        assert(reduce(ints_u64(out@), modulus as int) =~= ints_u64(out@)) by {
            assert forall|k: int| 0 <= k < out.len() implies #[trigger] reduce(ints_u64(out@), modulus as int)[k] == ints_u64(out@)[k] by {
                lemma_small_mod(out@[k] as nat, modulus as nat);
            }
        }
    }
    r
}

/// The sum of the coefficients of `s` at the exponents congruent to `k` modulo `n`.
pub open spec fn folded_coeff(s: Seq<u64>, upto: int, n: int, k: int) -> int {
    sum(upto, |i: int| if i % n == k { s[i] as int } else { 0 })
}

/// Reduce a polynomial modulo `x^n - 1` and `modulus`.
fn polynomial_mod_xn_minus_1(values: &[u64], n: usize, modulus: u64) -> (r: Vec<u64>)
    requires
        n > 0,
        modulus > 0,
    ensures
        r.len() == n,
        forall|k: int| 0 <= k < n ==> #[trigger] r[k] as int == folded_coeff(values@, values.len() as int, n as int, k) % (modulus as int),
{
    let mut out: Vec<u64> = vec![0; n];
    proof {
        lemma_small_mod(0, modulus as nat);
    }
    for index in 0..values.len()
        invariant
            n > 0,
            modulus > 0,
            out.len() == n,
            forall|k: int| 0 <= k < n ==> #[trigger] out@[k] as int == folded_coeff(values@, index as int, n as int, k) % (modulus as int),
    {
        let slot = index % n;
        let ghost before = out@;
        let updated = add_mod(out[slot], values[index] % modulus, modulus);
        out.set(slot, updated);
        proof {
            assert forall|k: int| 0 <= k < n implies #[trigger] out@[k] as int == folded_coeff(values@, index + 1, n as int, k) % (modulus as int) by {
                if k == slot {
                    lemma_add_mod_noop(folded_coeff(values@, index as int, n as int, k), values@[index as int] as int, modulus as int);
                    lemma_mod_twice(values@[index as int] as int, modulus as int);
                    lemma_add_mod_noop(folded_coeff(values@, index as int, n as int, k), values@[index as int] as int % (modulus as int), modulus as int);
                    lemma_mod_twice(folded_coeff(values@, index as int, n as int, k), modulus as int);
                }
            }
        }
    }
    out
}

proof fn lemma_trimmed_residues_fixed(r: Seq<u64>, m: u64)
    requires
        m > 0,
        residues(r, m),
        r.len() == 0 || r.last() != 0,
    ensures
        trimmed(reduce(ints_u64(r), m as int)) == ints_u64(r),
{
    assert(reduce(ints_u64(r), m as int) =~= ints_u64(r)) by {
        assert forall|k: int| 0 <= k < r.len() implies #[trigger] reduce(ints_u64(r), m as int)[k]
            == ints_u64(r)[k] by {
            lemma_small_mod(r[k] as nat, m as nat);
        }
    }
}

proof fn lemma_trimmed_shape(r: Seq<u64>, m: u64, s: Seq<int>)
    requires
        ints_u64(r) == trimmed(s),
    ensures
        r.len() <= s.len(),
        r.len() == 0 || r.last() != 0,
{
    lemma_trimmed_prefix(s);
}

/// A polynomial without its trailing zeros has the same coefficients.
proof fn lemma_trimmed_coeff(s: Seq<int>)
    ensures
        forall|k: int| #[trigger] coeff_int(trimmed(s), k) == coeff_int(s, k),
{
    lemma_trimmed_prefix(s);
    assert forall|k: int| #[trigger] coeff_int(trimmed(s), k) == coeff_int(s, k) by {
        if 0 <= k < trimmed(s).len() {
            assert(trimmed(s)[k] == s.take(trimmed(s).len() as int)[k]);
        }
    }
}

/// `rem + q den` has the coefficients of `num` modulo `m`.
pub open spec fn division_identity(num: Seq<int>, den: Seq<int>, q: Seq<int>, rem: Seq<int>, m: int) -> bool {
    forall|k: int| #![trigger coeff_int(num, k)] 0 <= k ==> (coeff_int(rem, k) + shifted_sum(q, den, k)) % m == coeff_int(num, k) % m
}

/// A sum with one term changed changes by the difference of that term.
proof fn lemma_sum_one_changed(n: int, f: spec_fn(int) -> int, h: spec_fn(int) -> int, s0: int)
    requires
        0 <= s0 < n,
        forall|s: int| 0 <= s < n && s != s0 ==> #[trigger] f(s) == h(s),
    ensures
        sum(n, h) == sum(n, f) + (h(s0) - f(s0)),
    decreases n,
{
    if n - 1 == s0 {
        lemma_sum_ext(s0, f, h);
    } else {
        lemma_sum_one_changed(n - 1, f, h, s0);
    }
}

/// Divide polynomials modulo `modulus`, returning the quotient and the remainder.
#[verifier::spinoff_prover]
#[verifier::rlimit(40)]
fn polynomial_divmod(numerator: &[u64], denominator: &[u64], modulus: u64) -> (r: Result<
    (Vec<u64>, Vec<u64>),
    NtruError,
>)
    requires
        modulus > 1,
    ensures
        (r matches Err(NtruError::Shape)) <==> trimmed(
            reduce(ints_u64(denominator@), modulus as int),
        ).len() == 0,
        r matches Err(e) ==> e is Shape || e is NotInvertible,
        r matches Ok((q, rem)) ==> residues(q@, modulus) && residues(rem@, modulus) && (q.len()
            == 0 || q@.last() != 0) && (rem.len() == 0 || rem@.last() != 0) && rem.len() < trimmed(
            reduce(ints_u64(denominator@), modulus as int),
        ).len() && (q.len() == 0 || q.len() + trimmed(
            reduce(ints_u64(denominator@), modulus as int),
        ).len() <= numerator.len() + 1),
        r matches Ok((q, rem)) ==> division_identity(
            trimmed(reduce(ints_u64(numerator@), modulus as int)),
            trimmed(reduce(ints_u64(denominator@), modulus as int)),
            ints_u64(q@),
            ints_u64(rem@),
            modulus as int,
        ),
        (r matches Err(NtruError::NotInvertible)) ==> spec_gcd(
            trimmed(reduce(ints_u64(denominator@), modulus as int)).last() as nat,
            modulus as nat,
        ) != 1,
{
    let ghost m = modulus as int;
    let mut remainder = trim_polynomial(numerator, modulus);
    let den = trim_polynomial(denominator, modulus);
    let ghost num0 = ints_u64(remainder@);
    let ghost den0 = ints_u64(den@);
    proof {
        lemma_trimmed_shape(remainder@, modulus, reduce(ints_u64(numerator@), modulus as int));
        lemma_trimmed_shape(den@, modulus, reduce(ints_u64(denominator@), modulus as int));
    }
    if den.len() == 0 {
        return Err(NtruError::Shape);
    }
    if remainder.len() < den.len() {
        proof {
            assert forall|k: int| 0 <= k implies (coeff_int(num0, k) + shifted_sum(ints_u64(Seq::<u64>::empty()), den0, k)) % m == coeff_int(num0, k) % m by {
                assert(ints_u64(Seq::<u64>::empty()).len() == 0);
            }
        }
        return Ok((Vec::new(), remainder));
    }
    let width = remainder.len() - den.len() + 1;
    let mut quotient: Vec<u64> = vec![0; width];
    let dl = den.len();
    let lead = den[dl - 1];
    let lead_inv = match inv_mod(lead, modulus) {
        Some(v) => v,
        None => {
            return Err(NtruError::NotInvertible);
        },
    };
    proof {
        lemma_small_mod(1, modulus as nat);
        lemma_small_mod(0, modulus as nat);
        assert forall|k: int| 0 <= k implies #[trigger] shifted_sum(ints_u64(quotient@), den0, k) == 0 by {
            let f = |s: int| ints_u64(quotient@)[s] * coeff_int(den0, k - s);
            assert forall|s: int| 0 <= s < width implies #[trigger] f(s) == 0 by {
                assert(quotient@[s] == 0);
                assert(ints_u64(quotient@)[s] == 0);
            }
            lemma_sum_zero(width as int, f);
        }
        assert forall|k: int| 0 <= k implies (coeff_int(ints_u64(remainder@), k) + shifted_sum(ints_u64(quotient@), den0, k)) % m == #[trigger] coeff_int(num0, k) % m by {
            assert(shifted_sum(ints_u64(quotient@), den0, k) == 0);
        }
    }
    while remainder.len() > 0 && remainder.len() >= dl
        invariant
            modulus > 1,
            m == modulus,
            dl == den.len(),
            dl > 0,
            den0 == ints_u64(den@),
            lead == den@[dl - 1],
            lead < modulus,
            (lead * lead_inv) % (modulus as int) == 1,
            residues(den@, modulus),
            residues(remainder@, modulus),
            residues(quotient@, modulus),
            remainder.len() == 0 || remainder@.last() != 0,
            quotient.len() == width,
            remainder.len() <= width + dl - 1,
            forall|s: int| 0 <= s < width && s + dl <= remainder.len() ==> #[trigger] quotient@[s] == 0,
            forall|k: int| 0 <= k ==> (coeff_int(ints_u64(remainder@), k) + shifted_sum(ints_u64(quotient@), den0, k)) % m == #[trigger] coeff_int(num0, k) % m,
        decreases remainder.len(),
    {
        let rl = remainder.len();
        let shift = rl - dl;
        let last = remainder[rl - 1];
        let factor = mul_mod(last, lead_inv, modulus);
        let ghost quotient_before = quotient@;
        let ghost rem_before = remainder@;
        quotient.set(shift, factor);
        for idx in 0..dl
            invariant
                modulus > 1,
                m == modulus,
                dl == den.len(),
                remainder.len() == rl,
                shift + dl == rl,
                residues(remainder@, modulus),
                residues(den@, modulus),
                rem_before.len() == rl,
                residues(rem_before, modulus),
                lead == den@[dl - 1],
                (lead * lead_inv) % (modulus as int) == 1,
                factor == (last * lead_inv) % (modulus as int),
                last < modulus,
                idx < dl ==> remainder@[rl - 1] == last,
                idx == dl ==> remainder@[rl - 1] == 0,
                forall|k: int| 0 <= k < rl ==> #[trigger] remainder@[k] as int == (if shift <= k < shift + idx {
                    (rem_before[k] - factor * den@[k - shift]) % m
                } else {
                    rem_before[k] as int
                }),
        {
            let product = mul_mod(factor, den[idx], modulus);
            let updated = sub_mod(remainder[shift + idx], product, modulus);
            proof {
                let x = remainder@[shift + idx] as int;
                lemma_small_mod(x as nat, modulus as nat);
                lemma_sub_mod_noop(x, factor * den@[idx as int], m);
                lemma_mod_twice(factor * den@[idx as int], m);
            }
            if idx + 1 == dl {
                proof {
                    // the leading coefficient cancels
                    lemma_mul_mod_noop_left(last * lead_inv, lead as int, m);
                    vstd::arithmetic::mul::lemma_mul_is_associative(last as int, lead_inv as int, lead as int);
                    vstd::arithmetic::mul::lemma_mul_is_commutative(lead_inv as int, lead as int);
                    lemma_mul_mod_noop_right(last as int, lead * lead_inv, m);
                    lemma_small_mod(last as nat, modulus as nat);
                    lemma_mod_self_0(m);
                    lemma_mod_add_multiples_vanish(0, m);
                    assert(updated == 0);
                }
            }
            remainder.set(shift + idx, updated);
        }
        let ghost rem_mid = remainder@;
        remainder = trim_polynomial(&remainder, modulus);
        proof {
            let s = reduce(ints_u64(rem_mid), modulus as int);
            lemma_trimmed_prefix(s);
            lemma_small_mod(0, modulus as nat);
            if trimmed(s).len() == rem_mid.len() {
                assert(s.last() == 0);
            }
            lemma_trimmed_shape(remainder@, modulus, s);
            // the coefficients of the trimmed remainder are those of rem_mid
            lemma_trimmed_residues_fixed_any(rem_mid, modulus);
            lemma_trimmed_coeff(ints_u64(rem_mid));
            let qb = ints_u64(quotient_before);
            let qa = ints_u64(quotient@);
            assert forall|k: int| 0 <= k implies (coeff_int(ints_u64(remainder@), k) + shifted_sum(qa, den0, k)) % m == #[trigger] coeff_int(num0, k) % m by {
                let cd = coeff_int(den0, k - shift);
                let f = |s: int| qb[s] * coeff_int(den0, k - s);
                let h = |s: int| qa[s] * coeff_int(den0, k - s);
                assert forall|t: int| 0 <= t < width && t != shift implies #[trigger] f(t) == h(t) by {}
                assert(qb[shift as int] == 0);
                assert(qa[shift as int] == factor);
                assert(qa.len() == width && qb.len() == width);
                lemma_sum_one_changed(width as int, f, h, shift as int);
                assert(h(shift as int) - f(shift as int) == factor * cd);
                assert(shifted_sum(qa, den0, k) == shifted_sum(qb, den0, k) + factor * cd);
                assert(coeff_int(ints_u64(remainder@), k) == coeff_int(ints_u64(rem_mid), k));
                if 0 <= k < rl {
                    if shift <= k {
                        assert(cd == den@[k - shift] as int);
                        let before_k = rem_before[k] as int;
                        lemma_mod_add_multiples_vanish(0, m);
                        lemma_add_mod_noop((before_k - factor * cd) % m, shifted_sum(qb, den0, k) + factor * cd, m);
                        lemma_mod_twice(before_k - factor * cd, m);
                        lemma_add_mod_noop(before_k - factor * cd, shifted_sum(qb, den0, k) + factor * cd, m);
                    } else {
                        assert(cd == 0);
                    }
                } else {
                    assert(cd == 0);
                }
            }
        }
    }
    let q = trim_polynomial(&quotient, modulus);
    proof {
        lemma_trimmed_shape(q@, modulus, reduce(ints_u64(quotient@), modulus as int));
        lemma_trimmed_residues_fixed_any(quotient@, modulus);
        let qi = ints_u64(quotient@);
        lemma_trimmed_prefix(qi);
        assert forall|k: int| 0 <= k implies #[trigger] shifted_sum(ints_u64(q@), den0, k) == shifted_sum(qi, den0, k) by {
            let len = ints_u64(q@).len() as int;
            let f = |s: int| qi[s] * coeff_int(den0, k - s);
            lemma_sum_tail_zero(len, width as int, f);
            lemma_sum_ext(len, |s: int| ints_u64(q@)[s] * coeff_int(den0, k - s), f);
        }
        assert(trimmed(reduce(ints_u64(denominator@), modulus as int)) == den0);
    }
    Ok((q, remainder))
}

/// Reducing residues changes nothing, trimmed or not.
proof fn lemma_trimmed_residues_fixed_any(r: Seq<u64>, m: u64)
    requires
        m > 0,
        residues(r, m),
    ensures
        reduce(ints_u64(r), m as int) == ints_u64(r),
{
    assert(reduce(ints_u64(r), m as int) =~= ints_u64(r)) by {
        assert forall|k: int| 0 <= k < r.len() implies #[trigger] reduce(ints_u64(r), m as int)[k]
            == ints_u64(r)[k] by {
            lemma_small_mod(r[k] as nat, m as nat);
        }
    }
}

/// `Z_m[x] / (x^n - 1)` is `Z_m[C_n]`: the image of `t` times `vf` agrees
/// with the image of `r` modulo `m`.
pub open spec fn euclid_row(n: nat, vf: Seq<int>, t: Seq<u64>, r: Seq<u64>, m: int) -> bool {
    group_product_mod(cyclic_model(n), fold(ints_u64(t), n), vf, m) == reduce(fold(ints_u64(r), n), m)
}

/// In `Z_m[C_n]`, the product of the image of `a` with anything is zero when
/// `a` is the empty polynomial.
proof fn lemma_fold_empty_product(n: nat, v: Seq<int>, m: int, right: bool)
    requires
        n > 0,
        n < usize::MAX / 2,
        v.len() == n,
        m > 0,
    ensures
        right ==> group_product(cyclic_model(n), v, fold(Seq::<int>::empty(), n)) == Seq::new(n, |x: int| 0int),
        !right ==> group_product(cyclic_model(n), fold(Seq::<int>::empty(), n), v) == Seq::new(n, |x: int| 0int),
{
    lemma_fold_empty(n);
    let z = fold(Seq::<int>::empty(), n);
    assert(z =~= Seq::new(n, |i: int| 0int));
    lemma_product_zero_left(cyclic_model(n), n, v);
    lemma_cyclic_commutative(n, v, z);
}

/// One step of the extended Euclidean algorithm keeps the Bezout relation in
/// `Z_m[C_n]`: with `old_r = q r + rem`, the new row `old_t - q t` maps to `rem`.
proof fn lemma_euclid_step(
    n: nat,
    m: int,
    vf: Seq<int>,
    old_t: Seq<u64>,
    old_r: Seq<u64>,
    t: Seq<u64>,
    r: Seq<u64>,
    q: Seq<u64>,
    rem: Seq<u64>,
    product: Seq<u64>,
    next_t: Seq<u64>,
)
    requires
        0 < n < usize::MAX / 2,
        m > 1,
        vf.len() == n,
        r.len() > 0,
        euclid_row(n, vf, old_t, old_r, m),
        euclid_row(n, vf, t, r, m),
        division_identity(ints_u64(old_r), ints_u64(r), ints_u64(q), ints_u64(rem), m),
        ints_u64(product) == polynomial_product(q, t, m),
        ints_u64(next_t) == trimmed(
            Seq::new(
                if old_t.len() < product.len() {
                    product.len() as nat
                } else {
                    old_t.len() as nat
                },
                |i: int| (coeff(old_t, i) - coeff(product, i)) % m,
            ),
        ),
    ensures
        euclid_row(n, vf, next_t, rem, m),
{
    let g = cyclic_model(n);
    let ni = n as int;
    let fot = fold(ints_u64(old_t), n);
    let f_or = fold(ints_u64(old_r), n);
    let ft = fold(ints_u64(t), n);
    let fr = fold(ints_u64(r), n);
    let fq = fold(ints_u64(q), n);
    let frem = fold(ints_u64(rem), n);
    let fp = fold(ints_u64(product), n);
    let fnt = fold(ints_u64(next_t), n);
    let fqr = group_product(g, fq, fr);
    let empty = Seq::<int>::empty();
    // next_t = old_t - product, coefficientwise modulo m
    let size = if old_t.len() < product.len() { product.len() as int } else { old_t.len() as int };
    let d = Seq::new(size as nat, |i: int| (coeff(old_t, i) - coeff(product, i)) % m);
    lemma_trimmed_coeff(d);
    assert forall|i: int| 0 <= i < size implies #[trigger] coeff_int(ints_u64(next_t), i) % m == (1 * coeff_int(ints_u64(old_t), i) + (-1) * coeff_int(ints_u64(product), i)) % m by {
        assert(coeff_int(ints_u64(next_t), i) == coeff_int(d, i));
        lemma_mod_twice(coeff(old_t, i) - coeff(product, i), m);
    }
    lemma_trimmed_prefix(d);
    lemma_fold_linear(ints_u64(next_t), ints_u64(old_t), ints_u64(product), 1, -1, n, m, size);
    // the product folds to fq ft
    let fqt = group_product(g, fq, ft);
    if q.len() > 0 && t.len() > 0 {
        let big = (q.len() + t.len() - 1) as nat;
        let gpn = group_product(cyclic_model(big), ints_u64(q), ints_u64(t));
        let red = reduce(gpn, m);
        lemma_trimmed_coeff(red);
        lemma_trimmed_prefix(red);
        assert forall|i: int| 0 <= i < big implies #[trigger] coeff_int(ints_u64(product), i) % m == (1 * coeff_int(gpn, i) + 0 * coeff_int(empty, i)) % m by {
            lemma_mod_twice(gpn[i], m);
        }
        lemma_fold_linear(ints_u64(product), gpn, empty, 1, 0, n, m, big as int);
        lemma_fold_product(ints_u64(q), ints_u64(t), n, big);
    } else {
        assert(ints_u64(product).len() == 0);
        assert(ints_u64(product) =~= empty);
        lemma_fold_empty(n);
        if q.len() == 0 {
            assert(ints_u64(q) =~= empty);
            lemma_fold_empty_product(n, ft, m, false);
        } else {
            assert(ints_u64(t) =~= empty);
            lemma_fold_empty_product(n, fq, m, true);
        }
    }
    assert forall|k: int| 0 <= k < ni implies #[trigger] fp[k] % m == fqt[k] % m by {
        if q.len() > 0 && t.len() > 0 {
        } else {
            lemma_fold_empty(n);
        }
    }
    // the division: old_r = rem + q r, folded
    if q.len() > 0 {
        let big = (q.len() + r.len() - 1) as nat;
        let gpn = group_product(cyclic_model(big), ints_u64(q), ints_u64(r));
        let total = old_r.len() + rem.len() + big;
        assert forall|i: int| 0 <= i < total implies #[trigger] coeff_int(ints_u64(old_r), i) % m == (1 * coeff_int(ints_u64(rem), i) + 1 * coeff_int(gpn, i)) % m by {
            assert(coeff_int(ints_u64(old_r), i) % m == (coeff_int(ints_u64(rem), i) + shifted_sum(ints_u64(q), ints_u64(r), i)) % m);
            if i < big {
                lemma_product_shifted(ints_u64(q), ints_u64(r), big, i);
            } else {
                let terms = |s: int| ints_u64(q)[s] * coeff_int(ints_u64(r), i - s);
                lemma_sum_zero(q.len() as int, terms);
            }
        }
        lemma_fold_linear(ints_u64(old_r), ints_u64(rem), gpn, 1, 1, n, m, total as int);
        lemma_fold_product(ints_u64(q), ints_u64(r), n, big);
    } else {
        let total = old_r.len() + rem.len();
        assert(ints_u64(q).len() == 0);
        assert forall|i: int| 0 <= i < total implies #[trigger] coeff_int(ints_u64(old_r), i) % m == (1 * coeff_int(ints_u64(rem), i) + 0 * coeff_int(empty, i)) % m by {
            assert(coeff_int(ints_u64(old_r), i) % m == (coeff_int(ints_u64(rem), i) + shifted_sum(ints_u64(q), ints_u64(r), i)) % m);
        }
        lemma_fold_linear(ints_u64(old_r), ints_u64(rem), empty, 1, 0, n, m, total as int);
        assert(ints_u64(q) =~= empty);
        lemma_fold_empty_product(n, fr, m, false);
        lemma_fold_empty(n);
    }
    // fnt vf == fot vf - fp vf
    let comb = affine(-1, fp, fot);
    assert forall|k: int| 0 <= k < ni implies #[trigger] reduce(fnt, m)[k] == reduce(comb, m)[k] by {}
    assert(reduce(fnt, m) =~= reduce(comb, m));
    lemma_product_congruent(g, fnt, comb, vf, vf, m);
    // fp vf == fq (ft vf) == fq fr modulo m
    assert(reduce(fp, m) =~= reduce(fqt, m));
    lemma_product_congruent(g, fp, fqt, vf, vf, m);
    lemma_group_product_associative(g, fq, ft, vf);
    let ftv = group_product(g, ft, vf);
    assert(reduce(ftv, m) =~= reduce(fr, m)) by {
        assert forall|k: int| 0 <= k < ni implies #[trigger] reduce(ftv, m)[k] == reduce(fr, m)[k] by {
            assert(group_product_mod(g, ft, vf, m)[k] == reduce(fr, m)[k]);
            lemma_mod_twice(fr[k], m);
        }
    }
    lemma_product_congruent(g, fq, fq, ftv, fr, m);
    assert forall|x: int| 0 <= x < ni implies #[trigger] group_product_mod(g, fnt, vf, m)[x] == reduce(frem, m)[x] by {
        lemma_product_affine_left(g, fp, fot, vf, -1, x);
        let a_ot = group_product(g, fot, vf)[x];
        let a_p = group_product(g, fp, vf)[x];
        assert(a_ot % m == f_or[x] % m) by {
            assert(group_product_mod(g, fot, vf, m)[x] == reduce(f_or, m)[x]);
        }
        assert(a_p % m == fqr[x] % m) by {
            assert(group_product_mod(g, fp, vf, m)[x] == group_product_mod(g, fqt, vf, m)[x]);
            assert(group_product(g, fqt, vf) == group_product(g, fq, ftv));
            assert(group_product_mod(g, fq, ftv, m)[x] == group_product_mod(g, fq, fr, m)[x]);
        }
        assert(f_or[x] % m == (frem[x] + fqr[x]) % m) by {
            assert(f_or[x] % m == (1 * frem[x] + 1 * fold(group_product(cyclic_model((q.len() + r.len() - 1) as nat), ints_u64(q), ints_u64(r)), n)[x]) % m || q.len() == 0);
        }
        lemma_cong_scale(-1, a_p, fqr[x], m);
        lemma_cong_add(-1 * a_p, -1 * fqr[x], a_ot, frem[x] + fqr[x], m);
        lemma_mod_twice(frem[x], m);
    }
    assert(group_product_mod(g, fnt, vf, m) =~= reduce(frem, m));
}

/// The top coefficient of a polynomial product is the product of the top
/// coefficients, and there is nothing above it.
proof fn lemma_shifted_top(q: Seq<int>, d: Seq<int>)
    requires
        q.len() > 0,
        d.len() > 0,
    ensures
        shifted_sum(q, d, q.len() + d.len() - 2) == q.last() * d.last(),
        forall|k: int| k >= q.len() + d.len() - 1 ==> #[trigger] shifted_sum(q, d, k) == 0,
{
    let lq = q.len() as int;
    let top = lq + d.len() - 2;
    let f = |s: int| q[s] * coeff_int(d, top - s);
    assert forall|s: int| 0 <= s < lq && s != lq - 1 implies #[trigger] f(s) == 0 by {}
    lemma_sum_single(lq, f, lq - 1);
    assert forall|k: int| k >= q.len() + d.len() - 1 implies #[trigger] shifted_sum(q, d, k) == 0 by {
        let h = |s: int| q[s] * coeff_int(d, k - s);
        assert forall|s: int| 0 <= s < lq implies #[trigger] h(s) == 0 by {}
        lemma_sum_zero(lq, h);
    }
}

/// Dividing a polynomial by one of no larger degree, with a nonzero top
/// coefficient modulo `m`, leaves a quotient of the difference of the degrees.
proof fn lemma_quotient_length(num: Seq<int>, den: Seq<int>, q: Seq<int>, rem: Seq<int>, m: int)
    requires
        m > 1,
        division_identity(num, den, q, rem, m),
        0 < den.len() <= num.len(),
        rem.len() < den.len(),
        num.last() % m != 0,
        q.len() == 0 || q.len() + den.len() <= num.len() + 1,
    ensures
        q.len() + den.len() == num.len() + 1,
{
    let k = num.len() - 1;
    assert((coeff_int(rem, k) + shifted_sum(q, den, k)) % m == coeff_int(num, k) % m);
    lemma_small_mod(0, m as nat);
    if q.len() == 0 {
        assert(shifted_sum(q, den, k) == 0);
    } else if q.len() + den.len() - 1 <= k {
        lemma_shifted_top(q, den);
    }
}

/// Modulo a prime, the product of two polynomials with nonzero top
/// coefficients has the sum of their degrees.
proof fn lemma_product_length(a: Seq<u64>, b: Seq<u64>, m: nat)
    requires
        is_prime_number(m),
        a.len() > 0,
        b.len() > 0,
        (a.last() as int) % (m as int) != 0,
        (b.last() as int) % (m as int) != 0,
    ensures
        polynomial_product(a, b, m as int).len() == a.len() + b.len() - 1,
{
    let l = (a.len() + b.len() - 1) as nat;
    let s = group_product_mod(cyclic_model(l), ints_u64(a), ints_u64(b), m as int);
    assert(s.len() == l);
    lemma_product_shifted(ints_u64(a), ints_u64(b), l, l - 1);
    lemma_shifted_top(ints_u64(a), ints_u64(b));
    lemma_prime_product_nonzero(a.last() as int, b.last() as int, m);
    assert(s.last() != 0);
}

/// `old - product` keeps the length of `product` when that is longer and its
/// top coefficient is a nonzero residue.
proof fn lemma_difference_length(old_t: Seq<u64>, product: Seq<u64>, m: u64)
    requires
        m > 1,
        old_t.len() < product.len(),
        0 < product.last() < m,
    ensures
        trimmed(
            Seq::new(
                product.len() as nat,
                |i: int| (coeff(old_t, i) - coeff(product, i)) % (m as int),
            ),
        ).len() == product.len(),
{
    let x = product.last() as int;
    lemma_mod_add_multiples_vanish(-x, m as int);
    lemma_small_mod((m - x) as nat, m as nat);
}

/// When Euclid ends with a multiplier `t` of degree below `n` for the zero
/// remainder, `t` is a nonzero element that `vf` multiplies to zero.
proof fn lemma_euclid_stuck(n: nat, m: int, vf: Seq<int>, t: Seq<u64>)
    requires
        n > 0,
        m > 1,
        vf.len() == n,
        0 < t.len() <= n,
        (t.last() as int) % m != 0,
        euclid_row(n, vf, t, Seq::<u64>::empty(), m),
    ensures
        zero_divisor_mod(cyclic_model(n), vf, m),
{
    let g = cyclic_model(n);
    let ni = n as int;
    let b = fold(ints_u64(t), n);
    let k0 = t.len() - 1;
    let f = |i: int| if i % ni == k0 { ints_u64(t)[i] } else { 0 };
    assert forall|i: int| 0 <= i < t.len() && i != k0 implies #[trigger] f(i) == 0 by {
        lemma_small_mod(i as nat, n);
    }
    lemma_small_mod(k0 as nat, n);
    lemma_sum_single(t.len() as int, f, k0);
    assert(b[k0] == t.last() as int);
    assert(nonzero_mod(b, m));
    let z = Seq::new(n, |k: int| 0int);
    assert(ints_u64(Seq::<u64>::empty()) =~= Seq::<int>::empty());
    lemma_fold_empty(n);
    assert forall|k: int| 0 <= k < ni implies #[trigger] reduce(z, m)[k] == z[k] by {
        lemma_small_mod(0, m as nat);
    }
    assert(reduce(z, m) =~= z);
    lemma_cyclic_commutative(n, b, vf);
    assert(group_product_mod(g, vf, b, m) == z);
    assert(b.len() == g.order());
}

/// Invert `values` modulo `modulus_poly` and `modulus` by the extended
/// Euclidean algorithm on polynomials.
fn polynomial_inverse_mod(values: &[u64], modulus_poly: &[u64], modulus: u64) -> (r: Result<
    Vec<u64>,
    NtruError,
>)
    requires
        modulus > 1,
        values.len() < modulus_poly.len(),
        modulus_poly.len() <= usize::MAX / 2,
        modulus_poly.len() >= 2,
        modulus_poly@.last() == 1,
        forall|k: int| 0 <= k < modulus_poly.len() - 1 ==> #[trigger] fold(ints_u64(modulus_poly@), (modulus_poly.len() - 1) as nat)[k] % (modulus as int) == 0,
    ensures
        r matches Err(e) ==> e is NotInvertible,
        r matches Ok(t) ==> residues(t@, modulus) && t.len() <= modulus_poly.len(),
        r matches Ok(t) ==> group_product_mod(
            cyclic_model((modulus_poly.len() - 1) as nat),
            fold(ints_u64(t@), (modulus_poly.len() - 1) as nat),
            fold(ints_u64(values@), (modulus_poly.len() - 1) as nat),
            modulus as int,
        ) == one_mod_spec((modulus_poly.len() - 1) as nat, modulus as int),
        r is Err && is_prime_number(modulus as nat) ==> zero_divisor_mod(
            cyclic_model((modulus_poly.len() - 1) as nat),
            fold(ints_u64(values@), (modulus_poly.len() - 1) as nat),
            modulus as int,
        ),
{
    let ghost n = (modulus_poly.len() - 1) as nat;
    let ghost m = modulus as int;
    let ghost vf = fold(ints_u64(values@), n);
    let mut old_r = trim_polynomial(modulus_poly, modulus);
    let mut r = trim_polynomial(values, modulus);
    let mut old_t: Vec<u64> = Vec::new();
    let mut t: Vec<u64> = Vec::new();
    t.push(1);
    let bound = modulus_poly.len() + 1;
    proof {
        lemma_trimmed_shape(old_r@, modulus, reduce(ints_u64(modulus_poly@), modulus as int));
        lemma_trimmed_shape(r@, modulus, reduce(ints_u64(values@), modulus as int));
        let p = reduce(ints_u64(modulus_poly@), modulus as int);
        lemma_small_mod(1, modulus as nat);
        assert(p.last() == 1);
        assert(trimmed(p) == p);
        assert(old_r.len() == n + 1);
        lemma_euclid_start(n, m, values@, modulus_poly@, old_r@, r@, old_t@, t@);
    }
    while r.len() > 0
        invariant
            modulus > 1,
            m == modulus,
            n == modulus_poly.len() - 1,
            0 < n < usize::MAX / 2,
            vf == fold(ints_u64(values@), n),
            vf.len() == n,
            euclid_row(n, vf, old_t@, old_r@, m),
            euclid_row(n, vf, t@, r@, m),
            bound == modulus_poly.len() + 1,
            bound <= usize::MAX / 2 + 1,
            residues(old_r@, modulus),
            residues(r@, modulus),
            residues(old_t@, modulus),
            residues(t@, modulus),
            r.len() == 0 || r@.last() != 0,
            old_r.len() == 0 || old_r@.last() != 0,
            r.len() <= old_r.len(),
            t.len() + old_r.len() <= bound,
            old_t.len() + r.len() <= bound,
            old_t.len() + old_r.len() <= bound,
            is_prime_number(m as nat) ==> t.len() + old_r.len() == n + 2 && old_t.len() < t.len()
                && t@.last() != 0 && r.len() < old_r.len(),
        decreases r.len(),
    {
        proof {
            lemma_trimmed_residues_fixed(r@, modulus);
        }
        let (quotient, remainder) = match polynomial_divmod(&old_r, &r, modulus) {
            Ok(pair) => pair,
            Err(e) => {
                proof {
                    if is_prime_number(m as nat) {
                        lemma_trimmed_residues_fixed(r@, modulus);
                        lemma_prime_non_unit_is_zero(r@.last() as nat, modulus as nat);
                    }
                }
                return Err(e);
            },
        };
        let product = polynomial_mul(&quotient, &t, modulus);
        proof {
            let ghost p = polynomial_product(quotient@, t@, modulus as int);
            if quotient.len() > 0 && t.len() > 0 {
                lemma_trimmed_shape(
                    product@,
                    modulus,
                    group_product_mod(
                        cyclic_model((quotient.len() + t.len() - 1) as nat),
                        ints_u64(quotient@),
                        ints_u64(t@),
                        modulus as int,
                    ),
                );
            }
            assert forall|i: int| 0 <= i < product.len() implies #[trigger] coeff(product@, i) <= coeff(
                old_t@,
                i,
            ) + modulus by {}
            if quotient.len() == 0 || t.len() == 0 {
                assert(ints_u64(product@).len() == 0);
            }
            assert(trimmed(reduce(ints_u64(r@), modulus as int)).len() == r.len());
            assert(product.len() + r.len() <= t.len() + old_r.len());
        }
        let next_t = polynomial_sub(&old_t, &product, modulus);
        proof {
            lemma_trimmed_residues_fixed(old_r@, modulus);
            if is_prime_number(m as nat) {
                lemma_trimmed_residues_fixed(r@, modulus);
                lemma_small_mod(old_r@.last() as nat, modulus as nat);
                lemma_quotient_length(ints_u64(old_r@), ints_u64(r@), ints_u64(quotient@), ints_u64(remainder@), m);
                lemma_small_mod(quotient@.last() as nat, modulus as nat);
                lemma_small_mod(t@.last() as nat, modulus as nat);
                lemma_product_length(quotient@, t@, modulus as nat);
                assert(product.len() == quotient.len() + t.len() - 1);
                lemma_difference_length(old_t@, product@, modulus);
                assert(next_t.len() == product.len());
            }
            lemma_euclid_step(n, m, vf, old_t@, old_r@, t@, r@, quotient@, remainder@, product@, next_t@);
            let size = if old_t.len() < product.len() {
                product.len()
            } else {
                old_t.len()
            };
            lemma_trimmed_shape(
                next_t@,
                modulus,
                Seq::new(size as nat, |i: int| (coeff(old_t@, i) - coeff(product@, i)) % (modulus as int)),
            );
            assert(next_t.len() <= size);
            assert(next_t.len() + r.len() <= bound);
        }
        old_r = r;
        r = remainder;
        old_t = t;
        t = next_t;
    }
    if old_r.len() != 1 || old_r[0] == 0 {
        proof {
            if is_prime_number(m as nat) {
                assert(r@ =~= Seq::<u64>::empty());
                lemma_small_mod(t@.last() as nat, modulus as nat);
                lemma_euclid_stuck(n, m, vf, t@);
            }
        }
        return Err(NtruError::NotInvertible);
    }
    let scale = match inv_mod(old_r[0], modulus) {
        Some(v) => v,
        None => {
            proof {
                if is_prime_number(m as nat) {
                    lemma_prime_non_unit_is_zero(old_r@[0] as nat, modulus as nat);
                }
            }
            return Err(NtruError::NotInvertible);
        },
    };
    let mut out: Vec<u64> = Vec::new();
    for i in 0..old_t.len()
        invariant
            modulus > 1,
            out.len() == i,
            residues(out@, modulus),
            forall|k: int| 0 <= k < i ==> #[trigger] out@[k] as int == (scale * old_t@[k]) % (modulus as int),
    {
        out.push(mul_mod(scale, old_t[i], modulus));
    }
    proof {
        lemma_euclid_finish(n, m, vf, old_t@, old_r@, out@, scale as int);
    }
    Ok(out)
}

/// The Bezout relation holds for the first two rows of the extended
/// Euclidean algorithm on `x^n - 1` and `values`.
proof fn lemma_euclid_start(
    n: nat,
    m: int,
    values: Seq<u64>,
    modulus_poly: Seq<u64>,
    old_r: Seq<u64>,
    r: Seq<u64>,
    old_t: Seq<u64>,
    t: Seq<u64>,
)
    requires
        0 < n < usize::MAX / 2,
        m > 1,
        n == modulus_poly.len() - 1,
        forall|k: int| 0 <= k < n ==> #[trigger] fold(ints_u64(modulus_poly), n)[k] % m == 0,
        ints_u64(old_r) == trimmed(reduce(ints_u64(modulus_poly), m)),
        ints_u64(r) == trimmed(reduce(ints_u64(values), m)),
        old_t.len() == 0,
        t == seq![1u64],
    ensures
        euclid_row(n, fold(ints_u64(values), n), old_t, old_r, m),
        euclid_row(n, fold(ints_u64(values), n), t, r, m),
{
    let g = cyclic_model(n);
    let ni = n as int;
    let vf = fold(ints_u64(values), n);
    let empty = Seq::<int>::empty();
    // the first row: 0 * values == x^n - 1 == 0
    let pr = reduce(ints_u64(modulus_poly), m);
    lemma_trimmed_coeff(pr);
    lemma_trimmed_prefix(pr);
    assert forall|i: int| 0 <= i < modulus_poly.len() implies #[trigger] coeff_int(ints_u64(old_r), i) % m == (1 * coeff_int(ints_u64(modulus_poly), i) + 0 * coeff_int(empty, i)) % m by {
        lemma_mod_twice(ints_u64(modulus_poly)[i], m);
    }
    lemma_fold_linear(ints_u64(old_r), ints_u64(modulus_poly), empty, 1, 0, n, m, modulus_poly.len() as int);
    assert(ints_u64(old_t) =~= empty);
    lemma_fold_empty_product(n, vf, m, false);
    lemma_small_mod(0, m as nat);
    assert(group_product_mod(g, fold(ints_u64(old_t), n), vf, m) =~= reduce(fold(ints_u64(old_r), n), m));
    // the second row: 1 * values == values
    let vr = reduce(ints_u64(values), m);
    lemma_trimmed_coeff(vr);
    lemma_trimmed_prefix(vr);
    assert forall|i: int| 0 <= i < values.len() implies #[trigger] coeff_int(ints_u64(r), i) % m == (1 * coeff_int(ints_u64(values), i) + 0 * coeff_int(empty, i)) % m by {
        lemma_mod_twice(ints_u64(values)[i], m);
    }
    lemma_fold_linear(ints_u64(r), ints_u64(values), empty, 1, 0, n, m, values.len() as int);
    assert(ints_u64(t) =~= seq![1int]);
    lemma_fold_constant(1, n);
    assert(fold(ints_u64(t), n) =~= unit_element(n));
    lemma_group_product_identity(g, vf);
    assert(group_product_mod(g, fold(ints_u64(t), n), vf, m) =~= reduce(fold(ints_u64(r), n), m));
}

/// When the remainders reach a nonzero constant `c`, scaling the last row by
/// `c^-1` gives an inverse in `Z_m[C_n]`.
proof fn lemma_euclid_finish(n: nat, m: int, vf: Seq<int>, old_t: Seq<u64>, old_r: Seq<u64>, out: Seq<u64>, scale: int)
    requires
        0 < n < usize::MAX / 2,
        m > 1,
        vf.len() == n,
        euclid_row(n, vf, old_t, old_r, m),
        old_r.len() == 1,
        (old_r[0] * scale) % m == 1,
        out.len() == old_t.len(),
        forall|k: int| 0 <= k < out.len() ==> #[trigger] out[k] as int == (scale * old_t[k]) % m,
    ensures
        group_product_mod(cyclic_model(n), fold(ints_u64(out), n), vf, m) == one_mod_spec(n, m),
{
    let g = cyclic_model(n);
    let ni = n as int;
    let empty = Seq::<int>::empty();
    let fot = fold(ints_u64(old_t), n);
    let fo = fold(ints_u64(out), n);
    assert forall|i: int| 0 <= i < old_t.len() implies #[trigger] coeff_int(ints_u64(out), i) % m == (scale * coeff_int(ints_u64(old_t), i) + 0 * coeff_int(empty, i)) % m by {
        lemma_mod_twice(scale * old_t[i], m);
    }
    lemma_fold_linear(ints_u64(out), ints_u64(old_t), empty, scale, 0, n, m, old_t.len() as int);
    let zero = Seq::new(n, |i: int| 0int);
    let comb = affine(scale, fot, zero);
    assert forall|k: int| 0 <= k < ni implies #[trigger] reduce(fo, m)[k] == reduce(comb, m)[k] by {
        lemma_fold_empty(n);
    }
    assert(reduce(fo, m) =~= reduce(comb, m));
    lemma_product_congruent(g, fo, comb, vf, vf, m);
    lemma_product_zero_left(g, n, vf);
    let c = old_r[0] as int;
    assert(ints_u64(old_r) =~= seq![c]);
    lemma_fold_constant(c, n);
    assert forall|x: int| 0 <= x < ni implies #[trigger] group_product_mod(g, fo, vf, m)[x] == one_mod_spec(n, m)[x] by {
        lemma_product_affine_left(g, fot, zero, vf, scale, x);
        let a = group_product(g, fot, vf)[x];
        assert(a % m == fold(ints_u64(old_r), n)[x] % m) by {
            assert(group_product_mod(g, fot, vf, m)[x] == reduce(fold(ints_u64(old_r), n), m)[x]);
            lemma_mod_twice(fold(ints_u64(old_r), n)[x], m);
        }
        lemma_cong_scale(scale, a, fold(ints_u64(old_r), n)[x], m);
        lemma_small_mod(1, m as nat);
        lemma_small_mod(0, m as nat);
        assert(group_product(g, zero, vf)[x] == 0);
        assert(group_product(g, comb, vf)[x] == scale * a + 0);
        assert(group_product_mod(g, fo, vf, m)[x] == group_product_mod(g, comb, vf, m)[x]);
        assert(group_product_mod(g, comb, vf, m)[x] == (scale * a) % m);
        assert(fold(ints_u64(old_r), n)[x] == (if x == 0 { c } else { 0 }));
        if x == 0 {
            vstd::arithmetic::mul::lemma_mul_is_commutative(scale, c);
            assert((scale * c) % m == 1);
        } else {
            assert((scale * 0) % m == 0);
        }
    }
    assert(group_product_mod(g, fo, vf, m) =~= one_mod_spec(n, m));
}

/// The polynomial `x^n - 1` (with `-1` written `m - 1`) folds to zero modulo `m`.
proof fn lemma_cyclic_modulus_folds_to_zero(p: Seq<u64>, n: nat, m: int)
    requires
        n > 0,
        m > 1,
        p.len() == n + 1,
        p[0] == m - 1,
        p[n as int] == 1,
        forall|i: int| 0 < i < n ==> #[trigger] p[i] == 0,
    ensures
        forall|k: int| 0 <= k < n ==> #[trigger] fold(ints_u64(p), n)[k] % m == 0,
{
    let ni = n as int;
    let pi = ints_u64(p);
    assert forall|k: int| 0 <= k < n implies #[trigger] fold(pi, n)[k] % m == 0 by {
        let f = |i: int| if i % ni == k { pi[i] } else { 0 };
        assert(sum(ni + 1, f) == sum(ni, f) + f(ni));
        lemma_mod_self_0(ni);
        lemma_small_mod(0, n);
        assert forall|i: int| 0 <= i < ni && i != 0 implies #[trigger] f(i) == 0 by {
            assert(pi[i] == p[i] as int);
        }
        lemma_sum_single(ni, f, 0);
        if k == 0 {
            assert(f(0) == m - 1);
            assert(f(ni) == 1);
            lemma_mod_self_0(m);
        } else {
            assert(f(0) == 0);
            assert(f(ni) == 0);
            lemma_small_mod(0, m as nat);
        }
    }
}

fn cyclic_inverse_prime_field(values: &[u64], modulus: u64) -> (r: Result<Vec<u64>, NtruError>)
    requires
        values.len() > 0,
        values.len() < usize::MAX / 2,
        modulus > 1,
    ensures
        r matches Err(e) ==> e is NotInvertible,
        r matches Ok(v) ==> v.len() == values.len() && residues(v@, modulus),
        r matches Ok(v) ==> group_product_mod(
            cyclic_model(values.len() as nat),
            ints_u64(values@),
            ints_u64(v@),
            modulus as int,
        ) == one_mod_spec(values.len() as nat, modulus as int),
        r is Err && is_prime_number(modulus as nat) ==> zero_divisor_mod(
            cyclic_model(values.len() as nat),
            ints_u64(values@),
            modulus as int,
        ),
{
    let n = values.len();
    let mut modulus_poly: Vec<u64> = vec![0; n + 1];
    modulus_poly.set(0, (modulus - 1) % modulus);
    modulus_poly.set(n, 1);
    proof {
        lemma_small_mod((modulus - 1) as nat, modulus as nat);
        lemma_cyclic_modulus_folds_to_zero(modulus_poly@, n as nat, modulus as int);
    }
    let inverse = match polynomial_inverse_mod(values, &modulus_poly, modulus) {
        Ok(v) => v,
        Err(e) => {
            proof {
                lemma_fold_exact(ints_u64(values@), n as nat);
            }
            return Err(e);
        },
    };
    let out = polynomial_mod_xn_minus_1(&inverse, n, modulus);
    proof {
        assert forall|k: int| 0 <= k < n implies #[trigger] out[k] < modulus by {
            lemma_mod_bound(folded_coeff(inverse@, inverse.len() as int, n as int, k), modulus as int);
        }
        let g = cyclic_model(n as nat);
        let m = modulus as int;
        let vi = ints_u64(values@);
        let fi = fold(ints_u64(inverse@), n as nat);
        lemma_fold_exact(vi, n as nat);
        assert forall|k: int| 0 <= k < n implies #[trigger] ints_u64(out@)[k] == reduce(fi, m)[k] by {
            lemma_sum_ext(
                inverse.len() as int,
                |i: int| if i % (n as int) == k { inverse@[i] as int } else { 0 },
                |i: int| if i % (n as int) == k { ints_u64(inverse@)[i] } else { 0 },
            );
        }
        assert(ints_u64(out@) =~= reduce(fi, m));
        assert forall|k: int| 0 <= k < n implies #[trigger] reduce(ints_u64(out@), m)[k] == reduce(fi, m)[k] by {
            lemma_mod_twice(fi[k], m);
        }
        assert(reduce(ints_u64(out@), m) =~= reduce(fi, m));
        lemma_product_congruent(g, ints_u64(out@), fi, vi, vi, m);
        lemma_cyclic_commutative(n as nat, vi, ints_u64(out@));
    }
    Ok(out)
}

/// Invert an element of `(Z/mZ)[x] / (x^n - 1)`. Modulo a prime, or a prime
/// power that the primality test rejects, an element it reports as not
/// invertible is a zero divisor. For every other modulus above one as well, a
/// unit multiple `c x^k` of a power of `x` is always inverted.
pub fn cyclic_inverse_mod(values: &[u64], modulus: u64) -> (r: Result<Vec<u64>, NtruError>)
    requires
        values.len() < usize::MAX / 2,
    ensures
        (r matches Err(NtruError::Shape)) <==> values.len() == 0 || modulus <= 1,
        r matches Err(e) ==> e is Shape || e is NotInvertible,
        r matches Ok(v) ==> v.len() == values.len() && residues(v@, modulus),
        r matches Ok(v) ==> group_product_mod(
            cyclic_model(values.len() as nat),
            ints_u64(values@),
            ints_u64(v@),
            modulus as int,
        ) == one_mod_spec(values.len() as nat, modulus as int),
        (r matches Err(NtruError::NotInvertible)) && (is_prime_number(modulus as nat) || is_prime_power(
            modulus as nat,
        ) && !spec_is_prime(modulus)) ==> zero_divisor_mod(
            cyclic_model(values.len() as nat),
            ints_u64(values@),
            modulus as int,
        ),
        (r matches Err(NtruError::NotInvertible)) && (is_prime_number(modulus as nat) || is_prime_power(
            modulus as nat,
        ) && !spec_is_prime(modulus)) ==> !left_invertible_mod(
            cyclic_model(values.len() as nat),
            ints_u64(values@),
            modulus as int,
        ),
        values.len() > 0 && modulus > 1 && unit_monomial_element(values@, modulus as int) && (!spec_is_prime(
            modulus,
        ) || is_prime_number(modulus as nat)) ==> r is Ok,
{
    if values.len() == 0 || modulus <= 1 {
        return Err(NtruError::Shape);
    }
    let mut normalized: Vec<u64> = Vec::new();
    for i in 0..values.len()
        invariant
            modulus > 1,
            normalized.len() == i,
            forall|k: int| 0 <= k < i ==> #[trigger] normalized@[k] as int == values@[k] as int % (modulus as int),
    {
        normalized.push(values[i] % modulus);
    }
    proof {
        if unit_monomial_element(values@, modulus as int) {
            let m = modulus as int;
            let k = choose|k: int| #[trigger] lone_unit_coefficient(values@, m, k);
            assert forall|j: int| 0 <= j < values.len() implies (#[trigger] normalized@[j] as int) % m == (values@[j]
                as int) % m by {
                lemma_mod_twice(values@[j] as int, m);
            }
            assert(lone_unit_coefficient(normalized@, m, k));
            if is_prime_number(modulus as nat) {
                lemma_unit_monomial_not_zero_divisor(normalized@, m, k);
            }
        }
    }
    let solved = if is_prime(modulus) {
        cyclic_inverse_prime_field(&normalized, modulus)
    } else {
        cyclic_inverse_linear_solve(&normalized, modulus)
    };
    proof {
        if solved is Ok {
            let v = solved->Ok_0;
            let g = cyclic_model(values.len() as nat);
            let m = modulus as int;
            assert(ints_u64(normalized@) =~= reduce(ints_u64(values@), m));
            assert forall|x: int| 0 <= x < values.len() implies #[trigger] group_product_mod(g, ints_u64(values@), ints_u64(v@), m)[x] == one_mod_spec(values.len() as nat, m)[x] by {
                lemma_product_reduce_left(g, ints_u64(values@), ints_u64(v@), x, m);
                assert(group_product_mod(g, ints_u64(normalized@), ints_u64(v@), m)[x] == one_mod_spec(values.len() as nat, m)[x]);
            }
            assert(group_product_mod(g, ints_u64(values@), ints_u64(v@), m) =~= one_mod_spec(values.len() as nat, m));
        }
        if solved is Err && (is_prime_number(modulus as nat) || is_prime_power(modulus as nat) && !spec_is_prime(modulus)) {
            let g = cyclic_model(values.len() as nat);
            let m = modulus as int;
            let e = ints_u64(values@);
            let en = ints_u64(normalized@);
            assert(en =~= reduce(e, m));
            let z = Seq::new(values.len() as nat, |x: int| 0int);
            let b = choose|b: Seq<int>| b.len() == g.order() && nonzero_mod(b, m) && #[trigger] group_product_mod(g, en, b, m) == z;
            assert forall|k: int| 0 <= k < values.len() implies #[trigger] reduce(en, m)[k] == reduce(e, m)[k] by {
                lemma_mod_twice(e[k], m);
            }
            assert(reduce(en, m) =~= reduce(e, m));
            lemma_product_congruent(g, e, en, b, b, m);
            assert(group_product_mod(g, e, b, m) == z);
            crate::algebra::lemma_zero_divisor_not_left_invertible(g, e, m);
        }
    }
    solved
}

/// The rotation coefficients `element[k] mod m`, `k < n`, of a dihedral element.
pub open spec fn rotation_part(element: Seq<u64>, n: int, m: int) -> Seq<int> {
    Seq::new(n as nat, |k: int| element[k] as int % m)
}

/// The reflection coefficients `element[n + k] mod m`, `k < n`, of a dihedral element.
pub open spec fn reflection_part(element: Seq<u64>, n: int, m: int) -> Seq<int> {
    Seq::new(n as nat, |k: int| element[n + k] as int % m)
}

/// The image of a cyclic element under `x -> x^-1`.
pub open spec fn involuted(s: Seq<int>) -> Seq<int> {
    Seq::new(s.len(), |k: int| s[negate_index(s.len() as int, k)])
}

/// `a - b` coefficientwise modulo `m`.
pub open spec fn difference_mod(a: Seq<int>, b: Seq<int>, m: int) -> Seq<int> {
    Seq::new(a.len(), |k: int| (a[k] - b[k]) % m)
}

/// `-a` coefficientwise modulo `m`, for residues `a`.
pub open spec fn negated_mod(a: Seq<int>, m: int) -> Seq<int> {
    Seq::new(a.len(), |k: int| if a[k] == 0 { 0 } else { m - a[k] })
}

/// The "determinant" `r r̄ - s̄ s` in the cyclic subring of an element `r + s·σ`
/// of the dihedral algebra with rotation part `r` and reflection part `s`.
pub open spec fn dihedral_determinant(element: Seq<u64>, n: int, m: int) -> Seq<int> {
    let rot = rotation_part(element, n, m);
    let refl = reflection_part(element, n, m);
    difference_mod(
        group_product_mod(cyclic_model(n as nat), rot, involuted(rot), m),
        group_product_mod(cyclic_model(n as nat), involuted(refl), refl, m),
        m,
    )
}

/// A residue with an inverse modulo `m` is coprime to `m`.
proof fn lemma_inverse_gives_unit(u: nat, m: nat, x: int)
    requires
        m > 1,
        (u * x) % (m as int) == 1,
    ensures
        spec_gcd(u, m) == 1,
{
    let g = spec_gcd(u, m);
    crate::arith::lemma_gcd_divides(u, m);
    let mi = m as int;
    let q = (u * x) / mi;
    lemma_fundamental_div_mod(u * x, mi);
    let ug = (u / g) as int;
    let mg = (m / g) as int;
    lemma_fundamental_div_mod(u as int, g as int);
    lemma_fundamental_div_mod(m as int, g as int);
    assert(g * (ug * x - mg * q) == 1) by (nonlinear_arith)
        requires
            u as int == g * ug,
            mi == g * mg,
            u * x == mi * q + 1,
    ;
    assert(g == 1) by (nonlinear_arith)
        requires
            g * (ug * x - mg * q) == 1,
            g >= 1,
    ;
}

/// A unit residue has an inverse modulo `m`.
proof fn lemma_unit_gives_inverse(u: nat, m: nat) -> (x: int)
    requires
        m > 1,
        spec_gcd(u, m) == 1,
    ensures
        (u * x) % (m as int) == 1,
{
    crate::arith::lemma_bezout(u, m);
    let x = crate::arith::spec_extended_gcd(u as int, m as int).1;
    let y = crate::arith::spec_extended_gcd(u as int, m as int).2;
    assert(u * x == (m as int) * (-y) + 1) by (nonlinear_arith)
        requires
            u * x + m * y == 1,
    ;
    lemma_mod_multiples_vanish(-y, 1, m as int);
    lemma_small_mod(1, m);
    x
}

/// The cyclic product of two sequences supported on single indices `ia`
/// and `ib` is supported on `(ia + ib) mod n`.
proof fn lemma_single_product(a: Seq<int>, b: Seq<int>, ia: int, ib: int, x: int)
    requires
        a.len() > 0,
        b.len() == a.len(),
        0 <= ia < a.len(),
        0 <= ib < a.len(),
        0 <= x < a.len(),
        forall|j: int| 0 <= j < a.len() && j != ia ==> #[trigger] a[j] == 0,
        forall|j: int| 0 <= j < a.len() && j != ib ==> #[trigger] b[j] == 0,
    ensures
        convolution(cyclic_model(a.len()), a, b, x) == if (ia + ib) % (a.len() as int) == x {
            a[ia] * b[ib]
        } else {
            0
        },
{
    let n = a.len() as int;
    lemma_cyclic_circulant(a, b, x);
    let f = |j: int| a[(x + n - j) % n] * b[j];
    assert forall|j: int| 0 <= j < n && j != ib implies #[trigger] f(j) == 0 by {
        lemma_mul_basics(a[(x + n - j) % n]);
    }
    lemma_sum_single(n, f, ib);
    lemma_cyclic_index(n, ia, ib, x);
    if (ia + ib) % n != x {
        lemma_mul_basics(b[ib]);
    }
}

/// `k + (-k) == 0` for indices modulo `n`.
proof fn lemma_negate_sum(n: int, k: int)
    requires
        0 <= k < n,
    ensures
        (k + negate_index(n, k)) % n == 0,
{
    lemma_negate_index(n, k);
    lemma_negate_index(n, negate_index(n, k));
    lemma_cyclic_index(n, k, negate_index(n, k), 0);
}

/// The determinant of `c g` for a group element `g` of `D_2n` and a unit `c`
/// is the unit constant `c^2` or `-c^2`.
proof fn lemma_unit_basis_determinant(element: Seq<u64>, n: nat, m: int, j0: int)
    requires
        n >= 1,
        m > 1,
        element.len() == 2 * n,
        lone_unit_coefficient(element, m, j0),
    ensures
        dihedral_determinant(element, n as int, m).len() == n,
        forall|x: int| 1 <= x < n ==> #[trigger] dihedral_determinant(element, n as int, m)[x] == 0,
        0 <= dihedral_determinant(element, n as int, m)[0] < m,
        spec_gcd(dihedral_determinant(element, n as int, m)[0] as nat, m as nat) == 1,
{
    let ni = n as int;
    let g = cyclic_model(n);
    let rot = rotation_part(element, ni, m);
    let refl = reflection_part(element, ni, m);
    let irot = involuted(rot);
    let irefl = involuted(refl);
    let det = dihedral_determinant(element, ni, m);
    let c = element[j0] as int % m;
    lemma_mod_bound(element[j0] as int, m);
    let w = lemma_unit_gives_inverse(c as nat, m as nat);
    // the single index of each part, and its coefficient
    let (ir, ifl) = if j0 < ni { (j0, 0int) } else { (0int, j0 - ni) };
    assert forall|j: int| 0 <= j < ni && !(j0 < ni && j == ir) implies #[trigger] rot[j] == 0 by {
        assert(element[j] as int % m == 0);
    }
    assert forall|j: int| 0 <= j < ni && !(j0 >= ni && j == ifl) implies #[trigger] refl[j] == 0 by {
        assert(element[ni + j] as int % m == 0);
    }
    lemma_negate_index(ni, ir);
    lemma_negate_index(ni, ifl);
    let jr = negate_index(ni, ir);
    let jf = negate_index(ni, ifl);
    assert forall|j: int| 0 <= j < ni && !(j0 < ni && j == jr) implies #[trigger] irot[j] == 0 by {
        lemma_negate_index(ni, j);
        if j0 < ni && negate_index(ni, j) == ir {
            assert(j == jr);
        }
    }
    assert forall|j: int| 0 <= j < ni && !(j0 >= ni && j == jf) implies #[trigger] irefl[j] == 0 by {
        lemma_negate_index(ni, j);
        if j0 >= ni && negate_index(ni, j) == ifl {
            assert(j == jf);
        }
    }
    lemma_negate_sum(ni, ir);
    lemma_negate_sum(ni, ifl);
    assert((ifl + jf) % ni == (jf + ifl) % ni);
    assert forall|x: int| 0 <= x < ni implies #[trigger] det[x] == (if x == 0 {
        if j0 < ni { (c * c) % m } else { (0 - (c * c) % m) % m }
    } else {
        0
    }) by {
        lemma_single_product(rot, irot, ir, jr, x);
        lemma_single_product(irefl, refl, jf, ifl, x);
        lemma_mul_basics(rot[ir]);
        lemma_mul_basics(irot[jr]);
        lemma_mul_basics(irefl[jf]);
        lemma_mul_basics(refl[ifl]);
        lemma_small_mod(0, m as nat);
        lemma_mod_bound(c * c, m);
        if j0 < ni {
            assert(irot[jr] == rot[ir]);
        } else {
            assert(irefl[jf] == refl[ifl]);
        }
        lemma_mod_twice(c * c, m);
        lemma_small_mod(((c * c) % m) as nat, m as nat);
    }
    let d0 = det[0];
    lemma_mod_bound(c * c, m);
    lemma_mod_bound(0 - (c * c) % m, m);
    if j0 < ni {
        lemma_mul_mod_noop_left(c * c, w * w, m);
        assert((c * c) * (w * w) == (c * w) * (c * w)) by (nonlinear_arith);
        lemma_mul_mod_noop(c * w, c * w, m);
        lemma_small_mod(1, m as nat);
        lemma_inverse_gives_unit(d0 as nat, m as nat, w * w);
    } else {
        let s = (c * c) % m;
        lemma_mul_mod_noop_left(0 - s, -(w * w), m);
        assert((0 - s) * (-(w * w)) == s * (w * w)) by (nonlinear_arith);
        lemma_mul_mod_noop_left(c * c, w * w, m);
        assert((c * c) * (w * w) == (c * w) * (c * w)) by (nonlinear_arith);
        lemma_mul_mod_noop(c * w, c * w, m);
        lemma_small_mod(1, m as nat);
        lemma_inverse_gives_unit(d0 as nat, m as nat, -(w * w));
    }
}

fn reduce_range(element: &[u64], start: usize, len: usize, modulus: u64) -> (r: Vec<u64>)
    requires
        start + len <= element.len(),
        modulus > 0,
    ensures
        r.len() == len,
        forall|k: int| 0 <= k < len ==> #[trigger] r[k] as int == element[start + k] as int % (modulus as int),
{
    let mut out: Vec<u64> = Vec::new();
    for k in 0..len
        invariant
            start + len <= element.len(),
            modulus > 0,
            out.len() == k,
            forall|t: int| 0 <= t < k ==> #[trigger] out[t] as int == element[start + t] as int % (modulus as int),
    {
        out.push(element[start + k] % modulus);
    }
    out
}

/// Invert in a dihedral group algebra via a cyclic-ring inverse: the element
/// `r + s·σ` has inverse `(r̄ - s·σ) d` where `d` inverts the determinant
/// `r r̄ - s̄ s` in the cyclic subring. The result is a two-sided inverse; where
/// the determinant has no inverse modulo a prime or a prime power, neither has
/// the element. For every other modulus above one as well, a unit multiple of
/// a group element is always inverted.
pub fn dihedral_inverse_via_cyclic(element: &[u64], n: usize, modulus: u64) -> (r: Result<
    Vec<u64>,
    NtruError,
>)
    requires
        n <= usize::MAX / 4,
    ensures
        (r matches Err(NtruError::Shape)) <==> element.len() != 2 * n || n < 3 || modulus <= 1,
        r matches Err(e) ==> e is Shape || e is NotInvertible,
        r matches Ok(v) ==> residues(v@, modulus),
        r matches Ok(v) ==> v.len() == 2 * n && exists|d: Seq<u64>|
            #![trigger ints_u64(d)]
            {
                let rot = rotation_part(element@, n as int, modulus as int);
                let refl = reflection_part(element@, n as int, modulus as int);
                let g = cyclic_model(n as nat);
                &&& d.len() == n
                &&& residues(d, modulus)
                &&& ints_u64(v@) == group_product_mod(g, involuted(rot), ints_u64(d), modulus as int)
                    + group_product_mod(g, negated_mod(refl, modulus as int), ints_u64(d), modulus as int)
                &&& group_product_mod(
                    g,
                    dihedral_determinant(element@, n as int, modulus as int),
                    ints_u64(d),
                    modulus as int,
                ) == one_mod_spec(n as nat, modulus as int)
            },
        r matches Ok(v) ==> group_product_mod(
            dihedral_model(n as nat),
            ints_u64(element@),
            ints_u64(v@),
            modulus as int,
        ) == one_mod_spec(2 * n as nat, modulus as int),
        r matches Ok(v) ==> group_product_mod(
            dihedral_model(n as nat),
            ints_u64(v@),
            ints_u64(element@),
            modulus as int,
        ) == one_mod_spec(2 * n as nat, modulus as int),
        (r matches Err(NtruError::NotInvertible)) && is_prime_number(modulus as nat) ==> !left_invertible_mod(
            dihedral_model(n as nat),
            ints_u64(element@),
            modulus as int,
        ),
        (r matches Err(NtruError::NotInvertible)) && is_prime_power(modulus as nat) && !spec_is_prime(modulus)
            ==> !left_invertible_mod(dihedral_model(n as nat), ints_u64(element@), modulus as int),
        element.len() == 2 * n && n >= 3 && modulus > 1 && unit_monomial_element(element@, modulus as int) && (
        !spec_is_prime(modulus) || is_prime_number(modulus as nat)) ==> r is Ok,
        element.len() == 2 * n && n >= 3 && modulus > 1 && (exists|k: int|
            0 <= k < n && spec_gcd(#[trigger] dihedral_determinant(element@, n as int, modulus as int)[k] as nat, modulus as nat)
                == 1 && forall|j: int|
                0 <= j < n && j != k ==> dihedral_determinant(element@, n as int, modulus as int)[j] == 0) && (
        !spec_is_prime(modulus) || is_prime_number(modulus as nat)) ==> r is Ok,
{
    if element.len() != 2 * n || n < 3 || modulus <= 1 {
        return Err(NtruError::Shape);
    }
    let ghost m = modulus as int;
    let ghost g = cyclic_model(n as nat);
    let rotations = reduce_range(element, 0, n, modulus);
    let reflections = reduce_range(element, n, n, modulus);
    let ghost rot = rotation_part(element@, n as int, m);
    let ghost refl = reflection_part(element@, n as int, m);
    assert(ints_u64(rotations@) =~= rot);
    assert(ints_u64(reflections@) =~= refl);
    let rotation_bar = cyclic_involution(&rotations, modulus);
    let reflection_bar = cyclic_involution(&reflections, modulus);
    proof {
        assert forall|k: int| 0 <= k < n implies #[trigger] ints_u64(rotation_bar@)[k] == involuted(rot)[k] by {
            lemma_negate_index(n as int, k);
            lemma_mod_twice(element@[negate_index(n as int, k)] as int, m);
        }
        assert(ints_u64(rotation_bar@) =~= involuted(rot));
        assert forall|k: int| 0 <= k < n implies #[trigger] ints_u64(reflection_bar@)[k] == involuted(refl)[k] by {
            lemma_negate_index(n as int, k);
            lemma_mod_twice(element@[n + negate_index(n as int, k)] as int, m);
        }
        assert(ints_u64(reflection_bar@) =~= involuted(refl));
    }
    let rotation_norm = match cyclic_convolution_mod(&rotations, &rotation_bar, modulus) {
        Ok(v) => v,
        Err(e) => {
            return Err(e);
        },
    };
    let reflection_norm = match cyclic_convolution_mod(&reflection_bar, &reflections, modulus) {
        Ok(v) => v,
        Err(e) => {
            return Err(e);
        },
    };
    assert(rotation_norm@.len() == ints_u64(rotation_norm@).len());
    assert(reflection_norm@.len() == ints_u64(reflection_norm@).len());
    let mut determinant: Vec<u64> = Vec::new();
    for k in 0..n
        invariant
            modulus > 1,
            m == modulus,
            rotation_norm.len() == n,
            reflection_norm.len() == n,
            ints_u64(rotation_norm@) == group_product_mod(g, rot, involuted(rot), m),
            ints_u64(reflection_norm@) == group_product_mod(g, involuted(refl), refl, m),
            g == cyclic_model(n as nat),
            rot == rotation_part(element@, n as int, m),
            refl == reflection_part(element@, n as int, m),
            determinant.len() == k,
            forall|t: int| 0 <= t < k ==> #[trigger] determinant@[t] as int == dihedral_determinant(element@, n as int, m)[t],
    {
        proof {
            lemma_mod_bound(group_product(g, involuted(refl), refl)[k as int], m);
            assert(reflection_norm@[k as int] as int == ints_u64(reflection_norm@)[k as int]);
            assert(rotation_norm@[k as int] as int == ints_u64(rotation_norm@)[k as int]);
        }
        let ghost before = determinant@;
        determinant.push(sub_mod(rotation_norm[k], reflection_norm[k], modulus));
        assert(determinant@[k as int] as int == dihedral_determinant(element@, n as int, m)[k as int]);
    }
    assert(ints_u64(determinant@) =~= dihedral_determinant(element@, n as int, m));
    proof {
        if unit_monomial_element(element@, m) {
            let j0 = choose|k: int| #[trigger] lone_unit_coefficient(element@, m, k);
            lemma_unit_basis_determinant(element@, n as nat, m, j0);
            let det = dihedral_determinant(element@, n as int, m);
            assert(determinant@[0] as int == det[0]);
            lemma_small_mod(determinant@[0] as nat, modulus as nat);
            assert forall|j: int| 0 <= j < determinant@.len() && j != 0 implies (#[trigger] determinant@[j] as int)
                % m == 0 by {
                assert(determinant@[j] as int == det[j]);
                lemma_small_mod(0, modulus as nat);
            }
            assert(lone_unit_coefficient(determinant@, m, 0));
        }
        let det = dihedral_determinant(element@, n as int, m);
        if exists|k: int|
            0 <= k < n && spec_gcd(#[trigger] det[k] as nat, modulus as nat) == 1 && forall|j: int|
                0 <= j < n && j != k ==> det[j] == 0 {
            let k = choose|k: int|
                0 <= k < n && spec_gcd(#[trigger] det[k] as nat, modulus as nat) == 1 && forall|j: int|
                    0 <= j < n && j != k ==> det[j] == 0;
            assert(determinant@[k] as int == det[k]);
            lemma_small_mod(determinant@[k] as nat, modulus as nat);
            assert forall|j: int| 0 <= j < determinant@.len() && j != k implies (#[trigger] determinant@[j] as int)
                % m == 0 by {
                assert(determinant@[j] as int == det[j]);
                lemma_small_mod(0, modulus as nat);
            }
            assert(lone_unit_coefficient(determinant@, m, k));
        }
    }
    let determinant_inverse = match cyclic_inverse_mod(&determinant, modulus) {
        Ok(v) => v,
        Err(e) => {
            proof {
                if e is NotInvertible && (is_prime_number(modulus as nat) || is_prime_power(modulus as nat)
                    && !spec_is_prime(modulus)) {
                    lemma_singular_determinant_not_invertible(element@, n as nat, m);
                }
            }
            return Err(e);
        },
    };
    let inverse_rotations = match cyclic_convolution_mod(&rotation_bar, &determinant_inverse, modulus) {
        Ok(v) => v,
        Err(e) => {
            return Err(e);
        },
    };
    let mut neg_reflections: Vec<u64> = Vec::new();
    for k in 0..n
        invariant
            modulus > 1,
            m == modulus,
            reflections.len() == n,
            element.len() == 2 * n,
            refl == reflection_part(element@, n as int, m),
            ints_u64(reflections@) == refl,
            neg_reflections.len() == k,
            forall|t: int| 0 <= t < k ==> #[trigger] neg_reflections@[t] as int == negated_mod(refl, m)[t],
    {
        let value = reflections[k];
        proof {
            assert(value as int == refl[k as int]);
            lemma_mod_bound(element@[n + k] as int, m);
        }
        neg_reflections.push(if value == 0 { 0 } else { modulus - value });
    }
    assert(ints_u64(neg_reflections@) =~= negated_mod(refl, m));
    let inverse_reflections = match cyclic_convolution_mod(&neg_reflections, &determinant_inverse, modulus) {
        Ok(v) => v,
        Err(e) => {
            return Err(e);
        },
    };
    assert(inverse_rotations@.len() == ints_u64(inverse_rotations@).len());
    assert(inverse_reflections@.len() == ints_u64(inverse_reflections@).len());
    let mut out: Vec<u64> = Vec::new();
    for k in 0..n
        invariant
            out.len() == k,
            inverse_rotations.len() == n,
            forall|t: int| 0 <= t < k ==> #[trigger] out@[t] == inverse_rotations@[t],
    {
        out.push(inverse_rotations[k]);
    }
    for k in 0..n
        invariant
            out.len() == n + k,
            inverse_rotations.len() == n,
            inverse_reflections.len() == n,
            forall|t: int| 0 <= t < n ==> #[trigger] out@[t] == inverse_rotations@[t],
            forall|t: int| 0 <= t < k ==> #[trigger] out@[n + t] == inverse_reflections@[t],
    {
        out.push(inverse_reflections[k]);
    }
    proof {
        let joined = ints_u64(inverse_rotations@) + ints_u64(inverse_reflections@);
        assert forall|k: int| 0 <= k < 2 * n implies #[trigger] ints_u64(out@)[k] == joined[k] by {
            if k >= n {
                assert(out@[n + (k - n)] == inverse_reflections@[k - n]);
            }
        }
        assert(ints_u64(out@) =~= joined);
        assert forall|k: int| 0 <= k < out.len() implies #[trigger] out@[k] < modulus by {
            assert(ints_u64(out@)[k] == out@[k] as int);
            if k < n {
                lemma_mod_bound(group_product(g, involuted(rot), ints_u64(determinant_inverse@))[k], m);
            } else {
                lemma_mod_bound(group_product(g, negated_mod(refl, m), ints_u64(determinant_inverse@))[k - n], m);
            }
        }
        let d = determinant_inverse@;
        assert(d.len() == n && residues(d, modulus));
        lemma_dihedral_inverse_residues(element@, n as nat, m, ints_u64(d));
    }
    Ok(out)
}

/// Multiplication in `Z[x] / (x^n - 1)` is commutative.
pub proof fn lemma_cyclic_commutative(n: nat, a: Seq<int>, b: Seq<int>)
    ensures
        group_product(cyclic_model(n), a, b) == group_product(cyclic_model(n), b, a),
{
    let g = cyclic_model(n);
    let la = a.len() as int;
    let lb = b.len() as int;
    assert forall|x: int| 0 <= x < n implies #[trigger] group_product(g, a, b)[x] == group_product(g, b, a)[x] by {
        let f = |i: int, j: int| term(g, a, b, i, j, x);
        let h = |i: int, j: int| term(g, b, a, i, j, x);
        let ra = |i: int| row(g, a, b, i, x);
        let fa = |i: int| sum(lb, |j: int| f(i, j));
        assert forall|i: int| 0 <= i < la implies #[trigger] ra(i) == fa(i) by {
            lemma_sum_ext(lb, |j: int| term(g, a, b, i, j, x), |j: int| f(i, j));
        }
        lemma_sum_ext(la, ra, fa);
        lemma_sum_swap(la, lb, f);
        let sw = |j: int| sum(la, |i: int| f(i, j));
        let rb = |j: int| row(g, b, a, j, x);
        assert forall|j: int| 0 <= j < lb implies #[trigger] sw(j) == rb(j) by {
            assert forall|i: int| 0 <= i < la implies #[trigger] f(i, j) == term(g, b, a, j, i, x) by {
                lemma_mul_is_commutative(a[i], b[j]);
            }
            lemma_sum_ext(la, |i: int| f(i, j), |i: int| term(g, b, a, j, i, x));
        }
        lemma_sum_ext(lb, sw, rb);
    }
    assert(group_product(g, a, b) =~= group_product(g, b, a));
}
} // verus!
