//! The group algebra `Z[G]`: coefficient vectors indexed by group elements,
//! multiplied by convolution over the group law.
use crate::group::GroupModel;
use vstd::arithmetic::div_mod::*;
use vstd::arithmetic::mul::*;
use vstd::prelude::*;

verus! {

/// `f(0) + f(1) + ... + f(n - 1)`.
pub open spec fn sum(n: int, f: spec_fn(int) -> int) -> int
    decreases n,
{
    if n <= 0 {
        0
    } else {
        sum(n - 1, f) + f(n - 1)
    }
}

/// Unsigned coefficients as integers.
pub open spec fn ints_u64(s: Seq<u64>) -> Seq<int> {
    s.map_values(|v: u64| v as int)
}

/// Signed coefficients as integers.
pub open spec fn ints_i64(s: Seq<i64>) -> Seq<int> {
    s.map_values(|v: i64| v as int)
}

/// Every coefficient reduced into `[0, m)`.
pub open spec fn reduce(s: Seq<int>, m: int) -> Seq<int> {
    s.map_values(|v: int| v % m)
}

/// The contribution of the basis pair `(i, j)` to the coefficient of `x` in `a * b`.
pub open spec fn term(g: GroupModel, a: Seq<int>, b: Seq<int>, i: int, j: int, x: int) -> int {
    if g.mul(i, j) == x {
        a[i] * b[j]
    } else {
        0
    }
}

/// The contribution of the coefficient `a[i]` to the coefficient of `x` in `a * b`.
pub open spec fn row(g: GroupModel, a: Seq<int>, b: Seq<int>, i: int, x: int) -> int {
    sum(b.len() as int, |j: int| term(g, a, b, i, j, x))
}

/// The coefficient of `x` in `a * b`: the sum of `a[i] * b[j]` over the pairs
/// with `g_i g_j = g_x`.
pub open spec fn convolution(g: GroupModel, a: Seq<int>, b: Seq<int>, x: int) -> int {
    sum(a.len() as int, |i: int| row(g, a, b, i, x))
}

/// The product `a * b` in the group algebra over the integers.
pub open spec fn group_product(g: GroupModel, a: Seq<int>, b: Seq<int>) -> Seq<int> {
    Seq::new(g.order(), |x: int| convolution(g, a, b, x))
}

/// The product `a * b` in the group algebra over `Z / m Z`, as residues in `[0, m)`.
pub open spec fn group_product_mod(g: GroupModel, a: Seq<int>, b: Seq<int>, m: int) -> Seq<int> {
    reduce(group_product(g, a, b), m)
}

/// Some coordinate of `y` is nonzero modulo `m`.
pub open spec fn nonzero_mod(y: Seq<int>, m: int) -> bool {
    exists|k: int| 0 <= k < y.len() && #[trigger] (y[k] % m) != 0
}

/// `e b == 0` in `Z_m[G]` for some `b` that is not zero modulo `m`: `e` is a
/// left zero divisor.
pub open spec fn zero_divisor_mod(g: GroupModel, e: Seq<int>, m: int) -> bool {
    exists|b: Seq<int>|
        b.len() == g.order() && nonzero_mod(b, m) && #[trigger] group_product_mod(g, e, b, m) == Seq::new(
            g.order(),
            |x: int| 0int,
        )
}

/// Some `v` gives `v e == 1` in `Z_m[G]`.
pub open spec fn left_invertible_mod(g: GroupModel, e: Seq<int>, m: int) -> bool {
    exists|v: Seq<int>| v.len() == g.order() && #[trigger] group_product_mod(g, v, e, m) == one_mod_spec(g.order(), m)
}

/// The multiplicative identity of the group algebra modulo `m`.
pub open spec fn one_mod_spec(order: nat, m: int) -> Seq<int> {
    Seq::new(order, |x: int| if x == 0 { 1int % m } else { 0 })
}

/// A sum whose terms are all divisible by `m` is divisible by `m`.
pub proof fn lemma_sum_zero_mod(n: int, f: spec_fn(int) -> int, m: int)
    requires
        m > 0,
        forall|k: int| 0 <= k < n ==> #[trigger] f(k) % m == 0,
    ensures
        sum(n, f) % m == 0,
    decreases n,
{
    lemma_small_mod(0, m as nat);
    if n > 0 {
        lemma_sum_zero_mod(n - 1, f, m);
        lemma_add_mod_noop(sum(n - 1, f), f(n - 1), m);
    }
}

/// Sums of functions that agree on `[0, n)` agree.
pub proof fn lemma_sum_ext(n: int, f: spec_fn(int) -> int, h: spec_fn(int) -> int)
    requires
        forall|k: int| 0 <= k < n ==> #[trigger] f(k) == h(k),
    ensures
        sum(n, f) == sum(n, h),
    decreases n,
{
    if n > 0 {
        lemma_sum_ext(n - 1, f, h);
    }
}

/// A row whose left coefficient is divisible by `m` contributes nothing modulo `m`.
pub proof fn lemma_row_zero_mod(g: GroupModel, a: Seq<int>, b: Seq<int>, i: int, x: int, m: int)
    requires
        m > 0,
        a[i] % m == 0,
    ensures
        row(g, a, b, i, x) % m == 0,
{
    let f = |j: int| term(g, a, b, i, j, x);
    assert forall|j: int| 0 <= j < b.len() implies #[trigger] f(j) % m == 0 by {
        if g.mul(i, j) == x {
            lemma_mul_mod_noop_left(a[i], b[j], m);
            lemma_small_mod(0, m as nat);
        } else {
            lemma_small_mod(0, m as nat);
        }
    }
    lemma_sum_zero_mod(b.len() as int, f, m);
}

/// One step of modular accumulation: adding the reduced product of reduced
/// factors to a residue of `s` gives a residue of `s + a * b`.
pub proof fn lemma_accumulate_mod(s: int, a: int, b: int, m: int)
    requires
        m > 0,
    ensures
        ((s % m) + ((a % m) * (b % m)) % m) % m == (s + a * b) % m,
{
    lemma_mul_mod_noop(a, b, m);
    lemma_add_mod_noop(s, a * b, m);
}

/// Adding something divisible by `m` does not change a residue.
pub proof fn lemma_add_zero_mod(s: int, t: int, m: int)
    requires
        m > 0,
        t % m == 0,
    ensures
        (s + t) % m == s % m,
{
    lemma_add_mod_noop(s, t, m);
    lemma_mod_twice(s, m);
}


/// Sums are linear: `sum(f - c g) == sum(f) - c sum(g)`.
pub proof fn lemma_sum_linear(n: int, f: spec_fn(int) -> int, h: spec_fn(int) -> int, c: int)
    ensures
        sum(n, |k: int| f(k) - c * h(k)) == sum(n, f) - c * sum(n, h),
    decreases n,
{
    if n > 0 {
        lemma_sum_linear(n - 1, f, h, c);
        lemma_mul_is_distributive_add(c, sum(n - 1, h), h(n - 1));
    }
}

/// A constant factor comes out of a sum.
pub proof fn lemma_sum_scale(n: int, f: spec_fn(int) -> int, c: int)
    ensures
        sum(n, |k: int| c * f(k)) == c * sum(n, f),
    decreases n,
{
    if n > 0 {
        lemma_sum_scale(n - 1, f, c);
        lemma_mul_is_distributive_add(c, sum(n - 1, f), f(n - 1));
    }
}

/// Termwise congruent sums are congruent.
pub proof fn lemma_sum_congruent(n: int, f: spec_fn(int) -> int, h: spec_fn(int) -> int, m: int)
    requires
        m > 0,
        forall|k: int| 0 <= k < n ==> #[trigger] f(k) % m == h(k) % m,
    ensures
        sum(n, f) % m == sum(n, h) % m,
    decreases n,
{
    if n > 0 {
        lemma_sum_congruent(n - 1, f, h, m);
        lemma_add_mod_noop(sum(n - 1, f), f(n - 1), m);
        lemma_add_mod_noop(sum(n - 1, h), h(n - 1), m);
    }
}

/// A sum with a single possibly nonzero term is that term.
pub proof fn lemma_sum_single(n: int, f: spec_fn(int) -> int, k0: int)
    requires
        0 <= k0 < n,
        forall|k: int| 0 <= k < n && k != k0 ==> #[trigger] f(k) == 0,
    ensures
        sum(n, f) == f(k0),
    decreases n,
{
    if n - 1 == k0 {
        lemma_sum_zero(k0, f);
    } else {
        lemma_sum_single(n - 1, f, k0);
    }
}

/// A sum of zeros is zero.
pub proof fn lemma_sum_zero(n: int, f: spec_fn(int) -> int)
    requires
        forall|k: int| 0 <= k < n ==> #[trigger] f(k) == 0,
    ensures
        sum(n, f) == 0,
    decreases n,
{
    if n > 0 {
        lemma_sum_zero(n - 1, f);
    }
}

/// Sums add termwise.
pub proof fn lemma_sum_add(n: int, f: spec_fn(int) -> int, h: spec_fn(int) -> int)
    ensures
        sum(n, |k: int| f(k) + h(k)) == sum(n, f) + sum(n, h),
    decreases n,
{
    if n > 0 {
        lemma_sum_add(n - 1, f, h);
    }
}

/// The order of a double sum can be exchanged.
pub proof fn lemma_sum_swap(n1: int, n2: int, f: spec_fn(int, int) -> int)
    ensures
        sum(n1, |i: int| sum(n2, |j: int| f(i, j))) == sum(n2, |j: int| sum(n1, |i: int| f(i, j))),
    decreases n1,
{
    if n1 > 0 {
        lemma_sum_swap(n1 - 1, n2, f);
        let a = |j: int| sum(n1 - 1, |i: int| f(i, j));
        let b = |j: int| f(n1 - 1, j);
        let outer = |i: int| sum(n2, |j: int| f(i, j));
        let whole = |j: int| sum(n1, |i: int| f(i, j));
        assert(sum(n1, outer) == sum(n1 - 1, outer) + outer(n1 - 1));
        assert(outer(n1 - 1) == sum(n2, b)) by {
            lemma_sum_ext(n2, |j: int| f(n1 - 1, j), b);
        }
        assert(sum(n1 - 1, outer) == sum(n2, a));
        lemma_sum_add(n2, a, b);
        assert forall|k: int| 0 <= k < n2 implies #[trigger] whole(k) == a(k) + b(k) by {
            assert(sum(n1, |i: int| f(i, k)) == sum(n1 - 1, |i: int| f(i, k)) + f(n1 - 1, k));
        }
        lemma_sum_ext(n2, |j: int| a(j) + b(j), whole);
    } else {
        lemma_sum_zero(n2, |j: int| sum(n1, |i: int| f(i, j)));
    }
}

/// The part of the coefficient of `x` in `a * b` from the pairs before `(i, j)`
/// in row-major order.
pub open spec fn partial_product(g: GroupModel, a: Seq<int>, b: Seq<int>, i: int, j: int, x: int) -> int {
    sum(i, |i: int| row(g, a, b, i, x)) + sum(j, |j: int| term(g, a, b, i, j, x))
}

/// Finishing a row moves the partial product to the start of the next row.
pub proof fn lemma_partial_next_row(g: GroupModel, a: Seq<int>, b: Seq<int>, i: int, x: int)
    requires
        i >= 0,
    ensures
        partial_product(g, a, b, i, b.len() as int, x) == partial_product(g, a, b, i + 1, 0, x),
{
}

/// The whole product is the partial product after the last row.
pub proof fn lemma_partial_complete(g: GroupModel, a: Seq<int>, b: Seq<int>, x: int)
    ensures
        partial_product(g, a, b, a.len() as int, 0, x) == convolution(g, a, b, x),
{
}

/// One accumulation step of a modular convolution: the residue of the partial
/// product at `(i, j)` becomes that at `(i, j + 1)` once the reduced term of
/// the pair is added where the pair lands.
pub proof fn lemma_partial_step_mod(
    g: GroupModel,
    a: Seq<int>,
    b: Seq<int>,
    i: int,
    j: int,
    x: int,
    old_value: int,
    new_value: int,
    m: int,
)
    requires
        m > 0,
        0 <= i < a.len(),
        0 <= j < b.len(),
        old_value == partial_product(g, a, b, i, j, x) % m,
        g.mul(i, j) == x ==> new_value == (old_value + ((a[i] % m) * (b[j] % m)) % m) % m,
        g.mul(i, j) != x ==> new_value == old_value,
    ensures
        new_value == partial_product(g, a, b, i, j + 1, x) % m,
{
    if g.mul(i, j) == x {
        lemma_accumulate_mod(partial_product(g, a, b, i, j, x), a[i], b[j], m);
    }
}

/// A skipped pair whose right coefficient is divisible by `m` leaves the residue unchanged.
pub proof fn lemma_partial_skip_mod(
    g: GroupModel,
    a: Seq<int>,
    b: Seq<int>,
    i: int,
    j: int,
    x: int,
    m: int,
)
    requires
        m > 0,
        0 <= i < a.len(),
        0 <= j < b.len(),
        b[j] % m == 0,
    ensures
        partial_product(g, a, b, i, j + 1, x) % m == partial_product(g, a, b, i, j, x) % m,
{
    lemma_mul_mod_noop_right(a[i], b[j], m);
    lemma_small_mod(0, m as nat);
    lemma_add_zero_mod(partial_product(g, a, b, i, j, x), term(g, a, b, i, j, x), m);
}

/// A skipped row whose left coefficient is divisible by `m` leaves the residue unchanged.
pub proof fn lemma_partial_skip_row_mod(g: GroupModel, a: Seq<int>, b: Seq<int>, i: int, x: int, m: int)
    requires
        m > 0,
        0 <= i < a.len(),
        a[i] % m == 0,
    ensures
        partial_product(g, a, b, i + 1, 0, x) % m == partial_product(g, a, b, i, 0, x) % m,
{
    lemma_row_zero_mod(g, a, b, i, x, m);
    lemma_add_zero_mod(partial_product(g, a, b, i, 0, x), row(g, a, b, i, x), m);
}

/// Reducing the left factor modulo `m` does not change the product modulo `m`.
pub proof fn lemma_product_reduce_left(g: GroupModel, a: Seq<int>, b: Seq<int>, x: int, m: int)
    requires
        m > 0,
    ensures
        convolution(g, reduce(a, m), b, x) % m == convolution(g, a, b, x) % m,
{
    let ra = reduce(a, m);
    assert forall|i: int| 0 <= i < a.len() implies #[trigger] row(g, ra, b, i, x) % m == row(
        g,
        a,
        b,
        i,
        x,
    ) % m by {
        assert forall|j: int| 0 <= j < b.len() implies #[trigger] term(g, ra, b, i, j, x) % m == term(
            g,
            a,
            b,
            i,
            j,
            x,
        ) % m by {
            if g.mul(i, j) == x {
                lemma_mul_mod_noop_left(a[i], b[j], m);
                lemma_mul_mod_noop_left(a[i] % m, b[j], m);
                lemma_mod_twice(a[i], m);
            }
        }
        lemma_sum_congruent(
            b.len() as int,
            |j: int| term(g, ra, b, i, j, x),
            |j: int| term(g, a, b, i, j, x),
            m,
        );
    }
    lemma_sum_congruent(
        a.len() as int,
        |i: int| row(g, ra, b, i, x),
        |i: int| row(g, a, b, i, x),
        m,
    );
}

/// The sum of the coefficients `a[i]` with `g_i g_j = g_x`: the entry in row
/// `x` and column `j` of the matrix of left multiplication by `a`.
pub open spec fn column_sum(g: GroupModel, a: Seq<int>, x: int, j: int) -> int {
    column_partial(g, a, x, j, a.len() as int)
}

/// The part of `column_sum(g, a, x, j)` from the coefficients before `a[t]`.
pub open spec fn column_partial(g: GroupModel, a: Seq<int>, x: int, j: int, t: int) -> int {
    sum(t, |i: int| if g.mul(i, j) == x { a[i] } else { 0 })
}

/// Left multiplication by `a` is the matrix of column sums: the coefficient of
/// `x` in `a * b` is `sum_j column_sum(a, x, j) * b[j]`.
pub proof fn lemma_left_multiplication_matrix(g: GroupModel, a: Seq<int>, b: Seq<int>, x: int)
    ensures
        convolution(g, a, b, x) == sum(b.len() as int, |j: int| column_sum(g, a, x, j) * b[j]),
{
    let n1 = a.len() as int;
    let n2 = b.len() as int;
    let f = |i: int, j: int| term(g, a, b, i, j, x);
    assert forall|i: int| 0 <= i < n1 implies #[trigger] row(g, a, b, i, x) == sum(
        n2,
        |j: int| f(i, j),
    ) by {
        lemma_sum_ext(n2, |j: int| term(g, a, b, i, j, x), |j: int| f(i, j));
    }
    lemma_sum_ext(n1, |i: int| row(g, a, b, i, x), |i: int| sum(n2, |j: int| f(i, j)));
    lemma_sum_swap(n1, n2, f);
    let inner = |j: int| sum(n1, |i: int| f(i, j));
    assert forall|j: int| 0 <= j < n2 implies #[trigger] inner(j) == column_sum(g, a, x, j) * b[j] by {
        let c = |i: int| if g.mul(i, j) == x { a[i] } else { 0 };
        assert forall|i: int| 0 <= i < n1 implies #[trigger] f(i, j) == b[j] * c(i) by {
            lemma_mul_is_commutative(a[i], b[j]);
        }
        lemma_sum_ext(n1, |i: int| f(i, j), |i: int| b[j] * c(i));
        lemma_sum_scale(n1, c, b[j]);
        lemma_mul_is_commutative(b[j], sum(n1, c));
    }
    lemma_sum_ext(n2, inner, |j: int| column_sum(g, a, x, j) * b[j]);
}

/// Summing over `y` the terms `w(i, j)` with `comb(i, j) == y`, for the `y`
/// that satisfy `pred`, sums each `w(i, j)` once where `pred(comb(i, j))`.
pub proof fn lemma_sum_collapse(
    n: int,
    pred: spec_fn(int) -> bool,
    comb: spec_fn(int, int) -> int,
    w: spec_fn(int, int) -> int,
)
    requires
        0 <= n,
        forall|i: int, j: int| 0 <= i < n && 0 <= j < n ==> 0 <= #[trigger] comb(i, j) < n,
    ensures
        sum(
            n,
            |y: int|
                if pred(y) {
                    sum(n, |i: int| sum(n, |j: int| if comb(i, j) == y { w(i, j) } else { 0 }))
                } else {
                    0
                },
        ) == sum(n, |i: int| sum(n, |j: int| if pred(comb(i, j)) { w(i, j) } else { 0 })),
{
    let outer = |y: int|
        if pred(y) {
            sum(n, |i: int| sum(n, |j: int| if comb(i, j) == y { w(i, j) } else { 0 }))
        } else {
            0
        };
    // f2(y, i) sums the terms with first index i that land on y, if pred(y)
    let f2 = |y: int, i: int| sum(n, |j: int| if pred(y) && comb(i, j) == y { w(i, j) } else { 0 });
    let moved = |i: int| sum(n, |j: int| f2(i, j));
    assert forall|y: int| 0 <= y < n implies #[trigger] outer(y) == moved(y) by {
        let row_y = |j: int| f2(y, j);
        if pred(y) {
            let plain = |i: int| sum(n, |j: int| if comb(i, j) == y { w(i, j) } else { 0 });
            assert forall|i: int| 0 <= i < n implies #[trigger] row_y(i) == plain(i) by {
                let u = |j: int| if pred(y) && comb(i, j) == y { w(i, j) } else { 0 };
                let v = |j: int| if comb(i, j) == y { w(i, j) } else { 0 };
                lemma_sum_ext(n, u, v);
            }
            lemma_sum_ext(n, row_y, plain);
        } else {
            assert forall|i: int| 0 <= i < n implies #[trigger] row_y(i) == 0 by {
                lemma_sum_zero(n, |j: int| if pred(y) && comb(i, j) == y { w(i, j) } else { 0 });
            }
            lemma_sum_zero(n, row_y);
        }
    }
    lemma_sum_ext(n, outer, moved);
    lemma_sum_swap(n, n, f2);
    let swapped = |j: int| sum(n, |i: int| f2(i, j));
    let target = |i: int| sum(n, |j: int| if pred(comb(i, j)) { w(i, j) } else { 0 });
    assert forall|t: int| 0 <= t < n implies #[trigger] swapped(t) == target(t) by {
        // swapped(t) sums over y and j the terms with first index t landing on y
        let f3 = |y: int, j: int| if pred(y) && comb(t, j) == y { w(t, j) } else { 0 };
        let lhs = |y: int| f2(y, t);
        let nested = |i: int| sum(n, |j: int| f3(i, j));
        assert forall|y: int| 0 <= y < n implies #[trigger] lhs(y) == nested(y) by {
            let u = |j: int| if pred(y) && comb(t, j) == y { w(t, j) } else { 0 };
            let v = |j: int| f3(y, j);
            lemma_sum_ext(n, u, v);
        }
        lemma_sum_ext(n, lhs, nested);
        lemma_sum_swap(n, n, f3);
        let cols = |j: int| sum(n, |i: int| f3(i, j));
        let tgt = |j: int| if pred(comb(t, j)) { w(t, j) } else { 0 };
        assert forall|j: int| 0 <= j < n implies #[trigger] cols(j) == tgt(j) by {
            let y0 = comb(t, j);
            assert(0 <= y0 < n);
            lemma_sum_single(n, |i: int| f3(i, j), y0);
        }
        lemma_sum_ext(n, cols, tgt);
    }
    lemma_sum_ext(n, swapped, target);
}

/// Triple sums agree where their terms agree.
pub proof fn lemma_sum_ext3(n: int, f: spec_fn(int, int, int) -> int, h: spec_fn(int, int, int) -> int)
    requires
        forall|i: int, j: int, k: int|
            0 <= i < n && 0 <= j < n && 0 <= k < n ==> #[trigger] f(i, j, k) == h(i, j, k),
    ensures
        sum(n, |i: int| sum(n, |j: int| sum(n, |k: int| f(i, j, k)))) == sum(
            n,
            |i: int| sum(n, |j: int| sum(n, |k: int| h(i, j, k))),
        ),
{
    let fa = |i: int| sum(n, |j: int| sum(n, |k: int| f(i, j, k)));
    let ha = |i: int| sum(n, |j: int| sum(n, |k: int| h(i, j, k)));
    assert forall|i: int| 0 <= i < n implies #[trigger] fa(i) == ha(i) by {
        let fb = |j: int| sum(n, |k: int| f(i, j, k));
        let hb = |j: int| sum(n, |k: int| h(i, j, k));
        assert forall|j: int| 0 <= j < n implies #[trigger] fb(j) == hb(j) by {
            lemma_sum_ext(n, |k: int| f(i, j, k), |k: int| h(i, j, k));
        }
        lemma_sum_ext(n, fb, hb);
    }
    lemma_sum_ext(n, fa, ha);
}

/// A triple sum may take its last index first.
pub proof fn lemma_sum_rotate(n: int, f: spec_fn(int, int, int) -> int)
    ensures
        sum(n, |k: int| sum(n, |i: int| sum(n, |j: int| f(i, j, k)))) == sum(
            n,
            |i: int| sum(n, |j: int| sum(n, |k: int| f(i, j, k))),
        ),
{
    // exchange k with i
    let g2 = |k: int, i: int| sum(n, |j: int| f(i, j, k));
    lemma_sum_swap(n, n, g2);
    let start = |k: int| sum(n, |i: int| sum(n, |j: int| f(i, j, k)));
    let start2 = |k: int| sum(n, |i: int| g2(k, i));
    assert forall|k: int| 0 <= k < n implies #[trigger] start(k) == start2(k) by {
        lemma_sum_ext(n, |i: int| sum(n, |j: int| f(i, j, k)), |i: int| g2(k, i));
    }
    lemma_sum_ext(n, start, start2);
    // for each i exchange k with j
    let mid = |i: int| sum(n, |k: int| g2(k, i));
    let goal = |i: int| sum(n, |j: int| sum(n, |k: int| f(i, j, k)));
    assert forall|i: int| 0 <= i < n implies #[trigger] mid(i) == goal(i) by {
        let g3 = |k: int, j: int| f(i, j, k);
        lemma_sum_swap(n, n, g3);
        let a1 = |k: int| g2(k, i);
        let a2 = |k: int| sum(n, |j: int| g3(k, j));
        assert forall|k: int| 0 <= k < n implies #[trigger] a1(k) == a2(k) by {
            lemma_sum_ext(n, |j: int| f(i, j, k), |j: int| g3(k, j));
        }
        lemma_sum_ext(n, a1, a2);
        let b1 = |j: int| sum(n, |k: int| g3(k, j));
        let b2 = |j: int| sum(n, |k: int| f(i, j, k));
        assert forall|j: int| 0 <= j < n implies #[trigger] b1(j) == b2(j) by {
            lemma_sum_ext(n, |k: int| g3(k, j), |k: int| f(i, j, k));
        }
        lemma_sum_ext(n, b1, b2);
    }
    lemma_sum_ext(n, mid, goal);
}

/// The term of `a[i] b[j] c[k]` in the coefficient of `x` of `(a b) c`.
pub open spec fn triple_left(g: GroupModel, a: Seq<int>, b: Seq<int>, c: Seq<int>, x: int, i: int, j: int, k: int) -> int {
    if g.mul(g.mul(i, j), k) == x {
        a[i] * b[j] * c[k]
    } else {
        0
    }
}

/// The term of `a[i] b[j] c[k]` in the coefficient of `x` of `a (b c)`.
pub open spec fn triple_right(g: GroupModel, a: Seq<int>, b: Seq<int>, c: Seq<int>, x: int, i: int, j: int, k: int) -> int {
    if g.mul(i, g.mul(j, k)) == x {
        a[i] * b[j] * c[k]
    } else {
        0
    }
}

/// The coefficient of `x` in `(a b) c` is the sum of `a[i] b[j] c[k]` over
/// the triples with `(g_i g_j) g_k = g_x`.
proof fn lemma_product_left_triple(g: GroupModel, a: Seq<int>, b: Seq<int>, c: Seq<int>, x: int)
    requires
        g.wf(),
        a.len() == g.order(),
        b.len() == g.order(),
        c.len() == g.order(),
    ensures
        convolution(g, group_product(g, a, b), c, x) == sum(
            g.order() as int,
            |i: int| sum(g.order() as int, |j: int| sum(g.order() as int, |k: int| triple_left(g, a, b, c, x, i, j, k))),
        ),
{
    let n = g.order() as int;
    let ab = group_product(g, a, b);
    lemma_left_multiplication_matrix(g, ab, c, x);
    let comb = |i: int, j: int| g.mul(i, j);
    let w = |i: int, j: int| a[i] * b[j];
    assert forall|i: int, j: int| 0 <= i < n && 0 <= j < n implies 0 <= #[trigger] comb(i, j) < n by {
        crate::group::lemma_mul_closed(g, i, j);
    }
    // each column sum of a b collapses to a double sum
    let outer_k = |j: int| column_sum(g, ab, x, j) * c[j];
    let expanded = |t: int| sum(n, |i: int| sum(n, |j: int| triple_left(g, a, b, c, x, i, j, t)));
    assert forall|t: int| 0 <= t < n implies #[trigger] outer_k(t) == expanded(t) by {
        let pred = |y: int| g.mul(y, t) == x;
        lemma_sum_collapse(n, pred, comb, w);
        let inner_y = |y: int| if g.mul(y, t) == x { ab[y] } else { 0 };
        let coll_y = |y: int|
            if pred(y) {
                sum(n, |i: int| sum(n, |j: int| if comb(i, j) == y { w(i, j) } else { 0 }))
            } else {
                0
            };
        assert forall|y: int| 0 <= y < n implies #[trigger] inner_y(y) == coll_y(y) by {
            if g.mul(y, t) == x {
                let r1 = |i: int| row(g, a, b, i, y);
                let r2 = |i: int| sum(n, |j: int| if comb(i, j) == y { w(i, j) } else { 0 });
                assert forall|i: int| 0 <= i < n implies #[trigger] r1(i) == r2(i) by {
                    lemma_sum_ext(n, |j: int| term(g, a, b, i, j, y), |j: int| if comb(i, j) == y { w(i, j) } else { 0 });
                }
                lemma_sum_ext(n, r1, r2);
            }
        }
        lemma_sum_ext(n, inner_y, coll_y);
        assert(column_sum(g, ab, x, t) == sum(n, inner_y));
        // the collapsed double sum, with its terms named
        let u = |i: int, j: int| if pred(comb(i, j)) { w(i, j) } else { 0 };
        let c1 = |i: int| sum(n, |j: int| if pred(comb(i, j)) { w(i, j) } else { 0 });
        let v = |i: int| sum(n, |j: int| u(i, j));
        assert forall|i: int| 0 <= i < n implies #[trigger] c1(i) == v(i) by {
            lemma_sum_ext(n, |j: int| if pred(comb(i, j)) { w(i, j) } else { 0 }, |j: int| u(i, j));
        }
        lemma_sum_ext(n, c1, v);
        // scale by c[t]
        let ct = c[t];
        lemma_mul_is_commutative(sum(n, v), ct);
        lemma_sum_scale(n, v, ct);
        let scaled = |k: int| ct * v(k);
        let target = |i: int| sum(n, |j: int| triple_left(g, a, b, c, x, i, j, t));
        assert forall|i: int| 0 <= i < n implies #[trigger] scaled(i) == target(i) by {
            let fi = |j: int| u(i, j);
            lemma_sum_scale(n, fi, ct);
            let s1 = |k: int| ct * fi(k);
            let s2 = |j: int| triple_left(g, a, b, c, x, i, j, t);
            assert forall|j: int| 0 <= j < n implies #[trigger] s1(j) == s2(j) by {
                lemma_mul_is_commutative(ct, a[i] * b[j]);
            }
            lemma_sum_ext(n, s1, s2);
            assert(v(i) == sum(n, fi));
        }
        lemma_sum_ext(n, scaled, target);
    }
    lemma_sum_ext(n, outer_k, expanded);
    let t3 = |i: int, j: int, k: int| triple_left(g, a, b, c, x, i, j, k);
    lemma_sum_rotate(n, t3);
    let e1 = |k: int| sum(n, |i: int| sum(n, |j: int| t3(i, j, k)));
    assert forall|t: int| 0 <= t < n implies #[trigger] expanded(t) == e1(t) by {
        let p1 = |i: int| sum(n, |j: int| triple_left(g, a, b, c, x, i, j, t));
        let p2 = |i: int| sum(n, |j: int| t3(i, j, t));
        assert forall|i: int| 0 <= i < n implies #[trigger] p1(i) == p2(i) by {
            lemma_sum_ext(n, |j: int| triple_left(g, a, b, c, x, i, j, t), |j: int| t3(i, j, t));
        }
        lemma_sum_ext(n, p1, p2);
    }
    lemma_sum_ext(n, expanded, e1);
    let fa = |i: int| sum(n, |j: int| sum(n, |k: int| t3(i, j, k)));
    let ha = |i: int| sum(n, |j: int| sum(n, |k: int| triple_left(g, a, b, c, x, i, j, k)));
    assert forall|i: int| 0 <= i < n implies #[trigger] fa(i) == ha(i) by {
        let fb = |j: int| sum(n, |k: int| t3(i, j, k));
        let hb = |j: int| sum(n, |k: int| triple_left(g, a, b, c, x, i, j, k));
        assert forall|j: int| 0 <= j < n implies #[trigger] fb(j) == hb(j) by {
            lemma_sum_ext(n, |k: int| t3(i, j, k), |k: int| triple_left(g, a, b, c, x, i, j, k));
        }
        lemma_sum_ext(n, fb, hb);
    }
    lemma_sum_ext(n, fa, ha);
}

/// The coefficient of `x` in `a (b c)` is the sum of `a[i] b[j] c[k]` over
/// the triples with `g_i (g_j g_k) = g_x`.
proof fn lemma_product_right_triple(g: GroupModel, a: Seq<int>, b: Seq<int>, c: Seq<int>, x: int)
    requires
        g.wf(),
        a.len() == g.order(),
        b.len() == g.order(),
        c.len() == g.order(),
    ensures
        convolution(g, a, group_product(g, b, c), x) == sum(
            g.order() as int,
            |i: int| sum(g.order() as int, |j: int| sum(g.order() as int, |k: int| triple_right(g, a, b, c, x, i, j, k))),
        ),
{
    let n = g.order() as int;
    let bc = group_product(g, b, c);
    let comb = |i: int, j: int| g.mul(i, j);
    let w = |i: int, j: int| b[i] * c[j];
    assert forall|i: int, j: int| 0 <= i < n && 0 <= j < n implies 0 <= #[trigger] comb(i, j) < n by {
        crate::group::lemma_mul_closed(g, i, j);
    }
    let rows = |i: int| row(g, a, bc, i, x);
    let expanded = |i: int| sum(n, |j: int| sum(n, |k: int| triple_right(g, a, b, c, x, i, j, k)));
    assert forall|t: int| 0 <= t < n implies #[trigger] rows(t) == expanded(t) by {
        let pred = |y: int| g.mul(t, y) == x;
        lemma_sum_collapse(n, pred, comb, w);
        let inner_y = |y: int| if g.mul(t, y) == x { bc[y] } else { 0 };
        let coll_y = |y: int|
            if pred(y) {
                sum(n, |i: int| sum(n, |j: int| if comb(i, j) == y { w(i, j) } else { 0 }))
            } else {
                0
            };
        assert forall|y: int| 0 <= y < n implies #[trigger] inner_y(y) == coll_y(y) by {
            if g.mul(t, y) == x {
                let r1 = |i: int| row(g, b, c, i, y);
                let r2 = |i: int| sum(n, |j: int| if comb(i, j) == y { w(i, j) } else { 0 });
                assert forall|i: int| 0 <= i < n implies #[trigger] r1(i) == r2(i) by {
                    lemma_sum_ext(n, |j: int| term(g, b, c, i, j, y), |j: int| if comb(i, j) == y { w(i, j) } else { 0 });
                }
                lemma_sum_ext(n, r1, r2);
            }
        }
        lemma_sum_ext(n, inner_y, coll_y);
        // the row is a[t] times the sum of inner_y
        let at = a[t];
        lemma_sum_scale(n, inner_y, at);
        let sc = |k: int| at * inner_y(k);
        let tm = |j: int| term(g, a, bc, t, j, x);
        assert forall|j: int| 0 <= j < n implies #[trigger] tm(j) == sc(j) by {}
        lemma_sum_ext(n, tm, sc);
        // the collapsed double sum, with its terms named
        let u = |i: int, j: int| if pred(comb(i, j)) { w(i, j) } else { 0 };
        let c1 = |i: int| sum(n, |j: int| if pred(comb(i, j)) { w(i, j) } else { 0 });
        let v = |i: int| sum(n, |j: int| u(i, j));
        assert forall|i: int| 0 <= i < n implies #[trigger] c1(i) == v(i) by {
            lemma_sum_ext(n, |j: int| if pred(comb(i, j)) { w(i, j) } else { 0 }, |j: int| u(i, j));
        }
        lemma_sum_ext(n, c1, v);
        lemma_sum_scale(n, v, at);
        let scaled = |k: int| at * v(k);
        let target = |j: int| sum(n, |k: int| triple_right(g, a, b, c, x, t, j, k));
        assert forall|j: int| 0 <= j < n implies #[trigger] scaled(j) == target(j) by {
            let fj = |k: int| u(j, k);
            lemma_sum_scale(n, fj, at);
            let s1 = |k: int| at * fj(k);
            let s2 = |k: int| triple_right(g, a, b, c, x, t, j, k);
            assert forall|k: int| 0 <= k < n implies #[trigger] s1(k) == s2(k) by {
                lemma_mul_is_associative(at, b[j], c[k]);
            }
            lemma_sum_ext(n, s1, s2);
            assert(v(j) == sum(n, fj));
        }
        lemma_sum_ext(n, scaled, target);
    }
    lemma_sum_ext(n, rows, expanded);
}

/// Multiplication in the group algebra `Z[G]` is associative:
/// `(a b) c == a (b c)`.
pub proof fn lemma_group_product_associative(g: GroupModel, a: Seq<int>, b: Seq<int>, c: Seq<int>)
    requires
        g.wf(),
        a.len() == g.order(),
        b.len() == g.order(),
        c.len() == g.order(),
    ensures
        group_product(g, group_product(g, a, b), c) == group_product(g, a, group_product(g, b, c)),
{
    let n = g.order() as int;
    assert forall|x: int| 0 <= x < n implies #[trigger] group_product(g, group_product(g, a, b), c)[x]
        == group_product(g, a, group_product(g, b, c))[x] by {
        lemma_product_left_triple(g, a, b, c, x);
        lemma_product_right_triple(g, a, b, c, x);
        let l = |i: int, j: int, k: int| triple_left(g, a, b, c, x, i, j, k);
        let r = |i: int, j: int, k: int| triple_right(g, a, b, c, x, i, j, k);
        assert forall|i: int, j: int, k: int| 0 <= i < n && 0 <= j < n && 0 <= k < n implies #[trigger] l(i, j, k) == r(i, j, k) by {
            crate::group::lemma_mul_associative(g, i, j, k);
        }
        lemma_sum_ext3(n, l, r);
        let la = |i: int| sum(n, |j: int| sum(n, |k: int| triple_left(g, a, b, c, x, i, j, k)));
        let lb = |i: int| sum(n, |j: int| sum(n, |k: int| l(i, j, k)));
        assert forall|i: int| 0 <= i < n implies #[trigger] la(i) == lb(i) by {
            let p1 = |j: int| sum(n, |k: int| triple_left(g, a, b, c, x, i, j, k));
            let p2 = |j: int| sum(n, |k: int| l(i, j, k));
            assert forall|j: int| 0 <= j < n implies #[trigger] p1(j) == p2(j) by {
                lemma_sum_ext(n, |k: int| triple_left(g, a, b, c, x, i, j, k), |k: int| l(i, j, k));
            }
            lemma_sum_ext(n, p1, p2);
        }
        lemma_sum_ext(n, la, lb);
        let ra = |i: int| sum(n, |j: int| sum(n, |k: int| triple_right(g, a, b, c, x, i, j, k)));
        let rb = |i: int| sum(n, |j: int| sum(n, |k: int| r(i, j, k)));
        assert forall|i: int| 0 <= i < n implies #[trigger] ra(i) == rb(i) by {
            let p1 = |j: int| sum(n, |k: int| triple_right(g, a, b, c, x, i, j, k));
            let p2 = |j: int| sum(n, |k: int| r(i, j, k));
            assert forall|j: int| 0 <= j < n implies #[trigger] p1(j) == p2(j) by {
                lemma_sum_ext(n, |k: int| triple_right(g, a, b, c, x, i, j, k), |k: int| r(i, j, k));
            }
            lemma_sum_ext(n, p1, p2);
        }
        lemma_sum_ext(n, ra, rb);
    }
    assert(group_product(g, group_product(g, a, b), c) =~= group_product(g, a, group_product(g, b, c)));
}

/// The unit `1 * g_0` of the group algebra, as a coefficient vector.
pub open spec fn unit_element(n: nat) -> Seq<int> {
    Seq::new(n, |x: int| if x == 0 { 1int } else { 0int })
}

/// The unit is neutral: `1 c == c` and `c 1 == c`.
pub proof fn lemma_group_product_identity(g: GroupModel, c: Seq<int>)
    requires
        g.wf(),
        c.len() == g.order(),
    ensures
        group_product(g, unit_element(g.order()), c) == c,
        group_product(g, c, unit_element(g.order())) == c,
{
    let n = g.order() as int;
    let e = unit_element(g.order());
    assert(n > 0) by {
        crate::group::lemma_mul_identity_order(g);
    }
    assert forall|x: int| 0 <= x < n implies #[trigger] group_product(g, e, c)[x] == c[x] by {
        let rows = |i: int| row(g, e, c, i, x);
        assert forall|i: int| 0 <= i < n && i != 0 implies #[trigger] rows(i) == 0 by {
            lemma_sum_zero(n, |j: int| term(g, e, c, i, j, x));
        }
        lemma_sum_single(n, rows, 0);
        let terms = |j: int| term(g, e, c, 0, j, x);
        assert forall|j: int| 0 <= j < n && j != x implies #[trigger] terms(j) == 0 by {
            crate::group::lemma_mul_identity(g, j);
        }
        crate::group::lemma_mul_identity(g, x);
        lemma_sum_single(n, terms, x);
    }
    assert(group_product(g, e, c) =~= c);
    assert forall|x: int| 0 <= x < n implies #[trigger] group_product(g, c, e)[x] == c[x] by {
        let rows = |i: int| row(g, c, e, i, x);
        assert forall|i: int| 0 <= i < n && i != x implies #[trigger] rows(i) == 0 by {
            let terms = |j: int| term(g, c, e, i, j, x);
            assert forall|j: int| 0 <= j < n implies #[trigger] terms(j) == 0 by {
                if j == 0 {
                    crate::group::lemma_mul_identity(g, i);
                }
            }
            lemma_sum_zero(n, terms);
        }
        lemma_sum_single(n, rows, x);
        let terms = |j: int| term(g, c, e, x, j, x);
        assert forall|j: int| 0 <= j < n && j != 0 implies #[trigger] terms(j) == 0 by {}
        crate::group::lemma_mul_identity(g, x);
        lemma_sum_single(n, terms, 0);
    }
    assert(group_product(g, c, e) =~= c);
}

/// Reducing the right factor modulo `m` does not change the product modulo `m`.
pub proof fn lemma_product_reduce_right(g: GroupModel, a: Seq<int>, b: Seq<int>, x: int, m: int)
    requires
        m > 0,
    ensures
        convolution(g, a, reduce(b, m), x) % m == convolution(g, a, b, x) % m,
{
    let rb = reduce(b, m);
    assert forall|i: int| 0 <= i < a.len() implies #[trigger] row(g, a, rb, i, x) % m == row(
        g,
        a,
        b,
        i,
        x,
    ) % m by {
        assert forall|j: int| 0 <= j < b.len() implies #[trigger] term(g, a, rb, i, j, x) % m == term(
            g,
            a,
            b,
            i,
            j,
            x,
        ) % m by {
            if g.mul(i, j) == x {
                lemma_mul_mod_noop_right(a[i], b[j], m);
                lemma_mul_mod_noop_right(a[i], b[j] % m, m);
                lemma_mod_twice(b[j], m);
            }
        }
        lemma_sum_congruent(
            b.len() as int,
            |j: int| term(g, a, rb, i, j, x),
            |j: int| term(g, a, b, i, j, x),
            m,
        );
    }
    lemma_sum_congruent(
        a.len() as int,
        |i: int| row(g, a, rb, i, x),
        |i: int| row(g, a, b, i, x),
        m,
    );
}

/// Products of congruent factors are congruent: the residues of `a b`
/// modulo `m` depend only on the residues of `a` and `b`.
pub proof fn lemma_product_congruent(g: GroupModel, a: Seq<int>, a2: Seq<int>, b: Seq<int>, b2: Seq<int>, m: int)
    requires
        m > 0,
        reduce(a, m) == reduce(a2, m),
        reduce(b, m) == reduce(b2, m),
    ensures
        group_product_mod(g, a, b, m) == group_product_mod(g, a2, b2, m),
{
    assert forall|x: int| 0 <= x < g.order() implies #[trigger] group_product_mod(g, a, b, m)[x]
        == group_product_mod(g, a2, b2, m)[x] by {
        lemma_product_reduce_left(g, a, b, x, m);
        lemma_product_reduce_left(g, a2, b, x, m);
        lemma_product_reduce_right(g, a2, b, x, m);
        lemma_product_reduce_right(g, a2, b2, x, m);
        assert(reduce(a, m).len() == a.len());
        assert(a.len() == a2.len());
    }
    assert(group_product_mod(g, a, b, m) =~= group_product_mod(g, a2, b2, m));
}

/// Reduction commutes with the product: the product over the integers,
/// reduced modulo `m`, is the product modulo `m` of the reduced factors.
pub proof fn lemma_product_of_reductions(g: GroupModel, a: Seq<int>, b: Seq<int>, m: int)
    requires
        m > 0,
    ensures
        reduce(group_product(g, a, b), m) == group_product_mod(g, reduce(a, m), reduce(b, m), m),
{
    assert forall|k: int| 0 <= k < a.len() implies #[trigger] reduce(reduce(a, m), m)[k] == reduce(a, m)[k] by {
        lemma_mod_twice(a[k], m);
    }
    assert forall|k: int| 0 <= k < b.len() implies #[trigger] reduce(reduce(b, m), m)[k] == reduce(b, m)[k] by {
        lemma_mod_twice(b[k], m);
    }
    assert(reduce(reduce(a, m), m) =~= reduce(a, m));
    assert(reduce(reduce(b, m), m) =~= reduce(b, m));
    lemma_product_congruent(g, a, reduce(a, m), b, reduce(b, m), m);
}

/// Sums are affine: `sum(c f + h) == c sum(f) + sum(h)`.
pub proof fn lemma_sum_affine(n: int, f: spec_fn(int) -> int, h: spec_fn(int) -> int, c: int)
    ensures
        sum(n, |k: int| c * f(k) + h(k)) == c * sum(n, f) + sum(n, h),
    decreases n,
{
    if n > 0 {
        lemma_sum_affine(n - 1, f, h, c);
        lemma_mul_is_distributive_add(c, sum(n - 1, f), f(n - 1));
    }
}

/// `k b + c`, coefficientwise.
pub open spec fn affine(k: int, b: Seq<int>, c: Seq<int>) -> Seq<int> {
    Seq::new(b.len(), |y: int| k * b[y] + c[y])
}

/// The product is linear in its right factor: `a (k b + c) == k (a b) + a c`.
pub proof fn lemma_product_affine_right(g: GroupModel, a: Seq<int>, b: Seq<int>, c: Seq<int>, k: int, x: int)
    requires
        b.len() == c.len(),
    ensures
        convolution(g, a, affine(k, b, c), x) == k * convolution(g, a, b, x) + convolution(g, a, c, x),
{
    let bc = affine(k, b, c);
    let n = b.len() as int;
    let rows = |i: int| row(g, a, bc, i, x);
    let rb = |i: int| row(g, a, b, i, x);
    let rc = |i: int| row(g, a, c, i, x);
    let mixed = |i: int| k * rb(i) + rc(i);
    assert forall|i: int| 0 <= i < a.len() implies #[trigger] rows(i) == mixed(i) by {
        let tb = |j: int| term(g, a, b, i, j, x);
        let tc = |j: int| term(g, a, c, i, j, x);
        let t = |j: int| term(g, a, bc, i, j, x);
        let tm = |j: int| k * tb(j) + tc(j);
        assert forall|j: int| 0 <= j < n implies #[trigger] t(j) == tm(j) by {
            if g.mul(i, j) == x {
                assert(a[i] * (k * b[j] + c[j]) == k * (a[i] * b[j]) + a[i] * c[j]) by (nonlinear_arith);
            }
        }
        lemma_sum_ext(n, t, tm);
        lemma_sum_affine(n, tb, tc, k);
    }
    lemma_sum_ext(a.len() as int, rows, mixed);
    lemma_sum_affine(a.len() as int, rb, rc, k);
}

/// The product is linear in its left factor: `(k a + b) v == k (a v) + b v`.
pub proof fn lemma_product_affine_left(g: GroupModel, a: Seq<int>, b: Seq<int>, v: Seq<int>, k: int, x: int)
    requires
        a.len() == b.len(),
    ensures
        convolution(g, affine(k, a, b), v, x) == k * convolution(g, a, v, x) + convolution(g, b, v, x),
{
    let ab = affine(k, a, b);
    let n = a.len() as int;
    let lv = v.len() as int;
    let rows = |i: int| row(g, ab, v, i, x);
    let ra = |i: int| row(g, a, v, i, x);
    let rb = |i: int| row(g, b, v, i, x);
    let mixed = |i: int| k * ra(i) + rb(i);
    assert forall|i: int| 0 <= i < n implies #[trigger] rows(i) == mixed(i) by {
        let ta = |j: int| term(g, a, v, i, j, x);
        let tb = |j: int| term(g, b, v, i, j, x);
        let t = |j: int| term(g, ab, v, i, j, x);
        let tm = |j: int| k * ta(j) + tb(j);
        assert forall|j: int| 0 <= j < lv implies #[trigger] t(j) == tm(j) by {
            if g.mul(i, j) == x {
                assert((k * a[i] + b[i]) * v[j] == k * (a[i] * v[j]) + b[i] * v[j]) by (nonlinear_arith);
            }
        }
        lemma_sum_ext(lv, t, tm);
        lemma_sum_affine(lv, ta, tb, k);
    }
    lemma_sum_ext(n, rows, mixed);
    lemma_sum_affine(n, ra, rb, k);
}

/// `v 0 == 0`.
pub proof fn lemma_product_zero_right(g: GroupModel, v: Seq<int>, len: nat)
    ensures
        group_product(g, v, Seq::new(len, |i: int| 0int)) == Seq::new(g.order(), |x: int| 0int),
{
    let z = Seq::new(len, |i: int| 0int);
    assert forall|x: int| 0 <= x < g.order() implies #[trigger] group_product(g, v, z)[x] == 0 by {
        let rows = |i: int| row(g, v, z, i, x);
        assert forall|i: int| 0 <= i < v.len() implies #[trigger] rows(i) == 0 by {
            assert forall|j: int| 0 <= j < len implies #[trigger] term(g, v, z, i, j, x) == 0 by {}
            lemma_sum_zero(len as int, |j: int| term(g, v, z, i, j, x));
        }
        lemma_sum_zero(v.len() as int, rows);
    }
    assert(group_product(g, v, z) =~= Seq::new(g.order(), |x: int| 0int));
}

/// The product with the zero element is zero.
pub proof fn lemma_product_zero_left(g: GroupModel, len: nat, v: Seq<int>)
    ensures
        group_product(g, Seq::new(len, |i: int| 0int), v) == Seq::new(g.order(), |x: int| 0int),
{
    let z = Seq::new(len, |i: int| 0int);
    assert forall|x: int| 0 <= x < g.order() implies #[trigger] group_product(g, z, v)[x] == 0 by {
        let rows = |i: int| row(g, z, v, i, x);
        assert forall|i: int| 0 <= i < len implies #[trigger] rows(i) == 0 by {
            lemma_sum_zero(v.len() as int, |j: int| term(g, z, v, i, j, x));
        }
        lemma_sum_zero(len as int, rows);
    }
    assert(group_product(g, z, v) =~= Seq::new(g.order(), |x: int| 0int));
}
/// A left zero divisor of `Z_m[G]` has no inverse: no `a` gives `a e == 1`.
pub proof fn lemma_zero_divisor_not_invertible(g: GroupModel, e: Seq<int>, a: Seq<int>, m: int)
    requires
        g.wf(),
        m > 1,
        e.len() == g.order(),
        a.len() == g.order(),
        zero_divisor_mod(g, e, m),
    ensures
        group_product_mod(g, a, e, m) != one_mod_spec(g.order(), m),
{
    let n = g.order();
    let z = Seq::new(n, |x: int| 0int);
    let b = choose|b: Seq<int>|
        b.len() == n && nonzero_mod(b, m) && #[trigger] group_product_mod(g, e, b, m) == z;
    if group_product_mod(g, a, e, m) == one_mod_spec(n, m) {
        let ae = group_product(g, a, e);
        let eb = group_product(g, e, b);
        assert forall|k: int| 0 <= k < n implies #[trigger] reduce(unit_element(n), m)[k] == one_mod_spec(n, m)[k] by {
            lemma_small_mod(0, m as nat);
        }
        assert(reduce(unit_element(n), m) =~= one_mod_spec(n, m));
        // (a e) b == 1 b == b
        lemma_product_congruent(g, ae, unit_element(n), b, b, m);
        lemma_group_product_identity(g, b);
        // (a e) b == a (e b) == a 0 == 0
        lemma_group_product_associative(g, a, e, b);
        assert forall|k: int| 0 <= k < n implies #[trigger] reduce(z, m)[k] == z[k] by {
            lemma_small_mod(0, m as nat);
        }
        assert(reduce(z, m) =~= z);
        lemma_product_congruent(g, a, a, eb, z, m);
        lemma_product_zero_right(g, a, n);
        let k = choose|k: int| 0 <= k < b.len() && #[trigger] (b[k] % m) != 0;
        assert(reduce(b, m)[k] == reduce(z, m)[k]);
    }
}


/// A left zero divisor of `Z_m[G]` is not left invertible.
pub proof fn lemma_zero_divisor_not_left_invertible(g: GroupModel, e: Seq<int>, m: int)
    requires
        g.wf(),
        m > 1,
        e.len() == g.order(),
        zero_divisor_mod(g, e, m),
    ensures
        !left_invertible_mod(g, e, m),
{
    if left_invertible_mod(g, e, m) {
        let v = choose|v: Seq<int>|
            v.len() == g.order() && #[trigger] group_product_mod(g, v, e, m) == one_mod_spec(g.order(), m);
        lemma_zero_divisor_not_invertible(g, e, v, m);
    }
}
} // verus!
