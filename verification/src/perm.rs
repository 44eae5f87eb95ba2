//! Permutations in lexicographic order.
use vstd::arithmetic::mul::*;
use vstd::arithmetic::power::*;
use vstd::prelude::*;

verus! {

/// No value occurs twice in `s`.
pub open spec fn injective(s: Seq<usize>) -> bool {
    forall|i: int, j: int| 0 <= i < j < s.len() ==> s[i] != s[j]
}

/// `s` is a permutation of `0..n`, written as its image vector.
pub open spec fn is_permutation(s: Seq<usize>, n: nat) -> bool {
    &&& s.len() == n
    &&& injective(s)
    &&& forall|i: int| 0 <= i < n ==> #[trigger] s[i] < n
    &&& forall|x: usize| x < n ==> #[trigger] s.contains(x)
}

/// Strict lexicographic order on sequences of equal length.
pub open spec fn lex_lt(a: Seq<usize>, b: Seq<usize>) -> bool {
    &&& a.len() == b.len()
    &&& exists|k: int|
        0 <= k < a.len() && #[trigger] a[k] < b[k] && forall|t: int| 0 <= t < k ==> a[t] == b[t]
}

/// `a` and `b` hold the same distinct values, possibly in another order.
pub open spec fn rearranges(a: Seq<usize>, b: Seq<usize>) -> bool {
    &&& a.len() == b.len()
    &&& injective(a)
    &&& injective(b)
    &&& forall|x: usize| a.contains(x) <==> b.contains(x)
}

/// The entries of `s` from index `k` on strictly decrease.
pub open spec fn descending_from(s: Seq<usize>, k: int) -> bool {
    forall|i: int, j: int| k <= i < j < s.len() ==> s[i] > s[j]
}

/// The entries of `s` from index `k` on strictly increase.
pub open spec fn ascending_from(s: Seq<usize>, k: int) -> bool {
    forall|i: int, j: int| k <= i < j < s.len() ==> s[i] < s[j]
}

/// The identity permutation `[0, 1, ..., n-1]`.
pub open spec fn identity_perm(n: nat) -> Seq<usize> {
    Seq::new(n, |i: int| i as usize)
}

/// `l` lists every permutation of `0..n` exactly once, in increasing
/// lexicographic order.
pub open spec fn is_sorted_permutation_list(l: Seq<Seq<usize>>, n: nat) -> bool {
    &&& forall|i: int| 0 <= i < l.len() ==> is_permutation(#[trigger] l[i], n)
    &&& forall|i: int, j: int| 0 <= i < j < l.len() ==> lex_lt(#[trigger] l[i], #[trigger] l[j])
    &&& forall|p: Seq<usize>| is_permutation(p, n) ==> #[trigger] l.contains(p)
}

/// The lexicographic order is transitive.
pub proof fn lemma_lex_transitive(a: Seq<usize>, b: Seq<usize>, c: Seq<usize>)
    requires
        lex_lt(a, b),
        lex_lt(b, c),
    ensures
        lex_lt(a, c),
{
    let k1 = choose|k: int|
        0 <= k < a.len() && #[trigger] a[k] < b[k] && forall|t: int| 0 <= t < k ==> a[t] == b[t];
    let k2 = choose|k: int|
        0 <= k < b.len() && #[trigger] b[k] < c[k] && forall|t: int| 0 <= t < k ==> b[t] == c[t];
    if k1 <= k2 {
        assert(a[k1] < c[k1]);
    } else {
        assert(a[k2] < c[k2]);
    }
}

/// The lexicographic order is asymmetric.
pub proof fn lemma_lex_asymmetric(a: Seq<usize>, b: Seq<usize>)
    requires
        lex_lt(a, b),
    ensures
        !lex_lt(b, a),
        a != b,
{
    let k1 = choose|k: int|
        0 <= k < a.len() && #[trigger] a[k] < b[k] && forall|t: int| 0 <= t < k ==> a[t] == b[t];
    if lex_lt(b, a) {
        let k2 = choose|k: int|
            0 <= k < b.len() && #[trigger] b[k] < a[k] && forall|t: int| 0 <= t < k ==> b[t] == a[t];
        if k1 < k2 {
            assert(b[k1] == a[k1]);
        } else if k2 < k1 {
            assert(a[k2] == b[k2]);
        }
    }
    assert(a[k1] != b[k1]);
}

proof fn lemma_lex_total_from(a: Seq<usize>, b: Seq<usize>, k: int)
    requires
        a.len() == b.len(),
        0 <= k <= a.len(),
        forall|t: int| 0 <= t < k ==> a[t] == b[t],
    ensures
        a == b || lex_lt(a, b) || lex_lt(b, a),
    decreases a.len() - k,
{
    if k == a.len() {
        assert(a =~= b);
    } else if a[k] < b[k] {
        assert(lex_lt(a, b));
    } else if b[k] < a[k] {
        assert(forall|t: int| 0 <= t < k ==> b[t] == a[t]);
        assert(lex_lt(b, a));
    } else {
        lemma_lex_total_from(a, b, k + 1);
    }
}

/// Any two sequences of equal length are equal or ordered one way or the other.
pub proof fn lemma_lex_total(a: Seq<usize>, b: Seq<usize>)
    requires
        a.len() == b.len(),
    ensures
        a == b || lex_lt(a, b) || lex_lt(b, a),
{
    lemma_lex_total_from(a, b, 0);
}

/// If `a` agrees with its rearrangement `b` below `k` and decreases from `k`
/// on, no rearrangement is above it.
proof fn lemma_descending_is_max(a: Seq<usize>, b: Seq<usize>, k: int)
    requires
        rearranges(a, b),
        0 <= k,
        forall|t: int| 0 <= t < k && t < a.len() ==> a[t] == b[t],
        descending_from(a, k),
    ensures
        !lex_lt(a, b),
{
    if lex_lt(a, b) {
        let t = choose|t: int|
            0 <= t < a.len() && #[trigger] a[t] < b[t] && forall|s: int| 0 <= s < t ==> a[s] == b[s];
        assert(b.contains(b[t]));
        assert(a.contains(b[t]));
        let u = choose|u: int| 0 <= u < a.len() && a[u] == b[t];
        if u < t {
            assert(b[u] == a[u]);
        } else if u > t {
            assert(a[u] < a[t]);
        }
    }
}

/// If `a` agrees with its rearrangement `b` below `k` and increases from `k`
/// on, no rearrangement is below it.
proof fn lemma_ascending_is_min(a: Seq<usize>, b: Seq<usize>, k: int)
    requires
        rearranges(a, b),
        0 <= k,
        forall|t: int| 0 <= t < k && t < a.len() ==> a[t] == b[t],
        ascending_from(a, k),
    ensures
        !lex_lt(b, a),
{
    if lex_lt(b, a) {
        let t = choose|t: int|
            0 <= t < a.len() && #[trigger] b[t] < a[t] && forall|s: int| 0 <= s < t ==> b[s] == a[s];
        assert(b.contains(b[t]));
        assert(a.contains(b[t]));
        let u = choose|u: int| 0 <= u < a.len() && a[u] == b[t];
        if u < t {
            assert(b[u] == a[u]);
        } else if u > t {
            assert(a[u] > a[t]);
        }
    }
}

proof fn lemma_rearranges_transitive(a: Seq<usize>, b: Seq<usize>, c: Seq<usize>)
    requires
        rearranges(a, b),
        rearranges(b, c),
    ensures
        rearranges(a, c),
{
}

proof fn lemma_rearranges_symmetric(a: Seq<usize>, b: Seq<usize>)
    requires
        rearranges(a, b),
    ensures
        rearranges(b, a),
{
}

/// Two permutations of `0..n` rearrange each other.
pub proof fn lemma_permutations_rearrange(a: Seq<usize>, b: Seq<usize>, n: nat)
    requires
        is_permutation(a, n),
        is_permutation(b, n),
    ensures
        rearranges(a, b),
{
    assert forall|x: usize| a.contains(x) implies b.contains(x) by {
        let i = choose|i: int| 0 <= i < a.len() && a[i] == x;
        assert(a[i] < n);
    }
    assert forall|x: usize| b.contains(x) implies a.contains(x) by {
        let i = choose|i: int| 0 <= i < b.len() && b[i] == x;
        assert(b[i] < n);
    }
}

/// A rearrangement of a permutation is a permutation.
proof fn lemma_rearrangement_is_permutation(a: Seq<usize>, b: Seq<usize>, n: nat)
    requires
        is_permutation(a, n),
        rearranges(a, b),
    ensures
        is_permutation(b, n),
{
    assert forall|i: int| 0 <= i < n implies #[trigger] b[i] < n by {
        assert(b.contains(b[i]));
        assert(a.contains(b[i]));
        let u = choose|u: int| 0 <= u < a.len() && a[u] == b[i];
        assert(a[u] < n);
    }
    assert forall|x: usize| x < n implies #[trigger] b.contains(x) by {
        assert(a.contains(x));
    }
}

/// The swap of positions `i` and `j` rearranges an injective sequence.
proof fn lemma_swap_rearranges(p: Seq<usize>, i: int, j: int)
    requires
        injective(p),
        0 <= i < j < p.len(),
    ensures
        rearranges(p, p.update(i, p[j]).update(j, p[i])),
{
    let q = p.update(i, p[j]).update(j, p[i]);
    assert forall|a: int, b: int| 0 <= a < b < q.len() implies q[a] != q[b] by {
        let sa = if a == i { j } else if a == j { i } else { a };
        let sb = if b == i { j } else if b == j { i } else { b };
        assert(q[a] == p[sa] && q[b] == p[sb]);
        assert(sa != sb);
        if sa < sb {
            assert(p[sa] != p[sb]);
        } else {
            assert(p[sb] != p[sa]);
        }
    }
    assert forall|x: usize| p.contains(x) implies q.contains(x) by {
        let u = choose|u: int| 0 <= u < p.len() && p[u] == x;
        let su = if u == i { j } else if u == j { i } else { u };
        assert(q[su] == x);
    }
    assert forall|x: usize| q.contains(x) implies p.contains(x) by {
        let u = choose|u: int| 0 <= u < q.len() && q[u] == x;
        let su = if u == i { j } else if u == j { i } else { u };
        assert(p[su] == x);
    }
}

/// The reversal of the suffix from `k` on rearranges an injective sequence.
proof fn lemma_reverse_suffix_rearranges(p: Seq<usize>, q: Seq<usize>, k: int)
    requires
        injective(p),
        0 <= k <= p.len(),
        q.len() == p.len(),
        forall|t: int| 0 <= t < k ==> q[t] == p[t],
        forall|t: int| k <= t < p.len() ==> q[t] == p[p.len() - 1 + k - t],
    ensures
        rearranges(p, q),
{
    let n = p.len();
    assert forall|a: int, b: int| 0 <= a < b < q.len() implies q[a] != q[b] by {
        let sa = if a < k { a } else { n - 1 + k - a };
        let sb = if b < k { b } else { n - 1 + k - b };
        assert(q[a] == p[sa] && q[b] == p[sb]);
        assert(sa != sb);
        if sa < sb {
            assert(p[sa] != p[sb]);
        } else {
            assert(p[sb] != p[sa]);
        }
    }
    assert forall|x: usize| p.contains(x) implies q.contains(x) by {
        let u = choose|u: int| 0 <= u < p.len() && p[u] == x;
        let su = if u < k { u } else { n - 1 + k - u };
        assert(q[su] == x);
    }
    assert forall|x: usize| q.contains(x) implies p.contains(x) by {
        let u = choose|u: int| 0 <= u < q.len() && q[u] == x;
        let su = if u < k { u } else { n - 1 + k - u };
        assert(p[su] == x);
    }
}

/// The step of `next_permutation` yields the lexicographic successor of an
/// injective sequence among its rearrangements.
proof fn lemma_successor(p: Seq<usize>, q: Seq<usize>, i: int, j: int)
    requires
        injective(p),
        0 <= i < j < p.len(),
        p[i] < p[i + 1],
        descending_from(p, i + 1),
        p[j] > p[i],
        forall|t: int| j < t < p.len() ==> p[t] < p[i],
        q.len() == p.len(),
        forall|t: int| 0 <= t < i ==> q[t] == p[t],
        q[i] == p[j],
        forall|t: int|
            i < t < p.len() ==> q[t] == p.update(i, p[j]).update(j, p[i])[p.len() + i - t],
    ensures
        rearranges(p, q),
        lex_lt(p, q),
        forall|w: Seq<usize>| rearranges(p, w) && lex_lt(p, w) ==> q == w || lex_lt(q, w),
{
    let n = p.len();
    let p1 = p.update(i, p[j]).update(j, p[i]);
    lemma_swap_rearranges(p, i, j);
    assert forall|t: int| 0 <= t < i + 1 implies q[t] == p1[t] by {}
    assert forall|t: int| i + 1 <= t < n implies q[t] == p1[n - 1 + (i + 1) - t] by {}
    lemma_reverse_suffix_rearranges(p1, q, i + 1);
    lemma_rearranges_transitive(p, p1, q);
    // the swapped suffix still decreases, so the reversed one increases
    assert(descending_from(p1, i + 1)) by {
        assert forall|a: int, b: int| i + 1 <= a < b < n implies p1[a] > p1[b] by {
            if a == j {
                assert(p[b] < p[i]);
            } else if b == j {
                assert(p[a] >= p[j]);
            }
        }
    }
    assert(ascending_from(q, i + 1));
    assert(q[i] > p[i]);
    assert(lex_lt(p, q));
    assert forall|w: Seq<usize>| rearranges(p, w) && lex_lt(p, w) implies q == w || lex_lt(q, w) by {
        let k = choose|k: int|
            0 <= k < p.len() && #[trigger] p[k] < w[k] && forall|t: int| 0 <= t < k ==> p[t] == w[t];
        if k < i {
            assert(q[k] == p[k]);
            assert(lex_lt(q, w));
        } else if k > i {
            lemma_descending_is_max(p, w, k);
        } else {
            // k == i: w[i] comes from the suffix of p and exceeds p[i]
            assert(w.contains(w[i]));
            let u = choose|u: int| 0 <= u < p.len() && p[u] == w[i];
            if u < i {
                assert(w[u] == p[u]);
                assert(false);
            }
            assert(u > i);
            if u > j {
                assert(p[u] < p[i]);
                assert(false);
            }
            if u < j {
                assert(p[u] > p[j]);
            }
            assert(w[i] >= q[i]);
            if w[i] > q[i] {
                assert(forall|t: int| 0 <= t < i ==> q[t] == w[t]);
                assert(lex_lt(q, w));
            } else {
                lemma_rearranges_symmetric(p, q);
                lemma_rearranges_transitive(q, p, w);
                lemma_ascending_is_min(q, w, i + 1);
                lemma_lex_total(q, w);
            }
        }
    }
}

/// Reverse `values[start..]` in place.
fn reverse_suffix(values: &mut [usize], start: usize)
    requires
        start <= old(values)@.len(),
    ensures
        final(values)@.len() == old(values)@.len(),
        forall|t: int| 0 <= t < start ==> final(values)@[t] == old(values)@[t],
        forall|t: int|
            start <= t < old(values)@.len() ==> final(values)@[t] == old(values)@[old(
                values,
            )@.len() - 1 + start - t],
{
    let len = values.len();
    if len == 0 {
        return;
    }
    let ghost v0 = values@;
    let mut lo = start;
    let mut hi = len - 1;
    while lo < hi
        invariant
            values@.len() == len,
            v0.len() == len,
            len > 0,
            start <= lo,
            hi < len,
            lo + hi == len - 1 + start,
            lo <= hi + 1,
            forall|t: int| 0 <= t < start ==> values@[t] == v0[t],
            forall|t: int| start <= t < lo ==> values@[t] == v0[len - 1 + start - t],
            forall|t: int| hi < t < len ==> values@[t] == v0[len - 1 + start - t],
            forall|t: int| lo <= t <= hi ==> values@[t] == v0[t],
        decreases hi + 1 - lo,
    {
        let tmp = values[lo];
        values[lo] = values[hi];
        values[hi] = tmp;
        lo = lo + 1;
        hi = hi - 1;
    }
}

/// Advance `values` to the next permutation in lexicographic order.
/// Returns `false`, after reversing `values`, when it was the last one.
#[verifier::rlimit(60)]
fn next_permutation(values: &mut [usize]) -> (r: bool)
    ensures
        final(values)@.len() == old(values)@.len(),
        !r ==> final(values)@ == old(values)@.reverse(),
        !r ==> forall|a: int, b: int|
            0 <= a < b < old(values)@.len() ==> old(values)@[a] >= old(values)@[b],
        r ==> exists|t: int| 0 <= t < old(values)@.len() - 1 && #[trigger] old(values)@[t] < old(values)@[t + 1],
        injective(old(values)@) ==> rearranges(old(values)@, final(values)@),
        r && injective(old(values)@) ==> lex_lt(old(values)@, final(values)@),
        r && injective(old(values)@) ==> forall|w: Seq<usize>|
            rearranges(old(values)@, w) && lex_lt(old(values)@, w) ==> final(values)@ == w
                || lex_lt(final(values)@, w),
{
    let ghost p = values@;
    let len = values.len();
    if len < 2 {
        assert(p.reverse() =~= p);
        return false;
    }
    let mut pivot = len - 2;
    let mut last = false;
    while values[pivot] >= values[pivot + 1]
        invariant_except_break
            !last,
        invariant
            values@ == p,
            len == p.len(),
            len >= 2,
            pivot <= len - 2,
            forall|a: int, b: int| pivot < a < b < len ==> p[a] >= p[b],
        ensures
            values@ == p,
            pivot <= len - 2,
            last ==> pivot == 0 && forall|a: int, b: int| 0 <= a < b < len ==> p[a] >= p[b],
            !last ==> p[pivot as int] < p[pivot + 1] && forall|a: int, b: int|
                pivot < a < b < len ==> p[a] >= p[b],
        decreases pivot,
    {
        if pivot == 0 {
            last = true;
            break;
        }
        pivot = pivot - 1;
    }
    if last {
        reverse_suffix(values, 0);
        assert(values@ =~= p.reverse());
        proof {
            if injective(p) {
                lemma_reverse_suffix_rearranges(p, values@, 0);
            }
        }
        return false;
    }
    let mut successor = len - 1;
    while values[successor] <= values[pivot]
        invariant
            values@ == p,
            len == p.len(),
            pivot < successor < len,
            p[pivot as int] < p[pivot + 1],
            forall|t: int| successor < t < len ==> p[t] <= p[pivot as int],
        decreases successor,
    {
        successor = successor - 1;
    }
    let a = values[pivot];
    values[pivot] = values[successor];
    values[successor] = a;
    let ghost p1 = values@;
    assert(p1 =~= p.update(pivot as int, p[successor as int]).update(successor as int, p[pivot as int]));
    reverse_suffix(values, pivot + 1);
    proof {
        if injective(p) {
            lemma_next_step(p, values@, pivot as int, successor as int);
        }
    }
    true
}

proof fn lemma_next_step(p: Seq<usize>, q: Seq<usize>, i: int, j: int)
    requires
        injective(p),
        0 <= i < j < p.len(),
        p[i] < p[i + 1],
        forall|a: int, b: int| i < a < b < p.len() ==> p[a] >= p[b],
        p[j] > p[i],
        forall|t: int| j < t < p.len() ==> p[t] <= p[i],
        q.len() == p.len(),
        forall|t: int| 0 <= t < i ==> q[t] == p.update(i, p[j]).update(j, p[i])[t],
        q[i] == p.update(i, p[j]).update(j, p[i])[i],
        forall|t: int|
            i + 1 <= t < p.len() ==> q[t] == p.update(i, p[j]).update(j, p[i])[p.len() - 1 + (i
                + 1) - t],
    ensures
        rearranges(p, q),
        lex_lt(p, q),
        forall|w: Seq<usize>| rearranges(p, w) && lex_lt(p, w) ==> q == w || lex_lt(q, w),
{
    lemma_successor(p, q, i, j);
}


/// The image vectors of a list of permutations.
pub open spec fn rows_of<T>(v: Seq<Vec<T>>) -> Seq<Seq<T>> {
    v.map_values(|r: Vec<T>| r@)
}

/// The value of `s` read as the digits of a base-`n` numeral.
pub open spec fn lex_rank(s: Seq<usize>, n: nat) -> nat
    decreases s.len(),
{
    if s.len() == 0 {
        0
    } else {
        lex_rank(s.drop_last(), n) * n + s.last() as nat
    }
}

/// Base-`n` numerals with digits below `n` are ordered lexicographically.
proof fn lemma_lex_rank_increases(a: Seq<usize>, b: Seq<usize>, n: nat)
    requires
        lex_lt(a, b),
        forall|i: int| 0 <= i < a.len() ==> #[trigger] a[i] < n,
        forall|i: int| 0 <= i < b.len() ==> #[trigger] b[i] < n,
    ensures
        lex_rank(a, n) < lex_rank(b, n),
    decreases a.len(),
{
    let k = choose|k: int|
        0 <= k < a.len() && #[trigger] a[k] < b[k] && forall|t: int| 0 <= t < k ==> a[t] == b[t];
    let a1 = a.drop_last();
    let b1 = b.drop_last();
    if k == a.len() - 1 {
        assert(a1 =~= b1);
    } else {
        assert(a1[k] < b1[k]);
        assert(lex_lt(a1, b1));
        lemma_lex_rank_increases(a1, b1, n);
        let ra = lex_rank(a1, n);
        let rb = lex_rank(b1, n);
        assert(ra * n + a.last() < rb * n) by (nonlinear_arith)
            requires
                ra < rb,
                a.last() < n,
        ;
    }
}

/// A base-`n` numeral of length `len` is below `n^len`.
proof fn lemma_lex_rank_bound(s: Seq<usize>, n: nat)
    requires
        forall|i: int| 0 <= i < s.len() ==> #[trigger] s[i] < n,
    ensures
        lex_rank(s, n) < pow(n as int, s.len()),
    decreases s.len(),
{
    reveal(pow);
    if s.len() > 0 {
        let s1 = s.drop_last();
        assert forall|i: int| 0 <= i < s1.len() implies #[trigger] s1[i] < n by {
            assert(s1[i] == s[i]);
        }
        lemma_lex_rank_bound(s1, n);
        let r = lex_rank(s1, n);
        let p = pow(n as int, s1.len());
        assert(r * n + s.last() < p * n) by (nonlinear_arith)
            requires
                r < p,
                s.last() < n,
        ;
        lemma_mul_is_commutative(p, n as int);
    }
}

/// Every permutation of `0..n`, in increasing lexicographic order.
pub(crate) fn all_permutations(n: usize) -> (out: Vec<Vec<usize>>)
    ensures
        is_sorted_permutation_list(rows_of(out@), n as nat),
        out.len() >= 1,
        rows_of(out@)[0] == identity_perm(n as nat),
{
    let mut current: Vec<usize> = Vec::new();
    for i in 0..n
        invariant
            current@ == identity_perm(i as nat),
    {
        current.push(i);
        assert(current@ =~= identity_perm((i + 1) as nat));
    }
    let ghost id = current@;
    assert(is_permutation(id, n as nat)) by {
        assert forall|x: usize| x < n implies #[trigger] id.contains(x) by {
            assert(id[x as int] == x);
        }
    }
    let mut out: Vec<Vec<usize>> = Vec::new();
    let first = current.clone();
    assert(first@ =~= current@);
    out.push(first);
    proof {
        assert forall|p: Seq<usize>|
            is_permutation(p, n as nat) && (p == id || lex_lt(p, id)) implies rows_of(out@).contains(p) by {
            if lex_lt(p, id) {
                lemma_permutations_rearrange(id, p, n as nat);
                lemma_ascending_is_min(id, p, 0);
            }
            assert(rows_of(out@)[0] == p);
        }
        lemma_lex_rank_bound(id, n as nat);
    }
    loop
        invariant_except_break
            is_permutation(current@, n as nat),
            rows_of(out@).last() == current@,
            forall|p: Seq<usize>|
                is_permutation(p, n as nat) && (p == current@ || lex_lt(p, current@))
                    ==> #[trigger] rows_of(out@).contains(p),
            lex_rank(current@, n as nat) < pow(n as int, n as nat),
        invariant
            out.len() >= 1,
            rows_of(out@)[0] == id,
            forall|i: int|
                0 <= i < out.len() ==> is_permutation(#[trigger] rows_of(out@)[i], n as nat),
            forall|i: int, j: int|
                0 <= i < j < out.len() ==> lex_lt(
                    #[trigger] rows_of(out@)[i],
                    #[trigger] rows_of(out@)[j],
                ),
        ensures
            is_sorted_permutation_list(rows_of(out@), n as nat),
            out.len() >= 1,
            rows_of(out@)[0] == id,
        decreases pow(n as int, n as nat) - lex_rank(current@, n as nat),
    {
        let ghost before = current@;
        let ghost rows = rows_of(out@);
        let more = next_permutation(current.as_mut_slice());
        if !more {
            proof {
                assert(descending_from(before, 0));
                assert forall|p: Seq<usize>| is_permutation(p, n as nat) implies #[trigger] rows.contains(
                    p,
                ) by {
                    lemma_permutations_rearrange(before, p, n as nat);
                    lemma_descending_is_max(before, p, 0);
                    lemma_lex_total(before, p);
                }
            }
            break;
        }
        proof {
            lemma_rearrangement_is_permutation(before, current@, n as nat);
            lemma_lex_rank_increases(before, current@, n as nat);
            lemma_lex_rank_bound(current@, n as nat);
        }
        let next = current.clone();
        assert(next@ =~= current@);
        out.push(next);
        proof {
            let rows2 = rows_of(out@);
            assert(rows2 =~= rows.push(current@));
            assert forall|i: int, j: int| 0 <= i < j < out.len() implies lex_lt(
                #[trigger] rows2[i],
                #[trigger] rows2[j],
            ) by {
                if j == out.len() - 1 {
                    if i < out.len() - 2 {
                        assert(lex_lt(rows[i], before));
                        lemma_lex_transitive(rows[i], before, current@);
                    }
                }
            }
            assert forall|p: Seq<usize>|
                is_permutation(p, n as nat) && (p == current@ || lex_lt(p, current@)) implies #[trigger] rows2.contains(
                p,
            ) by {
                lemma_lex_total(p, before);
                if p == before || lex_lt(p, before) {
                    assert(rows.contains(p));
                    let k = choose|k: int| 0 <= k < rows.len() && rows[k] == p;
                    assert(rows2[k] == p);
                } else {
                    lemma_permutations_rearrange(before, p, n as nat);
                    if lex_lt(current@, p) {
                        lemma_lex_asymmetric(current@, p);
                    }
                    assert(p == current@);
                    assert(rows2[rows2.len() - 1] == p);
                }
            }
        }
    }
    out
}

/// A complete list of the permutations of `0..n` is not empty: it lists the identity.
pub proof fn lemma_identity_listed(l: Seq<Seq<usize>>, n: nat)
    requires
        is_sorted_permutation_list(l, n),
        n <= usize::MAX,
    ensures
        l.len() > 0,
{
    let id = identity_perm(n);
    assert forall|x: usize| x < n implies #[trigger] id.contains(x) by {
        assert(id[x as int] == x);
    }
    assert(is_permutation(id, n));
    assert(l.contains(id));
}
} // verus!
