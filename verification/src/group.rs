//! Explicit finite groups with a fixed ordering of their elements.
use crate::error::NtruError;
use crate::perm::{
    all_permutations, identity_perm, is_permutation, is_sorted_permutation_list, lemma_lex_asymmetric,
    lemma_lex_transitive, rows_of,
};
use crate::text::{decimal, push_decimal};
use vstd::arithmetic::div_mod::*;
use vstd::prelude::*;

verus! {

/// Group families currently implemented by the crate.
#[derive(Clone, Copy, Debug, PartialEq, Eq, Structural)]
pub enum GroupKind {
    /// The cyclic group `C_n`.
    Cyclic,
    /// The dihedral group with rotation order `n`, of order `2n`.
    Dihedral,
    /// The symmetric group `S_n`.
    Symmetric,
}

/// An explicit finite group with a fixed coefficient ordering.
#[derive(Clone, Debug)]
pub struct FiniteGroup {
    kind: GroupKind,
    n: usize,
    name: String,
    elements: Vec<Vec<usize>>,
}

/// The mathematical content of a `FiniteGroup`.
pub struct GroupModel {
    pub kind: GroupKind,
    pub n: nat,
    pub name: Seq<char>,
    pub elements: Seq<Seq<usize>>,
}

/// The composition `p o q` of two image vectors: `i` goes to `p[q[i]]`.
pub open spec fn compose(p: Seq<usize>, q: Seq<usize>) -> Seq<usize> {
    Seq::new(q.len(), |i: int| p[q[i] as int])
}

/// The position of `x` in `l` (meaningful when `x` occurs in `l`).
pub open spec fn index_of(l: Seq<Seq<usize>>, x: Seq<usize>) -> int {
    choose|k: int| 0 <= k < l.len() && l[k] == x
}

/// The product in `D_{2n}` of the elements with indices `lhs` and `rhs`, where
/// index `k < n` stands for the rotation `r^k` and index `n + k` for the
/// reflection `s r^k`.
pub open spec fn dihedral_mul(n: int, lhs: int, rhs: int) -> int {
    let lhs_k = if lhs >= n { lhs - n } else { lhs };
    let rhs_k = if rhs >= n { rhs - n } else { rhs };
    if lhs < n && rhs < n {
        (lhs_k + rhs_k) % n
    } else if lhs < n {
        n + (rhs_k + n - lhs_k) % n
    } else if rhs < n {
        n + (lhs_k + rhs_k) % n
    } else {
        (rhs_k + n - lhs_k) % n
    }
}

/// The index vectors `[[0], [1], ..., [m - 1]]`.
pub open spec fn singleton_indices(m: nat) -> Seq<Seq<usize>> {
    Seq::new(m, |i: int| seq![i as usize])
}

/// The display name of a group of the given family and parameter.
pub open spec fn group_name(kind: GroupKind, n: nat) -> Seq<char> {
    match kind {
        GroupKind::Cyclic => seq!['C'] + decimal(n),
        GroupKind::Dihedral => seq!['D'] + decimal(n) + " (order "@ + decimal(2 * n) + seq![')'],
        GroupKind::Symmetric => seq!['S'] + decimal(n),
    }
}

impl GroupModel {
    /// The number of group elements.
    pub open spec fn order(self) -> nat {
        self.elements.len()
    }

    /// The index of the product of the elements with indices `i` and `j`.
    pub open spec fn mul(self, i: int, j: int) -> int {
        match self.kind {
            GroupKind::Cyclic => (i + j) % (self.n as int),
            GroupKind::Dihedral => dihedral_mul(self.n as int, i, j),
            GroupKind::Symmetric => index_of(
                self.elements,
                compose(self.elements[i], self.elements[j]),
            ),
        }
    }

    /// The shape every constructed group has.
    pub open spec fn wf(self) -> bool {
        &&& self.n <= usize::MAX
        &&& self.name == group_name(self.kind, self.n)
        &&& match self.kind {
            GroupKind::Cyclic => 0 < self.n < usize::MAX / 2 && self.elements == singleton_indices(
                self.n,
            ),
            GroupKind::Dihedral => 3 <= self.n <= usize::MAX / 4 && self.elements
                == singleton_indices(2 * self.n),
            GroupKind::Symmetric => self.n > 0 && is_sorted_permutation_list(
                self.elements,
                self.n,
            ) && self.elements[0] == identity_perm(self.n),
        }
    }
}

impl View for FiniteGroup {
    type V = GroupModel;

    closed spec fn view(&self) -> GroupModel {
        GroupModel {
            kind: self.kind,
            n: self.n as nat,
            name: self.name@,
            elements: rows_of(self.elements@),
        }
    }
}

fn singleton_elements(m: usize) -> (r: Vec<Vec<usize>>)
    ensures
        rows_of(r@) == singleton_indices(m as nat),
{
    let mut out: Vec<Vec<usize>> = Vec::new();
    for i in 0..m
        invariant
            rows_of(out@) == singleton_indices(i as nat),
    {
        let mut v: Vec<usize> = Vec::new();
        v.push(i);
        assert(v@ =~= seq![i]);
        let ghost before = out@;
        out.push(v);
        assert(rows_of(out@) =~= rows_of(before).push(seq![i]));
        assert(rows_of(out@) =~= singleton_indices((i + 1) as nat));
    }
    out
}

impl FiniteGroup {
    /// Construct the cyclic group `C_n`.
    pub fn cyclic(n: usize) -> (r: Result<Self, NtruError>)
        requires
            n <= usize::MAX / 4,
        ensures
            n == 0 <==> r is Err,
            r matches Err(e) ==> (e matches NtruError::InvalidParameters(m) && m@
                == "n must be positive"@),
            r matches Ok(g) ==> g@.wf() && g@.kind == GroupKind::Cyclic && g@.n == n,
    {
        if n == 0 {
            return Err(NtruError::InvalidParameters(String::from_str("n must be positive")));
        }
        let mut name = String::from_str("C");
        push_decimal(&mut name, n as u64);
        proof {
            reveal_strlit("C");
            assert(name@ =~= group_name(GroupKind::Cyclic, n as nat));
        }
        let elements = singleton_elements(n);
        let g = Self { kind: GroupKind::Cyclic, n, name, elements };
        assert(g@.elements == singleton_indices(n as nat));
        Ok(g)
    }


    /// Construct the dihedral group with rotation order `n`, of order `2n`.
    pub fn dihedral(n: usize) -> (r: Result<Self, NtruError>)
        requires
            n <= usize::MAX / 4,
        ensures
            n < 3 <==> r is Err,
            r matches Err(e) ==> (e matches NtruError::InvalidParameters(m) && m@
                == "dihedral rotation order must be at least 3"@),
            r matches Ok(g) ==> g@.wf() && g@.kind == GroupKind::Dihedral && g@.n == n,
    {
        if n < 3 {
            return Err(
                NtruError::InvalidParameters(
                    String::from_str("dihedral rotation order must be at least 3"),
                ),
            );
        }
        let mut name = String::from_str("D");
        push_decimal(&mut name, n as u64);
        name.append(" (order ");
        push_decimal(&mut name, (2 * n) as u64);
        name.append(")");
        proof {
            reveal_strlit("D");
            reveal_strlit(")");
            assert(name@ =~= group_name(GroupKind::Dihedral, n as nat));
        }
        let elements = singleton_elements(2 * n);
        Ok(Self { kind: GroupKind::Dihedral, n, name, elements })
    }

    /// Construct the symmetric group `S_n`, its elements listed in
    /// lexicographic order of their image vectors.
    pub fn symmetric(n: usize) -> (r: Result<Self, NtruError>)
        ensures
            n == 0 <==> r is Err,
            r matches Err(e) ==> (e matches NtruError::InvalidParameters(m) && m@
                == "n must be positive"@),
            r matches Ok(g) ==> g@.wf() && g@.kind == GroupKind::Symmetric && g@.n == n,
    {
        if n == 0 {
            return Err(NtruError::InvalidParameters(String::from_str("n must be positive")));
        }
        let elements = all_permutations(n);
        let mut name = String::from_str("S");
        push_decimal(&mut name, n as u64);
        proof {
            reveal_strlit("S");
            assert(name@ =~= group_name(GroupKind::Symmetric, n as nat));
        }
        Ok(Self { kind: GroupKind::Symmetric, n, name, elements })
    }

    /// Return the group family.
    pub fn kind(&self) -> (r: &GroupKind)
        ensures
            *r == self@.kind,
    {
        &self.kind
    }

    /// Return the group parameter.
    pub fn n(&self) -> (r: usize)
        ensures
            r == self@.n,
    {
        self.n
    }

    /// Return the display name.
    pub fn name(&self) -> (r: &str)
        ensures
            r@ == self@.name,
    {
        self.name.as_str()
    }

    /// Return the group order.
    pub fn order(&self) -> (r: usize)
        ensures
            r == self@.order(),
    {
        self.elements.len()
    }

    /// Return the coefficient ordering.
    pub fn elements(&self) -> (r: &[Vec<usize>])
        ensures
            rows_of(r@) == self@.elements,
    {
        self.elements.as_slice()
    }

    /// Return the product index for two basis indices.
    pub fn multiply_index(&self, lhs: usize, rhs: usize) -> (r: usize)
        requires
            self@.wf(),
            lhs < self@.order(),
            rhs < self@.order(),
        ensures
            r == self@.mul(lhs as int, rhs as int),
            r < self@.order(),
    {
        proof {
            lemma_mul_closed(self@, lhs as int, rhs as int);
        }
        match self.kind {
            GroupKind::Cyclic => (lhs + rhs) % self.n,
            GroupKind::Dihedral => self.multiply_dihedral(lhs, rhs),
            GroupKind::Symmetric => self.multiply_symmetric(lhs, rhs),
        }
    }

    fn multiply_dihedral(&self, lhs: usize, rhs: usize) -> (r: usize)
        requires
            self@.wf(),
            self@.kind == GroupKind::Dihedral,
            lhs < self@.order(),
            rhs < self@.order(),
        ensures
            r == dihedral_mul(self@.n as int, lhs as int, rhs as int),
    {
        let n = self.n;
        let lhs_reflection = lhs >= n;
        let rhs_reflection = rhs >= n;
        let lhs_k = if lhs_reflection {
            lhs - n
        } else {
            lhs
        };
        let rhs_k = if rhs_reflection {
            rhs - n
        } else {
            rhs
        };
        match (lhs_reflection, rhs_reflection) {
            (false, false) => (lhs_k + rhs_k) % n,
            (false, true) => n + ((rhs_k + n - lhs_k) % n),
            (true, false) => n + ((lhs_k + rhs_k) % n),
            (true, true) => (rhs_k + n - lhs_k) % n,
        }
    }

    fn multiply_symmetric(&self, lhs: usize, rhs: usize) -> (r: usize)
        requires
            self@.wf(),
            self@.kind == GroupKind::Symmetric,
            lhs < self@.order(),
            rhs < self@.order(),
        ensures
            r == index_of(
                self@.elements,
                compose(self@.elements[lhs as int], self@.elements[rhs as int]),
            ),
    {
        let ghost elems = self@.elements;
        let lhs_images = &self.elements[lhs];
        let rhs_images = &self.elements[rhs];
        assert(lhs_images@ == elems[lhs as int]);
        assert(rhs_images@ == elems[rhs as int]);
        let mut product: Vec<usize> = Vec::new();
        for i in 0..rhs_images.len()
            invariant
                lhs < elems.len(),
                rhs < elems.len(),
                lhs_images@ == elems[lhs as int],
                rhs_images@ == elems[rhs as int],
                is_permutation(elems[lhs as int], self@.n),
                is_permutation(elems[rhs as int], self@.n),
                product@ == compose(elems[lhs as int], elems[rhs as int]).take(i as int),
        {
            let image = rhs_images[i];
            product.push(lhs_images[image]);
            assert(product@ =~= compose(elems[lhs as int], elems[rhs as int]).take(i + 1));
        }
        let ghost target = compose(elems[lhs as int], elems[rhs as int]);
        assert(product@ =~= target);
        proof {
            lemma_compose_is_permutation(elems[lhs as int], elems[rhs as int], self@.n);
        }
        let len = self.elements.len();
        let mut k: usize = 0;
        while k < len
            invariant
                self@.wf(),
                self@.kind == GroupKind::Symmetric,
                elems == self@.elements,
                k <= len,
                len == elems.len(),
                rows_of(self.elements@) == elems,
                product@ == target,
                target == compose(elems[lhs as int], elems[rhs as int]),
                elems.contains(target),
                forall|t: int| 0 <= t < k ==> elems[t] != target,
            decreases len - k,
        {
            let same = self.elements[k] == product;
            assert(same == (elems[k as int] == target)) by {
                if elems[k as int] =~= target {
                }
            }
            if same {
                proof {
                    assert(elems[k as int] == target);
                    lemma_index_of_unique(self@, k as int, target);
                    assert(index_of(self@.elements, target) == k);
                }
                return k;
            }
            k = k + 1;
        }
        assert(false);
        0
    }
}

/// The composition of two permutations of `0..n` is one.
pub proof fn lemma_compose_is_permutation(p: Seq<usize>, q: Seq<usize>, n: nat)
    requires
        is_permutation(p, n),
        is_permutation(q, n),
        n <= usize::MAX,
    ensures
        is_permutation(compose(p, q), n),
{
    let c = compose(p, q);
    assert forall|i: int, j: int| 0 <= i < j < c.len() implies c[i] != c[j] by {
        assert(q[i] != q[j]);
        if q[i] < q[j] {
            assert(p[q[i] as int] != p[q[j] as int]);
        } else {
            assert(p[q[j] as int] != p[q[i] as int]);
        }
    }
    assert forall|i: int| 0 <= i < n implies #[trigger] c[i] < n by {
        assert(q[i] < n);
    }
    assert forall|x: usize| x < n implies #[trigger] c.contains(x) by {
        assert(p.contains(x));
        let a = choose|a: int| 0 <= a < p.len() && p[a] == x;
        assert(q.contains(a as usize));
        let b = choose|b: int| 0 <= b < q.len() && q[b] == a as usize;
        assert(c[b] == x);
    }
}

proof fn lemma_index_of_unique(g: GroupModel, k: int, x: Seq<usize>)
    requires
        g.wf(),
        g.kind == GroupKind::Symmetric,
        0 <= k < g.elements.len(),
        g.elements[k] == x,
    ensures
        index_of(g.elements, x) == k,
{
    let l = g.elements;
    assert(l.contains(x));
    let k2 = index_of(l, x);
    if k2 < k {
        lemma_lex_asymmetric(l[k2], l[k]);
    } else if k < k2 {
        lemma_lex_asymmetric(l[k], l[k2]);
    }
}

/// The product of two elements is an element: its index is in range.
pub proof fn lemma_mul_closed(g: GroupModel, i: int, j: int)
    requires
        g.wf(),
        0 <= i < g.order(),
        0 <= j < g.order(),
    ensures
        0 <= g.mul(i, j) < g.order(),
        g.kind == GroupKind::Symmetric ==> g.elements[g.mul(i, j)] == compose(
            g.elements[i],
            g.elements[j],
        ),
{
    match g.kind {
        GroupKind::Cyclic => {
            lemma_mod_bound(i + j, g.n as int);
        },
        GroupKind::Dihedral => {
            let n = g.n as int;
            lemma_mod_bound(i + j, n);
            lemma_mod_bound(j - n + n - i, n);
            lemma_mod_bound(j + n - i, n);
            lemma_mod_bound(i - n + j, n);
            lemma_mod_bound(j - n + n - (i - n), n);
        },
        GroupKind::Symmetric => {
            lemma_compose_is_permutation(g.elements[i], g.elements[j], g.n);
            assert(g.elements.contains(compose(g.elements[i], g.elements[j])));
        },
    }
}

/// The sign with which the rotation part of the left factor enters a dihedral product.
pub open spec fn dihedral_sign(n: int, j: int) -> int {
    if j >= n {
        -1
    } else {
        1
    }
}

/// The rotation exponent of a dihedral index.
pub open spec fn dihedral_rotation(n: int, j: int) -> int {
    if j >= n {
        j - n
    } else {
        j
    }
}

proof fn lemma_dihedral_form(n: int, i: int, j: int)
    requires
        n > 0,
        0 <= i < 2 * n,
        0 <= j < 2 * n,
    ensures
        dihedral_mul(n, i, j) == (if (i >= n) != (j >= n) {
            n
        } else {
            0
        }) + (dihedral_sign(n, j) * dihedral_rotation(n, i) + dihedral_rotation(n, j)) % n,
        0 <= (dihedral_sign(n, j) * dihedral_rotation(n, i) + dihedral_rotation(n, j)) % n < n,
{
    let a = dihedral_rotation(n, i);
    let b = dihedral_rotation(n, j);
    lemma_mod_add_multiples_vanish(b - a, n);
    lemma_mod_bound(dihedral_sign(n, j) * a + b, n);
}

/// The dihedral product is associative.
proof fn lemma_dihedral_associative(n: int, i: int, j: int, k: int)
    requires
        n > 0,
        0 <= i < 2 * n,
        0 <= j < 2 * n,
        0 <= k < 2 * n,
    ensures
        dihedral_mul(n, dihedral_mul(n, i, j), k) == dihedral_mul(n, i, dihedral_mul(n, j, k)),
{
    let a = dihedral_rotation(n, i);
    let b = dihedral_rotation(n, j);
    let c = dihedral_rotation(n, k);
    let sj = dihedral_sign(n, j);
    let sk = dihedral_sign(n, k);
    lemma_dihedral_form(n, i, j);
    lemma_dihedral_form(n, j, k);
    let ij = dihedral_mul(n, i, j);
    let jk = dihedral_mul(n, j, k);
    lemma_dihedral_form(n, ij, k);
    lemma_dihedral_form(n, i, jk);
    assert(dihedral_rotation(n, ij) == (sj * a + b) % n);
    assert(dihedral_rotation(n, jk) == (sk * b + c) % n);
    assert(dihedral_sign(n, jk) == sj * sk);
    // (sk * ((sj a + b) % n) + c) % n == (sk sj a + sk b + c) % n
    lemma_mul_mod_noop_right(sk, sj * a + b, n);
    lemma_add_mod_noop(sk * ((sj * a + b) % n), c, n);
    lemma_add_mod_noop(sk * (sj * a + b), c, n);
    lemma_mod_twice(sk * (sj * a + b), n);
    // (sj sk a + (sk b + c) % n) % n == (sj sk a + sk b + c) % n
    lemma_add_mod_noop(sj * sk * a, (sk * b + c) % n, n);
    lemma_add_mod_noop(sj * sk * a, sk * b + c, n);
    lemma_mod_twice(sk * b + c, n);
    assert(sk * (sj * a + b) == sj * sk * a + sk * b) by (nonlinear_arith);
    lemma_mod_twice(sj * sk * a, n);
}

proof fn lemma_compose_associative(p: Seq<usize>, q: Seq<usize>, r: Seq<usize>, n: nat)
    requires
        is_permutation(q, n),
        is_permutation(r, n),
    ensures
        compose(compose(p, q), r) == compose(p, compose(q, r)),
{
    assert(compose(compose(p, q), r) =~= compose(p, compose(q, r)));
}

/// The group product is associative.
pub proof fn lemma_mul_associative(g: GroupModel, i: int, j: int, k: int)
    requires
        g.wf(),
        0 <= i < g.order(),
        0 <= j < g.order(),
        0 <= k < g.order(),
    ensures
        g.mul(g.mul(i, j), k) == g.mul(i, g.mul(j, k)),
{
    lemma_mul_closed(g, i, j);
    lemma_mul_closed(g, j, k);
    match g.kind {
        GroupKind::Cyclic => {
            let n = g.n as int;
            lemma_add_mod_noop(i + j, k, n);
            lemma_add_mod_noop(i, j + k, n);
            lemma_mod_twice(i + j, n);
            lemma_mod_twice(j + k, n);
            lemma_mod_twice(i, n);
            lemma_mod_twice(k, n);
            lemma_small_mod(i as nat, n as nat);
            lemma_small_mod(k as nat, n as nat);
        },
        GroupKind::Dihedral => {
            lemma_dihedral_associative(g.n as int, i, j, k);
        },
        GroupKind::Symmetric => {
            let e = g.elements;
            lemma_mul_closed(g, g.mul(i, j), k);
            lemma_mul_closed(g, i, g.mul(j, k));
            lemma_compose_associative(e[i], e[j], e[k], g.n);
            lemma_index_of_unique(g, g.mul(g.mul(i, j), k), compose(compose(e[i], e[j]), e[k]));
            lemma_index_of_unique(g, g.mul(i, g.mul(j, k)), compose(e[i], compose(e[j], e[k])));
        },
    }
}

/// Index `0` is the identity element.
pub proof fn lemma_mul_identity(g: GroupModel, i: int)
    requires
        g.wf(),
        0 <= i < g.order(),
    ensures
        g.mul(0, i) == i,
        g.mul(i, 0) == i,
{
    match g.kind {
        GroupKind::Cyclic => {
            lemma_small_mod(i as nat, g.n as nat);
        },
        GroupKind::Dihedral => {
            let n = g.n as int;
            if i >= n {
                lemma_small_mod((i - n) as nat, n as nat);
                lemma_mod_add_multiples_vanish(i - n, n);
            } else {
                lemma_small_mod(i as nat, n as nat);
            }
        },
        GroupKind::Symmetric => {
            let e = g.elements;
            assert(compose(e[0], e[i]) =~= e[i]);
            assert(compose(e[i], e[0]) =~= e[i]);
            lemma_index_of_unique(g, i, e[i]);
        },
    }
}

/// The index of the inverse of the element with index `i`.
pub open spec fn inverse_index(g: GroupModel, i: int) -> int {
    match g.kind {
        GroupKind::Cyclic => (g.n - i) % (g.n as int),
        GroupKind::Dihedral => if i >= g.n {
            i
        } else {
            (g.n - i) % (g.n as int)
        },
        GroupKind::Symmetric => index_of(g.elements, inverse_perm(g.elements[i])),
    }
}

/// The inverse of a permutation: `x` goes to its position in `p`.
pub open spec fn inverse_perm(p: Seq<usize>) -> Seq<usize> {
    Seq::new(p.len(), |x: int| (choose|k: int| 0 <= k < p.len() && p[k] == x as usize) as usize)
}

proof fn lemma_inverse_perm(p: Seq<usize>, n: nat)
    requires
        is_permutation(p, n),
        n <= usize::MAX,
    ensures
        is_permutation(inverse_perm(p), n),
        compose(p, inverse_perm(p)) == identity_perm(n),
        compose(inverse_perm(p), p) == identity_perm(n),
{
    let q = inverse_perm(p);
    assert forall|x: int| 0 <= x < n implies #[trigger] q[x] < n && p[q[x] as int] == x by {
        assert(p.contains(x as usize));
    }
    assert forall|i: int| 0 <= i < n implies #[trigger] q[p[i] as int] == i by {
        let k = q[p[i] as int] as int;
        assert(p[k] == p[i]);
        if k < i {
            assert(p[k] != p[i]);
        } else if i < k {
            assert(p[i] != p[k]);
        }
    }
    assert forall|a: int, b: int| 0 <= a < b < q.len() implies q[a] != q[b] by {
        assert(p[q[a] as int] == a);
        assert(p[q[b] as int] == b);
    }
    assert forall|x: usize| x < n implies #[trigger] q.contains(x) by {
        assert(q[p[x as int] as int] == x);
    }
    assert(compose(p, q) =~= identity_perm(n));
    assert(compose(q, p) =~= identity_perm(n));
}

/// Every element has a two-sided inverse.
pub proof fn lemma_mul_inverse(g: GroupModel, i: int)
    requires
        g.wf(),
        0 <= i < g.order(),
    ensures
        0 <= inverse_index(g, i) < g.order(),
        g.mul(i, inverse_index(g, i)) == 0,
        g.mul(inverse_index(g, i), i) == 0,
{
    match g.kind {
        GroupKind::Cyclic => {
            let n = g.n as int;
            lemma_mod_bound(n - i, n);
            lemma_add_mod_noop(i, n - i, n);
            lemma_add_mod_noop(n - i, i, n);
            lemma_mod_twice(n - i, n);
            lemma_small_mod(i as nat, n as nat);
            lemma_mod_self_0(n);
        },
        GroupKind::Dihedral => {
            let n = g.n as int;
            lemma_mod_bound(n - i, n);
            lemma_mod_self_0(n);
            if i < n {
                lemma_add_mod_noop(i, n - i, n);
                lemma_add_mod_noop(n - i, i, n);
                lemma_mod_twice(n - i, n);
                lemma_small_mod(i as nat, n as nat);
            } else {
                lemma_small_mod(0, n as nat);
            }
        },
        GroupKind::Symmetric => {
            let e = g.elements;
            lemma_inverse_perm(e[i], g.n);
            assert(e.contains(inverse_perm(e[i])));
            let j = inverse_index(g, i);
            assert(e[j] == inverse_perm(e[i]));
            lemma_index_of_unique(g, 0, identity_perm(g.n));
        },
    }
}

/// A well-formed group has at least one element, the identity.
pub proof fn lemma_mul_identity_order(g: GroupModel)
    requires
        g.wf(),
    ensures
        g.order() > 0,
{
    if g.kind == GroupKind::Symmetric {
        crate::perm::lemma_identity_listed(g.elements, g.n);
    }
}
} // verus!
