//! The left-sided NTRU-style construction over the group algebra `Z[G]` of a
//! finite group `G`.
use crate::algebra::{
    affine, lemma_product_affine_right, lemma_group_product_associative, lemma_group_product_identity, lemma_product_congruent,
    reduce, unit_element, column_partial, column_sum, lemma_left_multiplication_matrix, lemma_sum_congruent, sum,
    convolution, group_product, group_product_mod, ints_i64, ints_u64, lemma_partial_next_row,
    lemma_partial_skip_mod, lemma_partial_skip_row_mod, lemma_partial_step_mod, lemma_sum_zero,
    one_mod_spec, partial_product, row, term, lemma_product_zero_right, nonzero_mod, zero_divisor_mod, lemma_zero_divisor_not_invertible,
    left_invertible_mod, lemma_zero_divisor_not_left_invertible,
};
use crate::arith::{
    add_i64_vectors, add_mod, center_lift_vector, gcd, mul_mod, scalar_mul_i64, signed_to_mod,
    spec_center_lift, spec_gcd,
};
use crate::cyclic::{cyclic_inverse_mod, dihedral_inverse_via_cyclic, lemma_cyclic_commutative, residues};
use crate::linalg::{
    dot, in_kernel, is_prime_power, lemma_dot_congruent, singular_mod, solve_modular_linear_system, square_system,
};
use crate::perm::{injective, rows_of};
use crate::rng::{Lcg, lcg_advance, lcg_range, lemma_lcg_advance_add};
use crate::error::NtruError;
use crate::fft::{
    dihedral_fft_product, dihedral_multiply_fft, dihedral_root, dihedral_root_of_unity,
    is_prime_number, symmetric_fft_accepts, symmetric_multiply_fft, symmetric_plan,
    symmetric_plan_exists, is_power_of_two,
};
use crate::group::{
    inverse_index, lemma_mul_associative, lemma_mul_identity, lemma_mul_identity_order, lemma_mul_inverse, FiniteGroup,
    GroupKind, GroupModel,
};
use vstd::arithmetic::power2::is_pow2;
use crate::prime::{is_prime, lemma_accepted_small_values_are_prime, spec_is_prime};
use crate::stats::{BACKEND_COUNT, Backend, BackendStats, bumped};
use vstd::arithmetic::div_mod::*;
use vstd::prelude::*;

verus! {

/// The mathematical content of a scheme instance.
pub struct SchemeView {
    pub group: GroupModel,
    pub p: u64,
    pub q: u64,
    pub d: nat,
    pub stats: Seq<usize>,
}

/// NTRU-style experiment state over a group algebra.
#[derive(Clone, Debug)]
pub struct GroupAlgebraNtru {
    group: FiniteGroup,
    p: u64,
    q: u64,
    d: usize,
    stats: BackendStats,
}

impl View for GroupAlgebraNtru {
    type V = SchemeView;

    closed spec fn view(&self) -> SchemeView {
        SchemeView {
            group: self.group@,
            p: self.p,
            q: self.q,
            d: self.d as nat,
            stats: self.stats@,
        }
    }
}

/// The parameters a scheme accepts: `p` prime, `q > 1` coprime to `p`, and a
/// group with room for the `2d + 1` nonzero coefficients of a private key.
pub open spec fn parameters_ok(g: GroupModel, p: u64, q: u64, d: nat) -> bool {
    &&& spec_is_prime(p)
    &&& q > 1
    &&& spec_gcd(p as nat, q as nat) == 1
    &&& g.order() >= 2 * d + 1
}

/// The message of the first parameter check that fails.
pub open spec fn parameter_error(g: GroupModel, p: u64, q: u64, d: nat) -> Seq<char> {
    if !spec_is_prime(p) {
        "p must be prime"@
    } else if q <= 1 {
        "q must be greater than 1"@
    } else if spec_gcd(p as nat, q as nat) != 1 {
        "p and q must be coprime"@
    } else {
        "group is too small for the requested ternary density"@
    }
}

/// Counters that are all zero.
pub open spec fn zero_counts() -> Seq<usize> {
    Seq::new(BACKEND_COUNT as nat, |i: int| 0usize)
}

/// Every running sum of the schoolbook product `a * b`, taken in the order
/// the pairs `(i, j)` are visited, and every product of two coefficients,
/// fits in an `i64`.
pub open spec fn integer_product_fits(g: GroupModel, a: Seq<int>, b: Seq<int>) -> bool {
    &&& forall|i: int, j: int|
        0 <= i < a.len() && 0 <= j < b.len() ==> i64::MIN <= #[trigger] (a[i] * b[j]) <= i64::MAX
    &&& forall|i: int, j: int, x: int|
        0 <= i < a.len() && 0 <= j <= b.len() && 0 <= x < g.order() ==> i64::MIN
            <= #[trigger] partial_product(g, a, b, i, j, x) <= i64::MAX
}

/// A scheme with other counters.
pub open spec fn with_stats(v: SchemeView, stats: Seq<usize>) -> SchemeView {
    SchemeView { group: v.group, p: v.p, q: v.q, d: v.d, stats }
}

/// What the fft-dihedral route of a product in `D_{2n}` modulo `m` gives:
/// `None` where its preconditions fail or the crate reports an error.
pub open spec fn dihedral_fft_route(n: nat, lhs: Seq<u64>, rhs: Seq<u64>, m: u64) -> Option<Seq<u64>> {
    if 3 <= n && is_pow2(n as int) && spec_gcd(2 * n, m as nat) == 1 && !(spec_is_prime(m) && (m
        - 1) % (n as int) != 0) {
        match dihedral_root_of_unity(n as usize, m) {
            Some(w) => dihedral_fft_product(
                lhs.take(n as int),
                lhs.skip(n as int),
                rhs.take(n as int),
                rhs.skip(n as int),
                m,
                w,
            ),
            None => None,
        }
    } else {
        None
    }
}

/// Whether a product in `S_n` modulo `m` goes through the fft-symmetric crate.
pub open spec fn symmetric_fft_route(n: nat, lhs: Seq<u64>, rhs: Seq<u64>, m: u64) -> bool {
    &&& spec_is_prime(m)
    &&& m > n
    &&& symmetric_plan_exists(n as usize, m)
    &&& symmetric_fft_accepts(n as usize, m, lhs, rhs)
}

/// Moduli for which a refused inversion means that the element has no
/// inverse: primes, and prime powers that the primality test rejects.
pub open spec fn refusals_exact(m: u64) -> bool {
    is_prime_number(m as nat) || (is_prime_power(m as nat) && !spec_is_prime(m))
}

/// The backend that computes the product of `lhs` and `rhs` modulo `m`.
pub open spec fn multiply_backend(g: GroupModel, lhs: Seq<u64>, rhs: Seq<u64>, m: u64) -> Backend {
    match g.kind {
        GroupKind::Dihedral => if dihedral_fft_route(g.n, lhs, rhs, m) is Some {
            Backend::FftDihedralMultiply
        } else {
            Backend::NaiveMultiply
        },
        GroupKind::Symmetric => if symmetric_fft_route(g.n, lhs, rhs, m) {
            Backend::FftSymmetricMultiply
        } else {
            Backend::NaiveMultiply
        },
        GroupKind::Cyclic => Backend::NaiveMultiply,
    }
}

/// What `multiply_mod` returns, whichever backend computes it: the product
/// in the group algebra modulo `m` of the two residue vectors.
pub open spec fn scheme_product(g: GroupModel, lhs: Seq<u64>, rhs: Seq<u64>, m: u64) -> Seq<int> {
    group_product_mod(g, ints_u64(lhs), ints_u64(rhs), m as int)
}

fn copy_range(values: &[u64], start: usize, len: usize) -> (r: Vec<u64>)
    requires
        start + len <= values.len(),
    ensures
        r@ == values@.subrange(start as int, start + len),
{
    let mut out: Vec<u64> = Vec::new();
    for k in 0..len
        invariant
            start + len <= values.len(),
            out@ == values@.subrange(start as int, start + k),
    {
        out.push(values[start + k]);
        assert(out@ =~= values@.subrange(start as int, start + k + 1));
    }
    out
}

/// The coefficients of a dihedral element from its rotation part and its
/// reflection part, in the order the group lists its elements.
pub fn concat_halves(rotations: &[u64], reflections: &[u64]) -> (r: Vec<u64>)
    requires
        rotations.len() + reflections.len() <= usize::MAX,
    ensures
        r@ == rotations@ + reflections@,
{
    let mut out: Vec<u64> = Vec::new();
    for k in 0..rotations.len()
        invariant
            out@ == rotations@.take(k as int),
    {
        out.push(rotations[k]);
        assert(out@ =~= rotations@.take(k + 1));
    }
    assert(rotations@.take(rotations.len() as int) =~= rotations@);
    for k in 0..reflections.len()
        invariant
            out@ == rotations@ + reflections@.take(k as int),
    {
        out.push(reflections[k]);
        assert(out@ =~= rotations@ + reflections@.take(k + 1));
    }
    assert(reflections@.take(reflections.len() as int) =~= reflections@);
    out
}

/// Whether two coefficient vectors are equal.
fn same_coefficients(lhs: &[u64], rhs: &[u64]) -> (r: bool)
    ensures
        r == (lhs@ == rhs@),
{
    if lhs.len() != rhs.len() {
        return false;
    }
    for k in 0..lhs.len()
        invariant
            lhs.len() == rhs.len(),
            forall|t: int| 0 <= t < k ==> lhs@[t] == rhs@[t],
    {
        if lhs[k] != rhs[k] {
            return false;
        }
    }
    assert(lhs@ =~= rhs@);
    true
}

/// `v` is a two-sided inverse of `e` for the product that `multiply_mod` computes.
pub open spec fn inverts(g: GroupModel, e: Seq<u64>, v: Seq<u64>, m: u64) -> bool {
    &&& scheme_product(g, e, v, m) == one_mod_spec(g.order(), m as int)
    &&& scheme_product(g, v, e, m) == one_mod_spec(g.order(), m as int)
}

/// The counters after an inversion by `backend` whose result `v` was checked
/// by multiplying it with `e` on both sides.
pub open spec fn after_inversion(
    stats: Seq<usize>,
    backend: Backend,
    g: GroupModel,
    e: Seq<u64>,
    v: Seq<u64>,
    m: u64,
) -> Seq<usize> {
    bumped(bumped(bumped(stats, backend), multiply_backend(g, e, v, m)), multiply_backend(g, v, e, m))
}

/// The counters after an inversion of `e` modulo `m` that returned `v`:
/// cyclic groups use the cyclic inverse, symmetric groups the linear solve,
/// dihedral groups the cyclic-subring inverse or, where it failed and `m` is
/// not a prime coprime to `2n`, the linear solve.
pub open spec fn inversion_counted(old_stats: Seq<usize>, new_stats: Seq<usize>, g: GroupModel, e: Seq<u64>, v: Seq<u64>, m: u64) -> bool {
    match g.kind {
        GroupKind::Cyclic => new_stats == after_inversion(old_stats, Backend::CyclicInvert, g, e, v, m),
        GroupKind::Symmetric => new_stats == after_inversion(old_stats, Backend::LinearSolveInvert, g, e, v, m),
        GroupKind::Dihedral => new_stats == after_inversion(old_stats, Backend::DihedralCyclicInvert, g, e, v, m)
            || (!(spec_is_prime(m) && spec_gcd(2 * g.n, m as nat) == 1) && new_stats == after_inversion(
            old_stats,
            Backend::LinearSolveInvert,
            g,
            e,
            v,
            m,
        )),
    }
}

proof fn lemma_ints_u64_injective(a: Seq<u64>, b: Seq<u64>)
    ensures
        ints_u64(a) == ints_u64(b) <==> a == b,
{
    if ints_u64(a) == ints_u64(b) {
        assert(a.len() == ints_u64(a).len());
        assert forall|k: int| 0 <= k < a.len() implies a[k] == b[k] by {
            assert(ints_u64(a)[k] == ints_u64(b)[k]);
        }
        assert(a =~= b);
    }
}

/// A private key for the NTRU-style construction.
#[derive(Clone, Debug)]
pub struct PrivateKey {
    /// Small private element.
    pub f: Vec<i64>,
    /// Inverse of `f` modulo `p`.
    pub f_p: Vec<u64>,
    /// Inverse of `f` modulo `q`.
    pub f_q: Vec<u64>,
    /// Number of ternary samples tried.
    pub attempts: usize,
}

/// Result of one trial.
#[derive(Clone, Debug)]
pub struct TrialResult {
    /// Whether decryption recovered the plaintext.
    pub success: bool,
    /// Whether the centered lift matched `pgr + fm` over the integers.
    pub no_wrap: bool,
    /// Private-key search attempts.
    pub key_attempts: usize,
}

/// The counts of repeated trials; the average number of key search attempts
/// is `total_key_attempts / completed_trials`.
#[derive(Clone, Debug)]
pub struct TrialSummary {
    /// Requested trial count.
    pub requested_trials: usize,
    /// Completed trial count.
    pub completed_trials: usize,
    /// Successful decryptions.
    pub successes: usize,
    /// No-wrap checks passed.
    pub no_wraps: usize,
    /// Key generation failures.
    pub keygen_failures: usize,
    /// Key search attempts summed over the completed trials.
    pub total_key_attempts: u128,
    /// Maximum key search attempts.
    pub max_key_attempts: Option<usize>,
    /// Backend counters.
    pub backend_stats: BackendStats,
}

/// Canonical residues of integer coefficients modulo `m`.
pub open spec fn residues_of(s: Seq<int>, m: u64) -> Seq<u64> {
    Seq::new(s.len(), |i: int| (s[i] % (m as int)) as u64)
}

/// The centered lift of every coefficient modulo `m`.
pub open spec fn lifted(s: Seq<int>, m: int) -> Seq<int> {
    Seq::new(s.len(), |i: int| spec_center_lift(s[i], m))
}

/// `p * hr + msg` modulo `q`, coefficientwise, as long as the shorter vector.
pub open spec fn ciphertext(hr: Seq<int>, msg: Seq<int>, p: u64, q: u64) -> Seq<int> {
    Seq::new(
        if hr.len() < msg.len() {
            hr.len()
        } else {
            msg.len()
        },
        |i: int| (p * hr[i] + msg[i]) % (q as int),
    )
}

/// What `decrypt` computes: the centered lift modulo `p` of
/// `f_p * (center_lift(f e mod q) mod p)`.
pub open spec fn decryption(g: GroupModel, e: Seq<u64>, f: Seq<int>, f_p: Seq<u64>, p: u64, q: u64) -> Seq<int> {
    let a = lifted(scheme_product(g, residues_of(f, q), e, q), q as int);
    lifted(scheme_product(g, f_p, residues_of(a, p), p), p as int)
}

/// `v` is a two-sided inverse of `e` in the group algebra modulo `m`.
pub open spec fn group_inverts(g: GroupModel, e: Seq<u64>, v: Seq<u64>, m: u64) -> bool {
    &&& group_product_mod(g, ints_u64(e), ints_u64(v), m as int) == one_mod_spec(g.order(), m as int)
    &&& group_product_mod(g, ints_u64(v), ints_u64(e), m as int) == one_mod_spec(g.order(), m as int)
}

/// A private key of the scheme: a ternary `f` in `T(d + 1, d)` with checked
/// inverses modulo `p` and `q`, which are group-algebra inverses.
pub open spec fn valid_private_key(g: GroupModel, key: PrivateKey, p: u64, q: u64, d: nat) -> bool {
    &&& key.f.len() == g.order()
    &&& key.f_p.len() == g.order()
    &&& key.f_q.len() == g.order()
    &&& is_ternary(ints_i64(key.f@), d + 1, d)
    &&& inverts(g, residues_of(ints_i64(key.f@), p), key.f_p@, p)
    &&& inverts(g, residues_of(ints_i64(key.f@), q), key.f_q@, q)
    &&& group_inverts(g, residues_of(ints_i64(key.f@), p), key.f_p@, p)
    &&& group_inverts(g, residues_of(ints_i64(key.f@), q), key.f_q@, q)
}

/// Integers read back as machine words.
pub open spec fn as_words(s: Seq<int>) -> Seq<u64> {
    Seq::new(s.len(), |i: int| s[i] as u64)
}

/// One trial after key generation, from generator state `state`: whether
/// decryption recovers the plaintext `m`, and whether `f e mod q`, centred, is
/// `p g r + f m` over the integers. The trial draws `g` and `r` from `T(d, d)`
/// and then `m`, and encrypts `m` under `h = f_q g`.
pub open spec fn trial_outcome(grp: GroupModel, p: u64, q: u64, d: nat, key: PrivateKey, state: u64) -> (bool, bool) {
    let n = grp.order();
    let f = ints_i64(key.f@);
    let g = ternary_sample(n, state, d, d);
    let r = ternary_sample(n, lcg_advance(state, 2 * d), d, d);
    let m = plaintext_sample(n, lcg_advance(state, 4 * d), p);
    let h = as_words(scheme_product(grp, key.f_q@, residues_of(g, q), q));
    let e = as_words(ciphertext(scheme_product(grp, h, residues_of(r, q), q), m, p, q));
    let a = lifted(scheme_product(grp, residues_of(f, q), e, q), q as int);
    (
        decryption(grp, e, f, key.f_p@, p, q) == m,
        a == affine(p as int, group_product(grp, g, r), group_product(grp, f, m)),
    )
}

/// What a trial yields from generator state `state`, leaving the generator in
/// state `next`: `None` where key generation gives up after `max_tries`
/// candidates, else a result whose key is the candidate it reports and whose
/// outcome is `trial_outcome` for that key.
pub open spec fn trial_step(
    grp: GroupModel,
    p: u64,
    q: u64,
    d: nat,
    max_tries: nat,
    state: u64,
    outcome: Option<TrialResult>,
    next: u64,
) -> bool {
    match outcome {
        None => {
            &&& next == lcg_advance(state, max_tries * (2 * d + 1))
            &&& refusals_exact(p) && refusals_exact(q) ==> forall|k: nat|
                k < max_tries ==> !#[trigger] key_invertible(grp, key_candidate(grp.order(), state, d, k), p, q)
        },
        Some(t) => {
            &&& 1 <= t.key_attempts <= max_tries
            &&& next == lcg_advance(state, (t.key_attempts * (2 * d + 1) + 4 * d + grp.order()) as nat)
            &&& exists|key: PrivateKey|
                #![trigger valid_private_key(grp, key, p, q, d)]
                {
                    &&& key.attempts == t.key_attempts
                    &&& valid_private_key(grp, key, p, q, d)
                    &&& ints_i64(key.f@) == key_candidate(grp.order(), state, d, (key.attempts - 1) as nat)
                    &&& (t.success, t.no_wrap) == trial_outcome(
                        grp,
                        p,
                        q,
                        d,
                        key,
                        lcg_advance(state, (key.attempts * (2 * d + 1)) as nat),
                    )
                }
            &&& refusals_exact(p) && refusals_exact(q) ==> forall|k: nat|
                k < t.key_attempts - 1 ==> !#[trigger] key_invertible(grp, key_candidate(grp.order(), state, d, k), p, q)
        },
    }
}

/// The result of a trial that completed, `None` for one that did not.
pub open spec fn completed_result(r: Result<TrialResult, NtruError>) -> Option<TrialResult> {
    match r {
        Ok(t) => Some(t),
        Err(_) => None,
    }
}

/// Successive trials from generator state `seed`: trial `i` runs from
/// `states[i]`, yields `outcomes[i]` and leaves `states[i + 1]`.
pub open spec fn trial_run(
    grp: GroupModel,
    p: u64,
    q: u64,
    d: nat,
    max_tries: nat,
    seed: u64,
    outcomes: Seq<Option<TrialResult>>,
    states: Seq<u64>,
) -> bool {
    &&& states.len() == outcomes.len() + 1
    &&& states[0] == seed
    &&& forall|i: int|
        0 <= i < outcomes.len() ==> #[trigger] trial_step(grp, p, q, d, max_tries, states[i], outcomes[i], states[i + 1])
}

/// The number of completed trials.
pub open spec fn completed_count(outcomes: Seq<Option<TrialResult>>) -> nat
    decreases outcomes.len(),
{
    if outcomes.len() == 0 {
        0
    } else {
        completed_count(outcomes.drop_last()) + if outcomes.last() is Some { 1nat } else { 0nat }
    }
}

/// The number of completed trials whose decryption succeeded.
pub open spec fn success_count(outcomes: Seq<Option<TrialResult>>) -> nat
    decreases outcomes.len(),
{
    if outcomes.len() == 0 {
        0
    } else {
        success_count(outcomes.drop_last()) + if outcomes.last() matches Some(t) && t.success {
            1nat
        } else {
            0nat
        }
    }
}

/// The number of completed trials without wrap-around.
pub open spec fn no_wrap_count(outcomes: Seq<Option<TrialResult>>) -> nat
    decreases outcomes.len(),
{
    if outcomes.len() == 0 {
        0
    } else {
        no_wrap_count(outcomes.drop_last()) + if outcomes.last() matches Some(t) && t.no_wrap {
            1nat
        } else {
            0nat
        }
    }
}

/// The key search attempts of the completed trials, summed.
pub open spec fn attempts_total(outcomes: Seq<Option<TrialResult>>) -> nat
    decreases outcomes.len(),
{
    if outcomes.len() == 0 {
        0
    } else {
        attempts_total(outcomes.drop_last()) + match outcomes.last() {
            Some(t) => t.key_attempts as nat,
            None => 0nat,
        }
    }
}

/// The largest key search attempts of the completed trials.
pub open spec fn attempts_max(outcomes: Seq<Option<TrialResult>>) -> Option<usize>
    decreases outcomes.len(),
{
    if outcomes.len() == 0 {
        None
    } else {
        let rest = attempts_max(outcomes.drop_last());
        match outcomes.last() {
            Some(t) => match rest {
                Some(k) => if t.key_attempts > k {
                    Some(t.key_attempts)
                } else {
                    Some(k)
                },
                None => Some(t.key_attempts),
            },
            None => rest,
        }
    }
}

/// Words whose integers are `s` are `s` read back as words.
proof fn lemma_as_words(x: Seq<u64>, s: Seq<int>)
    requires
        ints_u64(x) == s,
    ensures
        x == as_words(s),
{
    assert(x.len() == s.len());
    assert forall|i: int| 0 <= i < x.len() implies #[trigger] x[i] == as_words(s)[i] by {
        assert(ints_u64(x)[i] == x[i] as int);
    }
    assert(x =~= as_words(s));
}

/// The `k`-th candidate `f` of key generation from generator state `state`:
/// each candidate is a sample of `T(d + 1, d)`.
pub open spec fn key_candidate(order: nat, state: u64, d: nat, k: nat) -> Seq<int> {
    ternary_sample(order, lcg_advance(state, k * (2 * d + 1)), d + 1, d)
}

/// `f` is invertible in `Z_p[G]` and in `Z_q[G]`.
pub open spec fn key_invertible(g: GroupModel, f: Seq<int>, p: u64, q: u64) -> bool {
    &&& left_invertible_mod(g, ints_u64(residues_of(f, p)), p as int)
    &&& left_invertible_mod(g, ints_u64(residues_of(f, q)), q as int)
}

fn to_residues(values: &[i64], modulus: u64) -> (r: Vec<u64>)
    requires
        modulus > 0,
    ensures
        r@ == residues_of(ints_i64(values@), modulus),
        r.len() == values.len(),
{
    let r = signed_to_mod(values, modulus);
    assert(r@ =~= residues_of(ints_i64(values@), modulus));
    r
}

fn lift_all(values: &[u64], modulus: u64) -> (r: Vec<i64>)
    requires
        0 < modulus <= i64::MAX,
    ensures
        ints_i64(r@) == lifted(ints_u64(values@), modulus as int),
        r.len() == values.len(),
{
    let r = center_lift_vector(values, modulus);
    assert(ints_i64(r@) =~= lifted(ints_u64(values@), modulus as int));
    r
}

/// Whether two signed coefficient vectors are equal.
fn same_signed(lhs: &[i64], rhs: &[i64]) -> (r: bool)
    ensures
        r == (lhs@ == rhs@),
{
    if lhs.len() != rhs.len() {
        return false;
    }
    for k in 0..lhs.len()
        invariant
            lhs.len() == rhs.len(),
            forall|t: int| 0 <= t < k ==> lhs@[t] == rhs@[t],
    {
        if lhs[k] != rhs[k] {
            return false;
        }
    }
    assert(lhs@ =~= rhs@);
    true
}

/// The positions after the first `steps` swaps of the partial Fisher-Yates
/// shuffle of `0..order` that draws from a generator started in `state`:
/// swap `i` exchanges position `i` with a position drawn from `i..order`.
pub open spec fn shuffled(order: nat, state: u64, steps: nat) -> Seq<usize>
    decreases steps,
{
    if steps == 0 {
        Seq::new(order, |k: int| k as usize)
    } else {
        let prev = shuffled(order, state, (steps - 1) as nat);
        let i = steps - 1;
        let j = i + lcg_range(lcg_advance(state, i as nat), (order - i) as usize);
        prev.update(i, prev[j]).update(j, prev[i])
    }
}

/// The coefficient at `x` of the ternary element whose first `d1` shuffled
/// positions hold `1` and whose next positions, up to `support`, hold `-1`.
pub open spec fn ternary_coefficient(pos: Seq<usize>, d1: nat, support: nat, x: int) -> int {
    if exists|k: int| d1 <= k < support && pos[k] == x {
        -1
    } else if exists|k: int| 0 <= k < d1 && pos[k] == x {
        1
    } else {
        0
    }
}

/// What `random_ternary(rng, d1, d2)` draws from a generator in `state`.
pub open spec fn ternary_sample(order: nat, state: u64, d1: nat, d2: nat) -> Seq<int> {
    let pos = shuffled(order, state, d1 + d2);
    Seq::new(order, |x: int| ternary_coefficient(pos, d1, d1 + d2, x))
}

/// `f` lies in `T(d1, d2)`: an ordering of its indices lists `d1` coefficients
/// `1`, then `d2` coefficients `-1`, then only zeros.
pub open spec fn is_ternary(f: Seq<int>, d1: nat, d2: nat) -> bool {
    &&& forall|x: int| 0 <= x < f.len() ==> -1 <= #[trigger] f[x] <= 1
    &&& exists|pos: Seq<usize>|
        #![trigger injective(pos), pos.len()]
        {
            &&& pos.len() == f.len()
            &&& injective(pos)
            &&& forall|k: int| 0 <= k < pos.len() ==> #[trigger] pos[k] < f.len()
            &&& forall|k: int|
                0 <= k < pos.len() ==> #[trigger] f[pos[k] as int] == if k < d1 {
                    1
                } else if k < d1 + d2 {
                    -1
                } else {
                    0
                }
        }
}

/// What `random_plaintext` draws from a generator in `state`: one value of
/// `-(p-1)/2 ..= (p-1)/2` for each group element.
pub open spec fn plaintext_sample(order: nat, state: u64, p: u64) -> Seq<int> {
    let half = (p - 1) / 2;
    Seq::new(order, |k: int| lcg_range(lcg_advance(state, k as nat), (2 * half + 1) as usize) - half)
}

/// The partial shuffle keeps a permutation of `0..order`.
proof fn lemma_shuffled_injective(order: nat, state: u64, steps: nat)
    requires
        steps <= order,
        order <= usize::MAX,
    ensures
        shuffled(order, state, steps).len() == order,
        injective(shuffled(order, state, steps)),
        forall|k: int| 0 <= k < order ==> #[trigger] shuffled(order, state, steps)[k] < order,
    decreases steps,
{
    if steps > 0 {
        let prev = shuffled(order, state, (steps - 1) as nat);
        lemma_shuffled_injective(order, state, (steps - 1) as nat);
        let i = steps - 1;
        let j = i + lcg_range(lcg_advance(state, i as nat), (order - i) as usize);
        let cur = shuffled(order, state, steps);
        assert(i <= j < order);
        assert forall|a: int, b: int| 0 <= a < b < cur.len() implies cur[a] != cur[b] by {
            let sa = if a == j { i } else if a == i { j } else { a };
            let sb = if b == j { i } else if b == i { j } else { b };
            assert(cur[a] == prev[sa]);
            assert(cur[b] == prev[sb]);
            if sa < sb {
                assert(prev[sa] != prev[sb]);
            } else {
                assert(prev[sb] != prev[sa]);
            }
        }
    }
}

/// A sample drawn from a shuffle lies in `T(d1, d2)`.
proof fn lemma_ternary_sample_is_ternary(order: nat, state: u64, d1: nat, d2: nat)
    requires
        d1 + d2 <= order,
        order <= usize::MAX,
    ensures
        is_ternary(ternary_sample(order, state, d1, d2), d1, d2),
{
    let pos = shuffled(order, state, d1 + d2);
    let f = ternary_sample(order, state, d1, d2);
    lemma_shuffled_injective(order, state, d1 + d2);
    assert forall|k: int| 0 <= k < pos.len() implies #[trigger] f[pos[k] as int] == if k < d1 {
        1
    } else if k < d1 + d2 {
        -1
    } else {
        0
    } by {
        let x = pos[k] as int;
        assert forall|t: int| 0 <= t < pos.len() && t != k implies pos[t] != x by {
            if t < k {
                assert(pos[t] != pos[k]);
            } else {
                assert(pos[k] != pos[t]);
            }
        }
        if k < d1 {
            assert(pos[k] == x);
        } else if k < d1 + d2 {
            assert(pos[k] == x);
        }
    }
    assert(injective(pos) && pos.len() == f.len());
}

proof fn lemma_advance_step(state: u64, k: nat)
    ensures
        lcg_advance(state, k + 1) == crate::rng::lcg_next(lcg_advance(state, k)),
    decreases k,
{
    let next = crate::rng::lcg_next(state);
    assert(lcg_advance(state, k + 1) == lcg_advance(next, k));
    if k > 0 {
        lemma_advance_step(next, (k - 1) as nat);
        assert(lcg_advance(state, k) == lcg_advance(next, (k - 1) as nat));
        assert((k - 1) as nat + 1 == k);
    }
}

/// Left multiplication is injective: `g_i g_j == g_i g_k` gives `j == k`.
proof fn lemma_left_cancel(g: GroupModel, i: int, j: int, k: int)
    requires
        g.wf(),
        0 <= i < g.order(),
        0 <= j < g.order(),
        0 <= k < g.order(),
        g.mul(i, j) == g.mul(i, k),
    ensures
        j == k,
{
    let v = inverse_index(g, i);
    lemma_mul_inverse(g, i);
    lemma_mul_associative(g, v, i, j);
    lemma_mul_associative(g, v, i, k);
    lemma_mul_identity(g, j);
    lemma_mul_identity(g, k);
}

/// A row of the product has at most one nonzero term, so every partial sum
/// of it is bounded by the bound on one term.
proof fn lemma_row_partial_bound(g: GroupModel, a: Seq<int>, b: Seq<int>, i: int, len: int, x: int, c: int)
    requires
        g.wf(),
        0 <= i < g.order(),
        b.len() == g.order(),
        0 <= len <= b.len(),
        0 <= c,
        forall|j: int| 0 <= j < b.len() ==> -c <= #[trigger] (a[i] * b[j]) <= c,
    ensures
        -c <= sum(len, |j: int| term(g, a, b, i, j, x)) <= c,
    decreases len,
{
    let f = |j: int| term(g, a, b, i, j, x);
    if len > 0 {
        if g.mul(i, len - 1) == x {
            assert forall|j: int| 0 <= j < len - 1 implies #[trigger] f(j) == 0 by {
                if g.mul(i, j) == x {
                    lemma_left_cancel(g, i, j, len - 1);
                }
            }
            lemma_sum_zero(len - 1, f);
            assert(a[i] * b[len - 1] == f(len - 1));
        } else {
            lemma_row_partial_bound(g, a, b, i, len - 1, x, c);
        }
    }
}

/// The integer products of a trial fit in an `i64`: `p (g r) + f m` is at
/// most `2d p + (2d + 1)(p - 1)/2` in absolute value, since `g` has `2d`
/// nonzero coefficients, `f` has `2d + 1`, and the plaintext is centered.
pub open spec fn trial_fits(p: u64, d: nat) -> bool {
    &&& p <= i64::MAX
    &&& 2 * d * p + (2 * d + 1) * ((p - 1) / 2) <= i64::MAX
}

/// The number of nonzero coefficients among the first `i` of `a`.
pub open spec fn support_size(a: Seq<int>, i: int) -> int
    decreases i,
{
    if i <= 0 {
        0
    } else {
        support_size(a, i - 1) + if a[i - 1] != 0 {
            1int
        } else {
            0int
        }
    }
}

/// The support count grows with the prefix and is at most its length.
proof fn lemma_support_monotone(a: Seq<int>, i: int, k: int)
    requires
        0 <= i <= k,
    ensures
        0 <= support_size(a, i) <= support_size(a, k),
        support_size(a, k) - support_size(a, i) <= k - i,
    decreases k,
{
    if i < k {
        lemma_support_monotone(a, i, k - 1);
    } else if k > 0 {
        lemma_support_monotone(a, k - 1, k - 1);
    }
}

/// The support count of a prefix is the size of the set of its nonzero positions.
proof fn lemma_support_set(a: Seq<int>, i: int)
    requires
        0 <= i,
    ensures
        Set::new(|r: int| 0 <= r < i && a[r] != 0).finite(),
        Set::new(|r: int| 0 <= r < i && a[r] != 0).len() == support_size(a, i),
    decreases i,
{
    let cur = Set::new(|r: int| 0 <= r < i && a[r] != 0);
    if i == 0 {
        assert(cur =~= Set::<int>::empty());
    } else {
        let prev = Set::new(|r: int| 0 <= r < i - 1 && a[r] != 0);
        lemma_support_set(a, i - 1);
        if a[i - 1] != 0 {
            assert(cur =~= prev.insert(i - 1));
            assert(!prev.contains(i - 1));
        } else {
            assert(cur =~= prev);
        }
    }
}

/// An injective listing of `0..n` by values below `n` lists every value.
proof fn lemma_listing_onto(pos: Seq<usize>, r: int)
    requires
        injective(pos),
        forall|k: int| 0 <= k < pos.len() ==> #[trigger] pos[k] < pos.len(),
        0 <= r < pos.len(),
    ensures
        exists|k: int| 0 <= k < pos.len() && pos[k] as int == r,
{
    let n = pos.len() as int;
    let dom = vstd::set_lib::set_int_range(0, n);
    let f = |k: int| pos[k] as int;
    let img = dom.map(f);
    vstd::set_lib::lemma_int_range(0, n);
    assert(vstd::relations::injective_on(f, dom)) by {
        assert forall|x1: int, x2: int| dom.contains(x1) && dom.contains(x2) && #[trigger] f(x1) == #[trigger] f(x2) implies x1 == x2 by {
            if x1 < x2 {
                assert(pos[x1] != pos[x2]);
            } else if x2 < x1 {
                assert(pos[x2] != pos[x1]);
            }
        }
    }
    vstd::set_lib::lemma_map_size(dom, img, f);
    assert(img.subset_of(dom)) by {
        assert forall|y: int| img.contains(y) implies dom.contains(y) by {
            let k = choose|k: int| dom.contains(k) && f(k) == y;
            assert(pos[k] < n);
        }
    }
    vstd::set_lib::lemma_subset_equality(img, dom);
    assert(img.contains(r));
    let k = choose|k: int| dom.contains(k) && f(k) == r;
    assert(0 <= k < n && pos[k] as int == r);
}

/// An element of `T(d1, d2)` has at most `d1 + d2` nonzero coefficients.
proof fn lemma_ternary_support(a: Seq<int>, d1: nat, d2: nat)
    requires
        is_ternary(a, d1, d2),
    ensures
        support_size(a, a.len() as int) <= d1 + d2,
{
    let n = a.len() as int;
    let pos = choose|pos: Seq<usize>|
        #![trigger injective(pos), pos.len()]
        {
            &&& pos.len() == a.len()
            &&& injective(pos)
            &&& forall|k: int| 0 <= k < pos.len() ==> #[trigger] pos[k] < a.len()
            &&& forall|k: int|
                0 <= k < pos.len() ==> #[trigger] a[pos[k] as int] == if k < d1 {
                    1
                } else if k < d1 + d2 {
                    -1
                } else {
                    0
                }
        };
    let s = if d1 + d2 <= n { (d1 + d2) as int } else { n };
    let nonzero = Set::new(|r: int| 0 <= r < n && a[r] != 0);
    let dom = vstd::set_lib::set_int_range(0, s);
    let f = |k: int| pos[k] as int;
    let listed = dom.map(f);
    lemma_support_set(a, n);
    vstd::set_lib::lemma_int_range(0, s);
    vstd::set_lib::lemma_map_size_bound(dom, listed, f);
    assert(nonzero.subset_of(listed)) by {
        assert forall|r: int| nonzero.contains(r) implies listed.contains(r) by {
            lemma_listing_onto(pos, r);
            let k = choose|k: int| 0 <= k < pos.len() && pos[k] as int == r;
            assert(a[pos[k] as int] != 0);
            assert(dom.contains(k) && f(k) == r);
        }
    }
    vstd::set_lib::lemma_len_subset(nonzero, listed);
}

/// A row whose left coefficient is zero contributes nothing.
proof fn lemma_zero_row_prefix(g: GroupModel, a: Seq<int>, b: Seq<int>, i: int, len: int, x: int)
    requires
        a[i] == 0,
        0 <= len,
    ensures
        sum(len, |j: int| term(g, a, b, i, j, x)) == 0,
{
    let f = |j: int| term(g, a, b, i, j, x);
    assert forall|j: int| 0 <= j < len implies #[trigger] f(j) == 0 by {
        assert(a[i] * b[j] == 0);
    }
    lemma_sum_zero(len, f);
}

/// The rows before `i` add up to at most `c` for each nonzero coefficient
/// of `a` among them.
proof fn lemma_sparse_rows_bound(g: GroupModel, a: Seq<int>, b: Seq<int>, i: int, x: int, c: int)
    requires
        g.wf(),
        a.len() == g.order(),
        b.len() == g.order(),
        0 <= i <= a.len(),
        0 <= c,
        forall|r: int, j: int| 0 <= r < a.len() && 0 <= j < b.len() ==> -c <= #[trigger] (a[r] * b[j]) <= c,
    ensures
        -(support_size(a, i) * c) <= sum(i, |r: int| row(g, a, b, r, x)) <= support_size(a, i) * c,
    decreases i,
{
    if i > 0 {
        lemma_sparse_rows_bound(g, a, b, i - 1, x, c);
        let s = support_size(a, i - 1);
        lemma_support_monotone(a, 0, i - 1);
        if a[i - 1] != 0 {
            lemma_row_partial_bound(g, a, b, i - 1, b.len() as int, x, c);
            assert((s + 1) * c == s * c + c) by (nonlinear_arith);
        } else {
            lemma_zero_row_prefix(g, a, b, i - 1, b.len() as int, x);
        }
    }
}

/// With `a` nonzero in at most `s` places and every product of two
/// coefficients at most `c` in absolute value, every partial sum of `a * b`
/// is at most `s c` in absolute value.
proof fn lemma_product_fits_sparse(g: GroupModel, a: Seq<int>, b: Seq<int>, s: int, c: int)
    requires
        g.wf(),
        a.len() == g.order(),
        b.len() == g.order(),
        0 <= c,
        support_size(a, a.len() as int) <= s,
        forall|r: int, j: int| 0 <= r < a.len() && 0 <= j < b.len() ==> -c <= #[trigger] (a[r] * b[j]) <= c,
        s * c <= i64::MAX,
        c <= i64::MAX,
    ensures
        integer_product_fits(g, a, b),
        forall|x: int| 0 <= x < g.order() ==> -(s * c) <= #[trigger] group_product(g, a, b)[x] <= s * c,
{
    let n = a.len() as int;
    lemma_support_monotone(a, 0, n);
    assert forall|i: int, j: int, x: int|
        0 <= i < a.len() && 0 <= j <= b.len() && 0 <= x < g.order() implies -(s * c) <= #[trigger] partial_product(
        g,
        a,
        b,
        i,
        j,
        x,
    ) <= s * c by {
        lemma_sparse_rows_bound(g, a, b, i, x, c);
        lemma_support_monotone(a, i, n);
        lemma_support_monotone(a, i + 1, n);
        let si = support_size(a, i);
        if a[i] != 0 {
            lemma_row_partial_bound(g, a, b, i, j, x, c);
            assert(support_size(a, i + 1) == si + 1);
            assert((si + 1) * c <= s * c) by (nonlinear_arith)
                requires
                    si + 1 <= s,
                    0 <= c,
            ;
            assert((si + 1) * c == si * c + c) by (nonlinear_arith);
        } else {
            lemma_zero_row_prefix(g, a, b, i, j, x);
            assert(si * c <= s * c) by (nonlinear_arith)
                requires
                    si <= s,
                    0 <= c,
            ;
        }
    }
    assert forall|x: int| 0 <= x < g.order() implies -(s * c) <= #[trigger] group_product(g, a, b)[x] <= s * c by {
        lemma_sparse_rows_bound(g, a, b, n, x, c);
        assert(support_size(a, n) * c <= s * c) by (nonlinear_arith)
            requires
                support_size(a, n) <= s,
                0 <= c,
        ;
        crate::algebra::lemma_partial_complete(g, a, b, x);
    }
}

proof fn lemma_mul_abs_bound_local(x: int, y: int, cx: int, cy: int)
    requires
        -cx <= x <= cx,
        -cy <= y <= cy,
    ensures
        -(cx * cy) <= x * y <= cx * cy,
{
    assert(-(cx * cy) <= x * y <= cx * cy) by (nonlinear_arith)
        requires
            -cx <= x <= cx,
            -cy <= y <= cy,
    ;
}

/// A value in `-(p-1)/2 ..= (p-1)/2` is its own centered residue modulo `p`.
pub proof fn lemma_center_lift_fixes(v: int, p: int)
    requires
        p >= 2,
        -((p - 1) / 2) <= v <= (p - 1) / 2,
    ensures
        spec_center_lift(v, p) == v,
{
    if v >= 0 {
        lemma_small_mod(v as nat, p as nat);
    } else {
        lemma_mod_add_multiples_vanish(v, p);
        lemma_small_mod((v + p) as nat, p as nat);
    }
}

/// Decryption recovers the plaintext. Let `f_p f = 1` in the group algebra
/// modulo `p`, let the centered lift `a` of `f e` modulo `q` equal
/// `p (g r) + f m` over the integers (no wrap-around), and let every
/// coefficient of `m` be its own centered residue modulo `p`. Then the
/// centered lift modulo `p` of `f_p (a mod p)` is `m`.
pub proof fn lemma_decryption_recovers_plaintext(
    grp: GroupModel,
    f: Seq<int>,
    f_p: Seq<int>,
    gr: Seq<int>,
    m: Seq<int>,
    a: Seq<int>,
    p: int,
)
    requires
        grp.wf(),
        p > 1,
        f.len() == grp.order(),
        f_p.len() == grp.order(),
        gr.len() == grp.order(),
        m.len() == grp.order(),
        a.len() == grp.order(),
        group_product_mod(grp, f_p, f, p) == one_mod_spec(grp.order(), p),
        forall|x: int| 0 <= x < grp.order() ==> #[trigger] a[x] == p * gr[x] + group_product(grp, f, m)[x],
        forall|x: int| 0 <= x < grp.order() ==> spec_center_lift(#[trigger] m[x], p) == m[x],
    ensures
        lifted(group_product_mod(grp, f_p, reduce(a, p), p), p) == m,
{
    let n = grp.order() as int;
    let fm = group_product(grp, f, m);
    let one = unit_element(grp.order());
    // a == f m modulo p
    assert forall|x: int| 0 <= x < n implies #[trigger] reduce(reduce(a, p), p)[x] == reduce(fm, p)[x] by {
        lemma_mod_twice(a[x], p);
        lemma_mod_multiples_vanish(gr[x], fm[x], p);
    }
    assert(reduce(reduce(a, p), p) =~= reduce(fm, p));
    lemma_product_congruent(grp, f_p, f_p, reduce(a, p), fm, p);
    // f_p (f m) == (f_p f) m
    lemma_group_product_associative(grp, f_p, f, m);
    let fpf = group_product(grp, f_p, f);
    // f_p f == 1 modulo p
    assert forall|x: int| 0 <= x < n implies #[trigger] reduce(fpf, p)[x] == reduce(one, p)[x] by {
        lemma_small_mod(1, p as nat);
        lemma_small_mod(0, p as nat);
        assert(group_product_mod(grp, f_p, f, p)[x] == one_mod_spec(grp.order(), p)[x]);
    }
    assert(reduce(fpf, p) =~= reduce(one, p));
    lemma_product_congruent(grp, fpf, one, m, m, p);
    lemma_group_product_identity(grp, m);
    // the centered lift of m modulo p is m
    let result = group_product_mod(grp, f_p, reduce(a, p), p);
    assert(result == reduce(m, p));
    assert forall|x: int| 0 <= x < n implies #[trigger] lifted(result, p)[x] == m[x] by {
        lemma_mod_twice(m[x], p);
    }
    assert(lifted(result, p) =~= m);
}

/// The congruence behind decryption: if `h = f_q g` and `f f_q = 1` modulo
/// `q`, and `e = p h r + m` modulo `q`, then `f e = p g r + f m` modulo `q`.
pub proof fn lemma_encryption_congruence(
    grp: GroupModel,
    f: Seq<int>,
    f_q: Seq<int>,
    g: Seq<int>,
    r: Seq<int>,
    m: Seq<int>,
    h: Seq<int>,
    e: Seq<int>,
    p: int,
    q: int,
)
    requires
        grp.wf(),
        q > 1,
        f.len() == grp.order(),
        f_q.len() == grp.order(),
        g.len() == grp.order(),
        r.len() == grp.order(),
        m.len() == grp.order(),
        h.len() == grp.order(),
        e.len() == grp.order(),
        reduce(h, q) == group_product_mod(grp, f_q, g, q),
        group_product_mod(grp, f, f_q, q) == one_mod_spec(grp.order(), q),
        reduce(e, q) == reduce(affine(p, group_product(grp, h, r), m), q),
    ensures
        group_product_mod(grp, f, e, q) == reduce(affine(p, group_product(grp, g, r), group_product(grp, f, m)), q),
{
    let n = grp.order() as int;
    let one = unit_element(grp.order());
    let hr = group_product(grp, h, r);
    let big_e = affine(p, hr, m);
    // f e == f (p h r + m) modulo q
    lemma_product_congruent(grp, f, f, e, big_e, q);
    // f h == g modulo q
    let fh = group_product(grp, f, h);
    let fq_g = group_product(grp, f_q, g);
    assert forall|x: int| 0 <= x < n implies #[trigger] reduce(h, q)[x] == reduce(fq_g, q)[x] by {
        assert(group_product_mod(grp, f_q, g, q)[x] == reduce(fq_g, q)[x]);
    }
    assert(reduce(h, q) =~= reduce(fq_g, q));
    lemma_product_congruent(grp, f, f, h, fq_g, q);
    lemma_group_product_associative(grp, f, f_q, g);
    let ffq = group_product(grp, f, f_q);
    assert forall|x: int| 0 <= x < n implies #[trigger] reduce(ffq, q)[x] == reduce(one, q)[x] by {
        lemma_small_mod(1, q as nat);
        lemma_small_mod(0, q as nat);
        assert(group_product_mod(grp, f, f_q, q)[x] == one_mod_spec(grp.order(), q)[x]);
    }
    assert(reduce(ffq, q) =~= reduce(one, q));
    lemma_product_congruent(grp, ffq, one, g, g, q);
    lemma_group_product_identity(grp, g);
    assert(reduce(fh, q) == reduce(g, q));
    // (f h) r == g r modulo q, and f (h r) == (f h) r
    lemma_product_congruent(grp, fh, g, r, r, q);
    lemma_group_product_associative(grp, f, h, r);
    let gr = group_product(grp, g, r);
    let fhr = group_product(grp, f, hr);
    assert(reduce(fhr, q) == reduce(gr, q));
    let fm = group_product(grp, f, m);
    let target = affine(p, gr, fm);
    assert forall|x: int| 0 <= x < n implies #[trigger] group_product_mod(grp, f, e, q)[x] == reduce(target, q)[x] by {
        lemma_product_affine_right(grp, f, hr, m, p, x);
        assert(reduce(fhr, q)[x] == reduce(gr, q)[x]);
        lemma_mul_mod_noop_right(p, fhr[x], q);
        lemma_mul_mod_noop_right(p, gr[x], q);
        lemma_add_mod_noop(p * fhr[x], fm[x], q);
        lemma_add_mod_noop(p * gr[x], fm[x], q);
        assert(group_product_mod(grp, f, e, q)[x] == group_product_mod(grp, f, big_e, q)[x]);
    }
    assert(group_product_mod(grp, f, e, q) =~= reduce(target, q));
}

/// NTRU decryption is correct. Let `h = f_q g` and `f f_q = 1` modulo `q`,
/// `f_p f = 1` modulo `p`, and `e = p h r + m` modulo `q`. If every
/// coefficient of `p g r + f m` is its own centered residue modulo `q` and
/// every coefficient of `m` its own centered residue modulo `p`, then
/// decrypting `e` (lifting `f e` modulo `q`, reducing modulo `p`, multiplying
/// by `f_p` and lifting modulo `p`) gives back `m`.
pub proof fn lemma_decryption_correct(
    grp: GroupModel,
    f: Seq<int>,
    f_p: Seq<int>,
    f_q: Seq<int>,
    g: Seq<int>,
    r: Seq<int>,
    m: Seq<int>,
    h: Seq<int>,
    e: Seq<int>,
    p: int,
    q: int,
)
    requires
        grp.wf(),
        p > 1,
        q > 1,
        f.len() == grp.order(),
        f_p.len() == grp.order(),
        f_q.len() == grp.order(),
        g.len() == grp.order(),
        r.len() == grp.order(),
        m.len() == grp.order(),
        h.len() == grp.order(),
        e.len() == grp.order(),
        reduce(h, q) == group_product_mod(grp, f_q, g, q),
        group_product_mod(grp, f, f_q, q) == one_mod_spec(grp.order(), q),
        group_product_mod(grp, f_p, f, p) == one_mod_spec(grp.order(), p),
        reduce(e, q) == reduce(affine(p, group_product(grp, h, r), m), q),
        forall|x: int| 0 <= x < grp.order() ==> spec_center_lift(
            #[trigger] affine(p, group_product(grp, g, r), group_product(grp, f, m))[x],
            q,
        ) == affine(p, group_product(grp, g, r), group_product(grp, f, m))[x],
        forall|x: int| 0 <= x < grp.order() ==> spec_center_lift(#[trigger] m[x], p) == m[x],
    ensures
        lifted(group_product_mod(grp, f_p, reduce(lifted(group_product_mod(grp, f, e, q), q), p), p), p) == m,
{
    let n = grp.order() as int;
    lemma_encryption_congruence(grp, f, f_q, g, r, m, h, e, p, q);
    let gr = group_product(grp, g, r);
    let fm = group_product(grp, f, m);
    let target = affine(p, gr, fm);
    let a = lifted(group_product_mod(grp, f, e, q), q);
    assert forall|x: int| 0 <= x < n implies #[trigger] a[x] == p * gr[x] + fm[x] by {
        lemma_mod_twice(target[x], q);
        assert(spec_center_lift(target[x], q) == target[x]);
    }
    lemma_decryption_recovers_plaintext(grp, f, f_p, gr, m, a, p);
}

proof fn lemma_residues_reduce(s: Seq<int>, m: u64)
    requires
        m > 0,
    ensures
        ints_u64(residues_of(s, m)) == reduce(s, m as int),
{
    assert forall|k: int| 0 <= k < s.len() implies #[trigger] ints_u64(residues_of(s, m))[k] == reduce(s, m as int)[k] by {
        lemma_mod_bound(s[k], m as int);
    }
    assert(ints_u64(residues_of(s, m)) =~= reduce(s, m as int));
}

proof fn lemma_ints_i64_injective(a: Seq<i64>, b: Seq<i64>)
    ensures
        ints_i64(a) == ints_i64(b) <==> a == b,
{
    if ints_i64(a) == ints_i64(b) {
        assert(a.len() == ints_i64(a).len());
        assert forall|k: int| 0 <= k < a.len() implies a[k] == b[k] by {
            assert(ints_i64(a)[k] == ints_i64(b)[k]);
        }
        assert(a =~= b);
    }
}

proof fn lemma_zero_row(g: GroupModel, a: Seq<int>, b: Seq<int>, i: int, x: int)
    requires
        0 <= i < a.len(),
        a[i] == 0,
    ensures
        row(g, a, b, i, x) == 0,
{
    lemma_sum_zero(b.len() as int, |j: int| term(g, a, b, i, j, x));
}

proof fn lemma_partial_step(g: GroupModel, a: Seq<int>, b: Seq<int>, i: int, j: int, x: int)
    requires
        0 <= i,
        0 <= j,
    ensures
        partial_product(g, a, b, i, j + 1, x) == partial_product(g, a, b, i, j, x) + term(g, a, b, i, j, x),
{
}

/// Inverses in `Z_m[G]` are unique: a left inverse `v` and a right inverse `y`
/// of the same element agree modulo `m`.
pub proof fn lemma_inverse_unique_mod(g: GroupModel, e: Seq<int>, v: Seq<int>, y: Seq<int>, m: int)
    requires
        g.wf(),
        m > 1,
        e.len() == g.order(),
        v.len() == g.order(),
        y.len() == g.order(),
        group_product_mod(g, v, e, m) == one_mod_spec(g.order(), m),
        group_product_mod(g, e, y, m) == one_mod_spec(g.order(), m),
    ensures
        reduce(v, m) == reduce(y, m),
{
    let n = g.order();
    let one = unit_element(n);
    assert forall|k: int| 0 <= k < n implies #[trigger] reduce(one, m)[k] == one_mod_spec(n, m)[k] by {
        lemma_small_mod(0, m as nat);
    }
    assert(reduce(one, m) =~= one_mod_spec(n, m));
    // (v e) y == v (e y)
    lemma_group_product_associative(g, v, e, y);
    // (v e) y ≡ 1 y == y
    lemma_product_congruent(g, group_product(g, v, e), one, y, y, m);
    lemma_group_product_identity(g, y);
    // v (e y) ≡ v 1 == v
    lemma_product_congruent(g, v, v, group_product(g, e, y), one, m);
    lemma_group_product_identity(g, v);
}

/// In `Z_m[G]`, a right inverse `y` of an element `e` that is not a left zero
/// divisor is also a left inverse: `e (y e - 1) == (e y) e - e == 0`.
pub proof fn lemma_right_inverse_is_two_sided(g: GroupModel, e: Seq<int>, y: Seq<int>, m: int)
    requires
        g.wf(),
        m > 1,
        e.len() == g.order(),
        y.len() == g.order(),
        group_product_mod(g, e, y, m) == one_mod_spec(g.order(), m),
        !zero_divisor_mod(g, e, m),
    ensures
        group_product_mod(g, y, e, m) == one_mod_spec(g.order(), m),
{
    let n = g.order();
    let one = unit_element(n);
    let ye = group_product(g, y, e);
    let b = affine(-1, one, ye);
    let z = Seq::new(n, |x: int| 0int);
    assert forall|k: int| 0 <= k < n implies #[trigger] reduce(one, m)[k] == one_mod_spec(n, m)[k] by {
        lemma_small_mod(0, m as nat);
    }
    assert(reduce(one, m) =~= one_mod_spec(n, m));
    // e b == (e y) e - e
    assert forall|x: int| 0 <= x < n implies #[trigger] group_product(g, e, b)[x] == affine(
        -1,
        group_product(g, e, one),
        group_product(g, e, ye),
    )[x] by {
        lemma_product_affine_right(g, e, one, ye, -1, x);
    }
    assert(group_product(g, e, b) =~= affine(-1, group_product(g, e, one), group_product(g, e, ye)));
    lemma_group_product_identity(g, e);
    lemma_group_product_associative(g, e, y, e);
    // (e y) e ≡ 1 e == e
    lemma_product_congruent(g, group_product(g, e, y), one, e, e, m);
    assert forall|x: int| 0 <= x < n implies #[trigger] group_product_mod(g, e, b, m)[x] == z[x] by {
        let a = group_product(g, group_product(g, e, y), e)[x];
        assert(a % m == e[x] % m) by {
            assert(group_product_mod(g, group_product(g, e, y), e, m)[x] == group_product_mod(g, one, e, m)[x]);
        }
        crate::folding::lemma_cong_scale(-1, e[x], e[x], m);
        crate::folding::lemma_cong_add(-1 * e[x], -1 * e[x], a, e[x], m);
        lemma_small_mod(0, m as nat);
    }
    assert(group_product_mod(g, e, b, m) =~= z);
    // so b is zero modulo m, that is y e ≡ 1
    assert(!nonzero_mod(b, m));
    assert forall|k: int| 0 <= k < n implies #[trigger] reduce(ye, m)[k] == reduce(one, m)[k] by {
        assert((b[k] % m) == 0);
        crate::folding::lemma_cong_add(b[k], 0, one[k], one[k], m);
    }
    assert(reduce(ye, m) =~= reduce(one, m));
}

/// Row `x` of the left-multiplication matrix of `e` gives coefficient `x` of `e b`.
proof fn lemma_matrix_row_product(g: GroupModel, e: Seq<int>, row_x: Seq<u64>, b: Seq<int>, x: int, m: int)
    requires
        m > 0,
        b.len() == g.order(),
        forall|j: int| 0 <= j < g.order() ==> #[trigger] row_x[j] as int == column_sum(g, e, x, j) % m,
    ensures
        dot(row_x, b, g.order() as int) % m == convolution(g, e, b, x) % m,
{
    let n = g.order() as int;
    lemma_left_multiplication_matrix(g, e, b, x);
    let cols = Seq::new(n as nat, |j: int| column_sum(g, e, x, j));
    assert forall|k: int| 0 <= k < n implies #[trigger] (row_x[k] as int) % m == cols[k] % m by {
        lemma_mod_twice(column_sum(g, e, x, k), m);
    }
    lemma_dot_congruent(row_x, cols, b, n, m);
    crate::algebra::lemma_sum_ext(n, |k: int| cols[k] * b[k], |j: int| column_sum(g, e, x, j) * b[j]);
}

impl GroupAlgebraNtru {
    /// The scheme's invariant: a well-formed group, accepted parameters and a
    /// counter for every backend.
    pub open spec fn wf(&self) -> bool {
        &&& self@.group.wf()
        &&& parameters_ok(self@.group, self@.p, self@.q, self@.d)
        &&& self@.stats.len() == BACKEND_COUNT
    }

    /// Construct a scheme instance.
    pub fn new(group: FiniteGroup, p: u64, q: u64, d: usize) -> (r: Result<Self, NtruError>)
        requires
            group@.wf(),
            2 * d + 1 <= usize::MAX,
        ensures
            r is Ok <==> parameters_ok(group@, p, q, d as nat),
            r matches Err(e) ==> (e matches NtruError::InvalidParameters(msg) && msg@
                == parameter_error(group@, p, q, d as nat)),
            r matches Ok(s) ==> s.wf() && s@.group == group@ && s@.p == p && s@.q == q && s@.d
                == d && s@.stats == zero_counts(),
            r is Ok && p < 1681 ==> is_prime_number(p as nat),
            is_prime_number(p as nat) && q > 1 && spec_gcd(p as nat, q as nat) == 1 && group@.order() >= 2
                * d + 1 ==> r is Ok,
    {
        if !is_prime(p) {
            return Err(NtruError::InvalidParameters(String::from_str("p must be prime")));
        }
        proof {
            if p < 1681 {
                lemma_accepted_small_values_are_prime(p);
            }
        }
        if q <= 1 {
            return Err(NtruError::InvalidParameters(String::from_str("q must be greater than 1")));
        }
        if gcd(p, q) != 1 {
            return Err(NtruError::InvalidParameters(String::from_str("p and q must be coprime")));
        }
        if group.order() < 2 * d + 1 {
            return Err(
                NtruError::InvalidParameters(
                    String::from_str("group is too small for the requested ternary density"),
                ),
            );
        }
        let stats = BackendStats::new();
        Ok(Self { group, p, q, d, stats })
    }

    /// Return the group.
    pub fn group(&self) -> (r: &FiniteGroup)
        ensures
            r@ == self@.group,
    {
        &self.group
    }

    /// Return `p`.
    pub fn p(&self) -> (r: u64)
        ensures
            r == self@.p,
    {
        self.p
    }

    /// Return `q`.
    pub fn q(&self) -> (r: u64)
        ensures
            r == self@.q,
    {
        self.q
    }

    /// Return `d`.
    pub fn d(&self) -> (r: usize)
        ensures
            r == self@.d,
    {
        self.d
    }

    /// Return backend counters.
    pub fn backend_stats(&self) -> (r: &BackendStats)
        ensures
            r@ == self@.stats,
    {
        &self.stats
    }

    /// Return the multiplicative identity as residues modulo `modulus`.
    pub fn one_mod(&self, modulus: u64) -> (r: Vec<u64>)
        requires
            self.wf(),
            modulus > 0,
        ensures
            r.len() == self@.group.order(),
            ints_u64(r@) == one_mod_spec(self@.group.order(), modulus as int),
    {
        let mut out: Vec<u64> = vec![0; self.group.order()];
        out.set(0, 1 % modulus);
        assert(ints_u64(out@) =~= one_mod_spec(self@.group.order(), modulus as int));
        out
    }

    /// Multiply over the integers without modular reduction.
    pub fn multiply_integer(&self, lhs: &[i64], rhs: &[i64]) -> (r: Vec<i64>)
        requires
            self.wf(),
            lhs.len() <= self@.group.order(),
            rhs.len() <= self@.group.order(),
            integer_product_fits(self@.group, ints_i64(lhs@), ints_i64(rhs@)),
        ensures
            ints_i64(r@) == group_product(self@.group, ints_i64(lhs@), ints_i64(rhs@)),
    {
        let ghost g = self@.group;
        let ghost a = ints_i64(lhs@);
        let ghost b = ints_i64(rhs@);
        let order = self.group.order();
        let mut out: Vec<i64> = vec![0; order];
        for i in 0..lhs.len()
            invariant
                self.wf(),
                g == self@.group,
                order == g.order(),
                lhs.len() <= order,
                rhs.len() <= order,
                a == ints_i64(lhs@),
                b == ints_i64(rhs@),
                integer_product_fits(g, a, b),
                out.len() == order,
                forall|x: int| 0 <= x < order ==> #[trigger] out@[x] == partial_product(g, a, b, i as int, 0, x),
        {
            let lhs_value = lhs[i];
            if lhs_value == 0 {
                proof {
                    assert forall|x: int| 0 <= x < order implies #[trigger] out@[x] == partial_product(g, a, b, i + 1, 0, x) by {
                        lemma_zero_row(g, a, b, i as int, x);
                    }
                }
            } else {
                for j in 0..rhs.len()
                    invariant
                        self.wf(),
                        g == self@.group,
                        order == g.order(),
                        lhs.len() <= order,
                        rhs.len() <= order,
                        i < lhs.len(),
                        lhs_value == lhs@[i as int],
                        a == ints_i64(lhs@),
                        b == ints_i64(rhs@),
                        integer_product_fits(g, a, b),
                        out.len() == order,
                        forall|x: int| 0 <= x < order ==> #[trigger] out@[x] == partial_product(g, a, b, i as int, j as int, x),
                {
                    let rhs_value = rhs[j];
                    let ghost before = out@;
                    assert(a[i as int] == lhs_value as int);
                    assert(b[j as int] == rhs_value as int);
                    if rhs_value != 0 {
                        let index = self.group.multiply_index(i, j);
                        assert(i64::MIN <= a[i as int] * b[j as int] <= i64::MAX);
                        assert(i64::MIN <= partial_product(g, a, b, i as int, j + 1, index as int) <= i64::MAX);
                        let product = lhs_value * rhs_value;
                        let updated = out[index] + product;
                        out.set(index, updated);
                    }
                    assert forall|x: int| 0 <= x < order implies #[trigger] out@[x] == partial_product(g, a, b, i as int, j + 1, x) by {
                        lemma_partial_step(g, a, b, i as int, j as int, x);
                        assert(before[x] == partial_product(g, a, b, i as int, j as int, x));
                        if g.mul(i as int, j as int) == x && rhs_value != 0 {
                            assert(term(g, a, b, i as int, j as int, x) == a[i as int] * b[j as int]);
                        } else {
                            if g.mul(i as int, j as int) == x {
                                vstd::arithmetic::mul::lemma_mul_by_zero_is_zero(a[i as int]);
                            }
                            assert(term(g, a, b, i as int, j as int, x) == 0);
                        }
                    }
                }
                proof {
                    assert forall|x: int| 0 <= x < order implies #[trigger] out@[x] == partial_product(g, a, b, i + 1, 0, x) by {
                        lemma_partial_next_row(g, a, b, i as int, x);
                    }
                }
            }
        }
        assert(ints_i64(out@) =~= group_product(g, a, b));
        out
    }

    /// The product through the fft-dihedral crate, where its conditions hold.
    fn try_dihedral_fft_multiply(&mut self, lhs: &[u64], rhs: &[u64], modulus: u64) -> (r: Option<
        Vec<u64>,
    >)
        requires
            old(self).wf(),
            old(self)@.group.kind == GroupKind::Dihedral,
            lhs.len() == old(self)@.group.order(),
            rhs.len() == old(self)@.group.order(),
            modulus > 0,
        ensures
            final(self).wf(),
            r is Some <==> dihedral_fft_route(old(self)@.group.n, lhs@, rhs@, modulus) is Some,
            r matches Some(v) ==> Some(v@) == dihedral_fft_route(
                old(self)@.group.n,
                lhs@,
                rhs@,
                modulus,
            ) && v.len() == lhs.len() && ints_u64(v@) == group_product_mod(
                old(self)@.group,
                ints_u64(lhs@),
                ints_u64(rhs@),
                modulus as int,
            ),
            final(self)@ == with_stats(
                old(self)@,
                if r is Some {
                    bumped(old(self)@.stats, Backend::FftDihedralMultiply)
                } else {
                    old(self)@.stats
                },
            ),
    {
        let n = self.group.n();
        let ghost g = self@.group;
        if n < 3 || !is_power_of_two(n) || gcd(2 * n as u64, modulus) != 1 {
            return None;
        }
        if is_prime(modulus) && (modulus - 1) % (n as u64) != 0 {
            return None;
        }
        let omega = match dihedral_root(n, modulus) {
            Ok(root) => root,
            Err(_) => {
                return None;
            },
        };
        let lhs_rotations = copy_range(lhs, 0, n);
        let lhs_reflections = copy_range(lhs, n, n);
        let rhs_rotations = copy_range(rhs, 0, n);
        let rhs_reflections = copy_range(rhs, n, n);
        assert(lhs_rotations@ =~= lhs@.take(n as int));
        assert(lhs_reflections@ =~= lhs@.skip(n as int));
        assert(rhs_rotations@ =~= rhs@.take(n as int));
        assert(rhs_reflections@ =~= rhs@.skip(n as int));
        assert(lhs_rotations@ + lhs_reflections@ =~= lhs@);
        assert(rhs_rotations@ + rhs_reflections@ =~= rhs@);
        match dihedral_multiply_fft(
            &lhs_rotations,
            &lhs_reflections,
            &rhs_rotations,
            &rhs_reflections,
            modulus,
            omega,
        ) {
            Ok((rotations, reflections)) => {
                self.stats.record(Backend::FftDihedralMultiply);
                Some(concat_halves(&rotations, &reflections))
            },
            Err(_) => None,
        }
    }

    /// The product through the fft-symmetric crate, where its conditions hold.
    fn try_symmetric_fft_multiply(&mut self, lhs: &[u64], rhs: &[u64], modulus: u64) -> (r: Option<
        Vec<u64>,
    >)
        requires
            old(self).wf(),
            old(self)@.group.kind == GroupKind::Symmetric,
            modulus > 0,
        ensures
            final(self).wf(),
            r is Some <==> symmetric_fft_route(old(self)@.group.n, lhs@, rhs@, modulus),
            r matches Some(v) ==> ints_u64(v@) == group_product_mod(
                old(self)@.group,
                ints_u64(lhs@),
                ints_u64(rhs@),
                modulus as int,
            ),
            final(self)@ == with_stats(
                old(self)@,
                if r is Some {
                    bumped(old(self)@.stats, Backend::FftSymmetricMultiply)
                } else {
                    old(self)@.stats
                },
            ),
    {
        let n = self.group.n();
        if !is_prime(modulus) || modulus <= n as u64 {
            return None;
        }
        let plan = match symmetric_plan(n, modulus) {
            Ok(plan) => plan,
            Err(_) => {
                return None;
            },
        };
        match symmetric_multiply_fft(&plan, lhs, rhs) {
            Ok(product) => {
                self.stats.record(Backend::FftSymmetricMultiply);
                Some(product)
            },
            Err(_) => None,
        }
    }

    /// Sample an element in `T(d1, d2)`: `d1` coefficients `1` and `d2`
    /// coefficients `-1` at positions chosen by a partial shuffle.
    pub fn random_ternary(&self, rng: &mut Lcg, d1: usize, d2: usize) -> (r: Result<Vec<i64>, NtruError>)
        requires
            self.wf(),
            d1 + d2 <= usize::MAX,
        ensures
            r is Err <==> d1 + d2 > self@.group.order(),
            r matches Err(e) ==> (e matches NtruError::InvalidParameters(msg) && msg@ == "ternary support too large"@),
            r is Err ==> final(rng)@ == old(rng)@,
            r matches Ok(f) ==> f.len() == self@.group.order() && ints_i64(f@) == ternary_sample(
                self@.group.order(),
                old(rng)@,
                d1 as nat,
                d2 as nat,
            ) && final(rng)@ == lcg_advance(old(rng)@, (d1 + d2) as nat),
            r matches Ok(f) ==> is_ternary(ints_i64(f@), d1 as nat, d2 as nat),
    {
        let order = self.group.order();
        let support = d1 + d2;
        if support > order {
            return Err(NtruError::InvalidParameters(String::from_str("ternary support too large")));
        }
        let ghost state = rng@;
        let mut positions: Vec<usize> = Vec::new();
        for k in 0..order
            invariant
                positions@ == Seq::new(k as nat, |t: int| t as usize),
        {
            positions.push(k);
            assert(positions@ =~= Seq::new((k + 1) as nat, |t: int| t as usize));
        }
        for i in 0..support
            invariant
                support <= order,
                positions@ == shuffled(order as nat, state, i as nat),
                rng@ == lcg_advance(state, i as nat),
        {
            proof {
                lemma_shuffled_injective(order as nat, state, i as nat);
                lemma_advance_step(state, i as nat);
            }
            let offset = rng.gen_range(order - i);
            let j = i + offset;
            let a = positions[i];
            let b = positions[j];
            positions.set(i, b);
            positions.set(j, a);
        }
        proof {
            lemma_shuffled_injective(order as nat, state, support as nat);
        }
        let ghost pos = positions@;
        let mut out: Vec<i64> = vec![0; order];
        for k in 0..d1
            invariant
                d1 <= support <= order,
                positions@ == pos,
                pos.len() == order,
                forall|t: int| 0 <= t < order ==> #[trigger] pos[t] < order,
                out.len() == order,
                forall|x: int| 0 <= x < order ==> #[trigger] out@[x] == (if exists|t: int| 0 <= t < k && pos[t] == x { 1i64 } else { 0i64 }),
        {
            let index = positions[k];
            out.set(index, 1);
            proof {
                assert forall|x: int| 0 <= x < order implies #[trigger] out@[x] == (if exists|t: int| 0 <= t < k + 1 && pos[t] == x { 1i64 } else { 0i64 }) by {
                    if x == index {
                        assert(pos[k as int] == x);
                    } else {
                        if exists|t: int| 0 <= t < k + 1 && pos[t] == x {
                            let t = choose|t: int| 0 <= t < k + 1 && pos[t] == x;
                            assert(t != k);
                        }
                    }
                }
            }
        }
        for k in d1..support
            invariant
                d1 <= support <= order,
                positions@ == pos,
                pos.len() == order,
                forall|t: int| 0 <= t < order ==> #[trigger] pos[t] < order,
                out.len() == order,
                forall|x: int| 0 <= x < order ==> #[trigger] out@[x] == (if exists|t: int| d1 <= t < k && pos[t] == x {
                    -1i64
                } else if exists|t: int| 0 <= t < d1 && pos[t] == x {
                    1i64
                } else {
                    0i64
                }),
        {
            let index = positions[k];
            out.set(index, -1);
            proof {
                assert forall|x: int| 0 <= x < order implies #[trigger] out@[x] == (if exists|t: int| d1 <= t < k + 1 && pos[t] == x {
                    -1i64
                } else if exists|t: int| 0 <= t < d1 && pos[t] == x {
                    1i64
                } else {
                    0i64
                }) by {
                    if x == index {
                        assert(pos[k as int] == x);
                    } else {
                        if exists|t: int| d1 <= t < k + 1 && pos[t] == x {
                            let t = choose|t: int| d1 <= t < k + 1 && pos[t] == x;
                            assert(t != k);
                        }
                    }
                }
            }
        }
        proof {
            let target = ternary_sample(order as nat, state, d1 as nat, d2 as nat);
            assert forall|x: int| 0 <= x < order implies #[trigger] ints_i64(out@)[x] == target[x] by {}
            assert(ints_i64(out@) =~= target);
            lemma_ternary_sample_is_ternary(order as nat, state, d1 as nat, d2 as nat);
        }
        Ok(out)
    }

    /// Sample a centered plaintext modulo `p`: each coefficient is drawn from
    /// `-(p-1)/2 ..= (p-1)/2`.
    pub fn random_plaintext(&self, rng: &mut Lcg) -> (r: Vec<i64>)
        requires
            self.wf(),
            self@.p <= i64::MAX,
            self@.p <= usize::MAX,
        ensures
            r.len() == self@.group.order(),
            ints_i64(r@) == plaintext_sample(self@.group.order(), old(rng)@, self@.p),
            final(rng)@ == lcg_advance(old(rng)@, self@.group.order()),
            forall|k: int| 0 <= k < r.len() ==> -((self@.p - 1) / 2) <= #[trigger] r[k] <= (self@.p - 1) / 2,
    {
        let order = self.group.order();
        let half_width = ((self.p - 1) / 2) as i64;
        let width = (2 * half_width + 1) as usize;
        let ghost state = rng@;
        let mut out: Vec<i64> = Vec::new();
        for k in 0..order
            invariant
                0 <= half_width,
                2 * half_width + 1 <= i64::MAX,
                width == 2 * half_width + 1,
                rng@ == lcg_advance(state, k as nat),
                out.len() == k,
                forall|t: int| 0 <= t < k ==> #[trigger] out@[t] == lcg_range(lcg_advance(state, t as nat), width) - half_width,
                forall|t: int| 0 <= t < k ==> -half_width <= #[trigger] out@[t] <= half_width,
        {
            proof {
                lemma_advance_step(state, k as nat);
            }
            let draw = rng.gen_range(width);
            out.push(draw as i64 - half_width);
        }
        assert(ints_i64(out@) =~= plaintext_sample(order as nat, state, self@.p));
        out
    }

    /// Generate an NTRU-style private key: draw `f` in `T(d + 1, d)` until it
    /// is invertible modulo both `p` and `q`, at most `max_tries` times.
    pub fn random_private_key(&mut self, rng: &mut Lcg, max_tries: usize) -> (r: Result<PrivateKey, NtruError>)
        requires
            old(self).wf(),
        ensures
            final(self).wf(),
            final(self)@ == with_stats(old(self)@, final(self)@.stats),
            r matches Err(e) ==> e is NotInvertible,
            max_tries == 0 ==> r is Err && final(self)@ == old(self)@,
            r matches Ok(key) ==> 1 <= key.attempts <= max_tries && valid_private_key(
                old(self)@.group,
                key,
                old(self)@.p,
                old(self)@.q,
                old(self)@.d,
            ),
            r matches Ok(key) ==> ints_i64(key.f@) == key_candidate(
                old(self)@.group.order(),
                old(rng)@,
                old(self)@.d,
                (key.attempts - 1) as nat,
            ) && final(rng)@ == lcg_advance(old(rng)@, (key.attempts * (2 * old(self)@.d + 1)) as nat),
            r matches Ok(key) ==> key_invertible(old(self)@.group, ints_i64(key.f@), old(self)@.p, old(self)@.q),
            r is Err ==> final(rng)@ == lcg_advance(old(rng)@, (max_tries * (2 * old(self)@.d + 1)) as nat),
            refusals_exact(old(self)@.p) && refusals_exact(old(self)@.q) ==> (r matches Ok(key)
                ==> forall|k: nat|
                k < key.attempts - 1 ==> !#[trigger] key_invertible(
                    old(self)@.group,
                    key_candidate(old(self)@.group.order(), old(rng)@, old(self)@.d, k),
                    old(self)@.p,
                    old(self)@.q,
                )),
            refusals_exact(old(self)@.p) && refusals_exact(old(self)@.q) ==> (r is Err
                ==> forall|k: nat|
                k < max_tries ==> !#[trigger] key_invertible(
                    old(self)@.group,
                    key_candidate(old(self)@.group.order(), old(rng)@, old(self)@.d, k),
                    old(self)@.p,
                    old(self)@.q,
                )),
    {
        let ghost start = self@;
        let ghost s0 = rng@;
        let ghost g = self@.group;
        let ghost step = (2 * self@.d + 1) as nat;
        let order = self.group.order();
        let mut attempts: usize = 0;
        while attempts < max_tries
            invariant
                self.wf(),
                self@ == with_stats(start, self@.stats),
                start == old(self)@,
                s0 == old(rng)@,
                g == start.group,
                step == 2 * start.d + 1,
                order == self@.group.order(),
                attempts <= max_tries,
                max_tries == 0 ==> self@ == start,
                rng@ == lcg_advance(s0, (attempts * step) as nat),
                refusals_exact(start.p) && refusals_exact(start.q) ==> forall|k: nat|
                    k < attempts ==> !#[trigger] key_invertible(g, key_candidate(order as nat, s0, start.d, k), start.p, start.q),
            decreases max_tries - attempts,
        {
            let ghost k = attempts as nat;
            let ghost before = rng@;
            attempts = attempts + 1;
            let f = match self.random_ternary(rng, self.d + 1, self.d) {
                Ok(f) => f,
                Err(e) => {
                    return Err(NtruError::NotInvertible);
                },
            };
            proof {
                lemma_lcg_advance_add(s0, k * step, step);
                assert(k * step + step == attempts as nat * step) by (nonlinear_arith)
                    requires
                        attempts == k + 1,
                ;
                assert(ints_i64(f@) == key_candidate(order as nat, s0, start.d, k));
            }
            let f_mod_p = to_residues(&f, self.p);
            let f_p = match self.try_inverse_mod(&f_mod_p, self.p) {
                Some(inverse) => inverse,
                None => {
                    continue;
                },
            };
            let f_mod_q = to_residues(&f, self.q);
            let f_q = match self.try_inverse_mod(&f_mod_q, self.q) {
                Some(inverse) => inverse,
                None => {
                    continue;
                },
            };
            proof {
                let e_p = ints_u64(residues_of(ints_i64(f@), start.p));
                let e_q = ints_u64(residues_of(ints_i64(f@), start.q));
                assert(group_product_mod(g, ints_u64(f_p@), e_p, start.p as int) == one_mod_spec(g.order(), start.p as int));
                assert(group_product_mod(g, ints_u64(f_q@), e_q, start.q as int) == one_mod_spec(g.order(), start.q as int));
            }
            let key = PrivateKey { f, f_p, f_q, attempts };
            return Ok(key);
        }
        Err(NtruError::NotInvertible)
    }

    /// Compute the public key `h = F_q g mod q`.
    pub fn public_key(&mut self, f_q: &[u64], g: &[i64]) -> (r: Result<Vec<u64>, NtruError>)
        requires
            old(self).wf(),
        ensures
            final(self).wf(),
            r is Err <==> f_q.len() != old(self)@.group.order() || g.len() != old(self)@.group.order(),
            r matches Err(e) ==> e is Shape && final(self)@ == old(self)@,
            r matches Ok(h) ==> h.len() == old(self)@.group.order() && ints_u64(h@) == scheme_product(
                old(self)@.group,
                f_q@,
                residues_of(ints_i64(g@), old(self)@.q),
                old(self)@.q,
            ) && final(self)@ == with_stats(
                old(self)@,
                bumped(
                    old(self)@.stats,
                    multiply_backend(old(self)@.group, f_q@, residues_of(ints_i64(g@), old(self)@.q), old(self)@.q),
                ),
            ),
    {
        let g_mod_q = to_residues(g, self.q);
        self.multiply_mod(f_q, &g_mod_q, self.q)
    }

    /// Encrypt `m` as `e = p h r + m mod q`.
    pub fn encrypt(&mut self, m: &[i64], h: &[u64], r: &[i64]) -> (res: Result<Vec<u64>, NtruError>)
        requires
            old(self).wf(),
        ensures
            final(self).wf(),
            res is Err <==> h.len() != old(self)@.group.order() || r.len() != old(self)@.group.order(),
            res matches Err(e) ==> e is Shape && final(self)@ == old(self)@,
            res matches Ok(e) ==> e.len() == (if m.len() < old(self)@.group.order() {
                m.len() as int
            } else {
                old(self)@.group.order() as int
            }),
            res matches Ok(e) ==> ints_u64(e@) == ciphertext(
                scheme_product(old(self)@.group, h@, residues_of(ints_i64(r@), old(self)@.q), old(self)@.q),
                ints_i64(m@),
                old(self)@.p,
                old(self)@.q,
            ) && final(self)@ == with_stats(
                old(self)@,
                bumped(
                    old(self)@.stats,
                    multiply_backend(old(self)@.group, h@, residues_of(ints_i64(r@), old(self)@.q), old(self)@.q),
                ),
            ),
    {
        let q = self.q;
        let r_mod_q = to_residues(r, q);
        let hr = match self.multiply_mod(h, &r_mod_q, q) {
            Ok(v) => v,
            Err(e) => {
                return Err(e);
            },
        };
        let ghost hr_spec = ints_u64(hr@);
        let m_mod_q = to_residues(m, q);
        let len = if hr.len() < m_mod_q.len() {
            hr.len()
        } else {
            m_mod_q.len()
        };
        let scale = self.p % q;
        let mut out: Vec<u64> = Vec::new();
        for i in 0..len
            invariant
                q > 1,
                q == self@.q,
                scale == self@.p % q,
                len <= hr.len(),
                len <= m_mod_q.len(),
                m_mod_q@ == residues_of(ints_i64(m@), q),
                out.len() == i,
                forall|k: int| 0 <= k < i ==> #[trigger] out@[k] as int == (self@.p * hr@[k] + m@[k]) % (q as int),
        {
            let value = add_mod(mul_mod(scale, hr[i], q), m_mod_q[i], q);
            proof {
                let pp = self@.p as int;
                let hv = hr@[i as int] as int;
                let mv = m@[i as int] as int;
                let qi = q as int;
                lemma_mul_mod_noop_left(pp, hv, qi);
                lemma_add_mod_noop(pp * hv, mv, qi);
                lemma_mod_twice(mv, qi);
                lemma_mod_twice(pp * hv, qi);
                assert(m_mod_q@[i as int] as int == mv % qi);
            }
            out.push(value);
        }
        proof {
            let target = ciphertext(hr_spec, ints_i64(m@), self@.p, q);
            assert(hr_spec.len() == hr.len());
            assert forall|k: int| 0 <= k < len implies #[trigger] ints_u64(out@)[k] == target[k] by {
                assert(hr_spec[k] == hr@[k] as int);
            }
            assert(ints_u64(out@) =~= target);
        }
        Ok(out)
    }

    /// Decrypt by computing `F_p * center_lift(f e) mod p`.
    pub fn decrypt(&mut self, e: &[u64], f: &[i64], f_p: &[u64]) -> (r: Result<Vec<i64>, NtruError>)
        requires
            old(self).wf(),
            old(self)@.p <= i64::MAX,
            old(self)@.q <= i64::MAX,
        ensures
            final(self).wf(),
            final(self)@ == with_stats(old(self)@, final(self)@.stats),
            r is Err <==> e.len() != old(self)@.group.order() || f.len() != old(self)@.group.order()
                || f_p.len() != old(self)@.group.order(),
            r matches Err(err) ==> err is Shape,
            r matches Ok(msg) ==> msg.len() == old(self)@.group.order() && ints_i64(msg@) == decryption(
                old(self)@.group,
                e@,
                ints_i64(f@),
                f_p@,
                old(self)@.p,
                old(self)@.q,
            ),
            r matches Ok(msg) ==> ints_i64(msg@) == lifted(
                group_product_mod(
                    old(self)@.group,
                    ints_u64(f_p@),
                    reduce(
                        lifted(
                            scheme_product(old(self)@.group, residues_of(ints_i64(f@), old(self)@.q), e@, old(self)@.q),
                            old(self)@.q as int,
                        ),
                        old(self)@.p as int,
                    ),
                    old(self)@.p as int,
                ),
                old(self)@.p as int,
            ),
    {
        let ghost g = self@.group;
        let p = self.p;
        let q = self.q;
        let f_mod_q = to_residues(f, q);
        let a_q = match self.multiply_mod(&f_mod_q, e, q) {
            Ok(v) => v,
            Err(err) => {
                return Err(err);
            },
        };
        let a_lift = lift_all(&a_q, q);
        let a_mod_p = to_residues(&a_lift, p);
        let b_p = match self.multiply_mod(f_p, &a_mod_p, p) {
            Ok(v) => v,
            Err(err) => {
                return Err(err);
            },
        };
        let out = lift_all(&b_p, p);
        proof {
            lemma_residues_reduce(ints_i64(a_lift@), p);
        }
        Ok(out)
    }

    /// Run one randomized trial: draw a key, `g`, `r` and a plaintext `m`,
    /// encrypt and decrypt `m`, and compare the centered lift of `f e` with
    /// `p g r + f m` over the integers. The integer products need
    /// `2d p + (2d + 1)(p - 1)/2` to fit in an `i64`. A trial without
    /// wrap-around decrypts correctly.
    pub fn trial(&mut self, rng: &mut Lcg, max_key_tries: usize) -> (r: Result<TrialResult, NtruError>)
        requires
            old(self).wf(),
            old(self)@.q <= i64::MAX,
            old(self)@.p <= usize::MAX,
            trial_fits(old(self)@.p, old(self)@.d),
        ensures
            final(self).wf(),
            final(self)@ == with_stats(old(self)@, final(self)@.stats),
            r matches Err(e) ==> e is NotInvertible,
            max_key_tries == 0 ==> r is Err,
            r matches Ok(t) ==> 1 <= t.key_attempts <= max_key_tries,
            r matches Ok(t) ==> (t.no_wrap ==> t.success),
            trial_step(
                old(self)@.group,
                old(self)@.p,
                old(self)@.q,
                old(self)@.d,
                max_key_tries as nat,
                old(rng)@,
                completed_result(r),
                final(rng)@,
            ),
    {
        let ghost start = self@;
        let ghost s0 = rng@;
        let ghost n = self@.group.order() as int;
        let p = self.p;
        let q = self.q;
        proof {
            lemma_mul_identity_order(self@.group);
        }
        let private = match self.random_private_key(rng, max_key_tries) {
            Ok(key) => key,
            Err(e) => {
                return Err(e);
            },
        };
        let g = match self.random_ternary(rng, self.d, self.d) {
            Ok(v) => v,
            Err(e) => {
                return Err(e);
            },
        };
        let r = match self.random_ternary(rng, self.d, self.d) {
            Ok(v) => v,
            Err(e) => {
                return Err(e);
            },
        };
        let m = self.random_plaintext(rng);
        let h = match self.public_key(&private.f_q, &g) {
            Ok(v) => v,
            Err(e) => {
                return Err(e);
            },
        };
        let e = match self.encrypt(&m, &h, &r) {
            Ok(v) => v,
            Err(err) => {
                return Err(err);
            },
        };
        assert(e.len() == ints_u64(e@).len());
        let decrypted = match self.decrypt(&e, &private.f, &private.f_p) {
            Ok(v) => v,
            Err(err) => {
                return Err(err);
            },
        };
        let f_mod_q = to_residues(&private.f, q);
        let a_q = match self.multiply_mod(&f_mod_q, &e, q) {
            Ok(v) => v,
            Err(err) => {
                return Err(err);
            },
        };
        let a_lift = lift_all(&a_q, q);
        let ghost grp = self@.group;
        let ghost half = (p - 1) / 2;
        proof {
            assert(ints_i64(g@).len() == n && ints_i64(r@).len() == n);
            assert(ints_i64(private.f@).len() == n && ints_i64(m@).len() == n);
            assert forall|k: int| 0 <= k < n implies -1 <= #[trigger] ints_i64(g@)[k] <= 1 by {}
            assert forall|k: int| 0 <= k < n implies -1 <= #[trigger] ints_i64(r@)[k] <= 1 by {}
            assert forall|k: int| 0 <= k < n implies -1 <= #[trigger] ints_i64(private.f@)[k] <= 1 by {}
            assert forall|k: int| 0 <= k < n implies -half <= #[trigger] ints_i64(m@)[k] <= half by {
                assert(ints_i64(m@)[k] == m@[k] as int);
            }
            let dd = start.d as int;
            lemma_ternary_support(ints_i64(g@), start.d, start.d);
            lemma_ternary_support(ints_i64(private.f@), start.d + 1, start.d);
            assert forall|i: int, j: int| 0 <= i < n && 0 <= j < n implies -1 <= #[trigger] (ints_i64(g@)[i] * ints_i64(r@)[j]) <= 1 by {
                lemma_mul_abs_bound_local(ints_i64(g@)[i], ints_i64(r@)[j], 1, 1);
            }
            assert forall|i: int, j: int| 0 <= i < n && 0 <= j < n implies -half <= #[trigger] (ints_i64(private.f@)[i] * ints_i64(m@)[j]) <= half by {
                lemma_mul_abs_bound_local(ints_i64(private.f@)[i], ints_i64(m@)[j], 1, half);
            }
            assert(2 * dd * 1 <= i64::MAX && (2 * dd + 1) * half <= i64::MAX && half <= i64::MAX) by (nonlinear_arith)
                requires
                    2 * dd * p + (2 * dd + 1) * half <= i64::MAX,
                    p >= 2,
                    0 <= half,
                    0 <= dd,
            ;
            lemma_product_fits_sparse(grp, ints_i64(g@), ints_i64(r@), 2 * dd, 1);
            lemma_product_fits_sparse(grp, ints_i64(private.f@), ints_i64(m@), 2 * dd + 1, half);
        }
        let gr = self.multiply_integer(&g, &r);
        let fm = self.multiply_integer(&private.f, &m);
        proof {
            assert(grp == self@.group);
            assert(ints_i64(gr@).len() == gr.len());
            assert(ints_i64(fm@).len() == fm.len());
            assert(gr.len() == n && fm.len() == n);
            assert forall|k: int| 0 <= k < gr.len() implies i64::MIN <= p * #[trigger] gr@[k] <= i64::MAX by {
                assert(ints_i64(gr@)[k] == gr@[k] as int);
                assert(ints_i64(gr@)[k] == group_product(grp, ints_i64(g@), ints_i64(r@))[k]);
                let dd = start.d as int;
                assert(-(2 * dd * 1) <= group_product(grp, ints_i64(g@), ints_i64(r@))[k] <= 2 * dd * 1);
                let v = gr@[k] as int;
                assert(-(2 * dd * p + (2 * dd + 1) * half) <= p * v <= 2 * dd * p + (2 * dd + 1) * half) by (nonlinear_arith)
                    requires
                        -(2 * dd * 1) <= v <= 2 * dd * 1,
                        0 <= p,
                        0 <= half,
                        0 <= dd,
                ;
            }
        }
        let scaled = scalar_mul_i64(p as i64, &gr);
        proof {
            assert forall|k: int| 0 <= k < scaled.len() && k < fm.len() implies i64::MIN <= #[trigger] scaled@[k] + #[trigger] fm@[k] <= i64::MAX by {
                assert(ints_i64(gr@)[k] == gr@[k] as int);
                assert(ints_i64(fm@)[k] == fm@[k] as int);
                assert(ints_i64(gr@)[k] == group_product(grp, ints_i64(g@), ints_i64(r@))[k]);
                assert(ints_i64(fm@)[k] == group_product(grp, ints_i64(private.f@), ints_i64(m@))[k]);
                let dd = start.d as int;
                let v = gr@[k] as int;
                let w = fm@[k] as int;
                assert(-(2 * dd * 1) <= v <= 2 * dd * 1);
                assert(-((2 * dd + 1) * half) <= w <= (2 * dd + 1) * half);
                assert(-(2 * dd * p + (2 * dd + 1) * half) <= p * v + w <= 2 * dd * p + (2 * dd + 1) * half) by (nonlinear_arith)
                    requires
                        -(2 * dd * 1) <= v <= 2 * dd * 1,
                        -((2 * dd + 1) * half) <= w <= (2 * dd + 1) * half,
                        0 <= half,
                        0 <= p,
                        0 <= dd,
                ;
            }
        }
        let expected = add_i64_vectors(&scaled, &fm);
        let success = same_signed(&decrypted, &m);
        let no_wrap = same_signed(&a_lift, &expected);
        proof {
            if no_wrap {
                let fi = ints_i64(private.f@);
                let fpi = ints_u64(private.f_p@);
                let mi = ints_i64(m@);
                let gri = group_product(grp, ints_i64(g@), ints_i64(r@));
                let big_a = ints_i64(a_lift@);
                // the key inverts f modulo p
                lemma_residues_reduce(fi, p);
                assert forall|x: int| 0 <= x < n implies #[trigger] reduce(reduce(fi, p as int), p as int)[x] == reduce(fi, p as int)[x] by {
                    lemma_mod_twice(fi[x], p as int);
                }
                assert(reduce(reduce(fi, p as int), p as int) =~= reduce(fi, p as int));
                lemma_product_congruent(grp, fpi, fpi, reduce(fi, p as int), fi, p as int);
                // no wrap-around: the lift is p g r + f m
                lemma_ints_i64_injective(a_lift@, expected@);
                assert forall|x: int| 0 <= x < n implies #[trigger] big_a[x] == p * gri[x] + group_product(grp, fi, mi)[x] by {
                    assert(big_a[x] == expected@[x] as int);
                    assert(ints_i64(gr@)[x] == gr@[x] as int);
                    assert(ints_i64(fm@)[x] == fm@[x] as int);
                }
                // the plaintext is centered
                assert forall|x: int| 0 <= x < n implies spec_center_lift(#[trigger] mi[x], p as int) == mi[x] by {
                    lemma_center_lift_fixes(mi[x], p as int);
                }
                lemma_decryption_recovers_plaintext(grp, fi, fpi, gri, mi, big_a, p as int);
                lemma_ints_i64_injective(decrypted@, m@);
            }
            // the outcome, as a function of the key and the generator
            let s1 = lcg_advance(s0, (private.attempts * (2 * start.d + 1)) as nat);
            lemma_lcg_advance_add(s1, 2 * start.d, 2 * start.d);
            lemma_lcg_advance_add(s1, 4 * start.d, n as nat);
            lemma_lcg_advance_add(s0, (private.attempts * (2 * start.d + 1)) as nat, (4 * start.d + n) as nat);
            lemma_as_words(h@, scheme_product(grp, private.f_q@, residues_of(ints_i64(g@), q), q));
            lemma_as_words(e@, ints_u64(e@));
            lemma_ints_i64_injective(decrypted@, m@);
            lemma_ints_i64_injective(a_lift@, expected@);
            assert(ints_i64(expected@) =~= affine(p as int, group_product(grp, ints_i64(g@), ints_i64(r@)), group_product(grp, ints_i64(private.f@), ints_i64(m@)))) by {
                assert forall|x: int| 0 <= x < n implies #[trigger] ints_i64(expected@)[x] == affine(p as int, group_product(grp, ints_i64(g@), ints_i64(r@)), group_product(grp, ints_i64(private.f@), ints_i64(m@)))[x] by {
                    assert(ints_i64(gr@)[x] == gr@[x] as int);
                    assert(ints_i64(fm@)[x] == fm@[x] as int);
                }
            }
            assert((success, no_wrap) == trial_outcome(grp, p, q, start.d, private, s1));
        }
        Ok(TrialResult { success, no_wrap, key_attempts: private.attempts })
    }

    /// Run repeated randomized trials with a generator seeded by `seed`.
    pub fn run_trials(&mut self, trials: usize, max_key_tries: usize, seed: u64) -> (r: TrialSummary)
        requires
            old(self).wf(),
            old(self)@.q <= i64::MAX,
            old(self)@.p <= usize::MAX,
            trial_fits(old(self)@.p, old(self)@.d),
        ensures
            final(self).wf(),
            final(self)@ == with_stats(old(self)@, final(self)@.stats),
            r.requested_trials == trials,
            r.completed_trials + r.keygen_failures == trials,
            r.successes <= r.completed_trials,
            r.no_wraps <= r.completed_trials,
            r.completed_trials > 0 <==> r.max_key_attempts is Some,
            r.max_key_attempts matches Some(k) ==> 1 <= k <= max_key_tries,
            r.completed_trials <= r.total_key_attempts <= r.completed_trials * max_key_tries,
            max_key_tries == 0 ==> r.completed_trials == 0,
            r.no_wraps <= r.successes,
            r.backend_stats@ == final(self)@.stats,
            exists|outcomes: Seq<Option<TrialResult>>, states: Seq<u64>|
                #[trigger] trial_run(
                    old(self)@.group,
                    old(self)@.p,
                    old(self)@.q,
                    old(self)@.d,
                    max_key_tries as nat,
                    seed,
                    outcomes,
                    states,
                ) && outcomes.len() == trials && r.completed_trials == completed_count(outcomes)
                    && r.successes == success_count(outcomes) && r.no_wraps == no_wrap_count(outcomes)
                    && r.total_key_attempts == attempts_total(outcomes) && r.max_key_attempts == attempts_max(
                    outcomes,
                ),
    {
        let ghost start = self@;
        let mut rng = Lcg::new(seed);
        let mut completed: usize = 0;
        let mut successes: usize = 0;
        let mut no_wraps: usize = 0;
        let mut keygen_failures: usize = 0;
        let mut total: u128 = 0;
        let mut max_attempts: Option<usize> = None;
        let ghost mut outcomes: Seq<Option<TrialResult>> = Seq::empty();
        let ghost mut states: Seq<u64> = seq![seed];
        for t in 0..trials
            invariant
                trial_run(start.group, start.p, start.q, start.d, max_key_tries as nat, seed, outcomes, states),
                outcomes.len() == t,
                states.last() == rng@,
                completed == completed_count(outcomes),
                successes == success_count(outcomes),
                no_wraps == no_wrap_count(outcomes),
                total == attempts_total(outcomes),
                max_attempts == attempts_max(outcomes),
                self.wf(),
                self@ == with_stats(start, self@.stats),
                start == old(self)@,
                start.q <= i64::MAX,
                start.p <= usize::MAX,
                trial_fits(start.p, start.d),
                completed + keygen_failures == t,
                successes <= completed,
                no_wraps <= completed,
                no_wraps <= successes,
                completed > 0 <==> max_attempts is Some,
                max_attempts matches Some(k) ==> 1 <= k <= max_key_tries,
                completed <= total <= completed * max_key_tries,
                max_key_tries == 0 ==> completed == 0,
        {
            let ghost before = rng@;
            let outcome = self.trial(&mut rng, max_key_tries);
            proof {
                let o2 = outcomes.push(completed_result(outcome));
                let s2 = states.push(rng@);
                assert(o2.drop_last() =~= outcomes);
                assert forall|i: int| 0 <= i < o2.len() implies #[trigger] trial_step(
                    start.group,
                    start.p,
                    start.q,
                    start.d,
                    max_key_tries as nat,
                    s2[i],
                    o2[i],
                    s2[i + 1],
                ) by {
                    if i < t {
                        assert(s2[i] == states[i] && s2[i + 1] == states[i + 1] && o2[i] == outcomes[i]);
                    }
                }
                outcomes = o2;
                states = s2;
            }
            match outcome {
                Ok(result) => {
                    proof {
                        assert(total + result.key_attempts <= (completed + 1) * max_key_tries) by (nonlinear_arith)
                            requires
                                total <= completed * max_key_tries,
                                result.key_attempts <= max_key_tries,
                        ;
                        assert((completed + 1) * max_key_tries <= u128::MAX) by (nonlinear_arith)
                            requires
                                completed + 1 <= usize::MAX,
                                max_key_tries <= usize::MAX,
                                usize::MAX <= 0xffff_ffff_ffff_ffff,
                        ;
                    }
                    completed = completed + 1;
                    if result.success {
                        successes = successes + 1;
                    }
                    if result.no_wrap {
                        no_wraps = no_wraps + 1;
                    }
                    total = total + result.key_attempts as u128;
                    max_attempts = match max_attempts {
                        Some(k) => if result.key_attempts > k {
                            Some(result.key_attempts)
                        } else {
                            Some(k)
                        },
                        None => Some(result.key_attempts),
                    };
                },
                Err(_) => {
                    keygen_failures = keygen_failures + 1;
                },
            }
        }
        TrialSummary {
            requested_trials: trials,
            completed_trials: completed,
            successes,
            no_wraps,
            keygen_failures,
            total_key_attempts: total,
            max_key_attempts: max_attempts,
            backend_stats: self.stats.snapshot(),
        }
    }

    /// Multiply two modular coefficient vectors.
    pub fn multiply_mod(&mut self, lhs: &[u64], rhs: &[u64], modulus: u64) -> (r: Result<
        Vec<u64>,
        NtruError,
    >)
        requires
            old(self).wf(),
        ensures
            final(self).wf(),
            r is Err <==> lhs.len() != old(self)@.group.order() || rhs.len() != old(
                self,
            )@.group.order() || modulus == 0,
            r matches Err(e) ==> e is Shape && final(self)@ == old(self)@,
            r matches Ok(v) ==> v.len() == old(self)@.group.order() && ints_u64(v@)
                == scheme_product(old(self)@.group, lhs@, rhs@, modulus) && final(self)@
                == with_stats(
                old(self)@,
                bumped(old(self)@.stats, multiply_backend(old(self)@.group, lhs@, rhs@, modulus)),
            ),
    {
        let order = self.group.order();
        if lhs.len() != order || rhs.len() != order || modulus == 0 {
            return Err(NtruError::Shape);
        }
        let ghost g = self@.group;
        let fast = self.try_fft_multiply(lhs, rhs, modulus);
        match fast {
            Some(product) => {
                assert(ints_u64(product@).len() == product@.len());
                Ok(product)
            },
            None => {
                self.stats.record(Backend::NaiveMultiply);
                let product = self.naive_multiply_mod(lhs, rhs, modulus);
                assert(ints_u64(product@).len() == product@.len());
                Ok(product)
            },
        }
    }

    /// The product through the group's fft crate, where that route applies.
    fn try_fft_multiply(&mut self, lhs: &[u64], rhs: &[u64], modulus: u64) -> (r: Option<Vec<u64>>)
        requires
            old(self).wf(),
            lhs.len() == old(self)@.group.order(),
            rhs.len() == old(self)@.group.order(),
            modulus > 0,
        ensures
            final(self).wf(),
            r is Some <==> multiply_backend(old(self)@.group, lhs@, rhs@, modulus) != Backend::NaiveMultiply,
            r matches Some(v) ==> v.len() == lhs.len() && ints_u64(v@) == group_product_mod(
                old(self)@.group,
                ints_u64(lhs@),
                ints_u64(rhs@),
                modulus as int,
            ),
            final(self)@ == with_stats(
                old(self)@,
                if r is Some {
                    bumped(old(self)@.stats, multiply_backend(old(self)@.group, lhs@, rhs@, modulus))
                } else {
                    old(self)@.stats
                },
            ),
    {
        match self.group.kind() {
            GroupKind::Dihedral => self.try_dihedral_fft_multiply(lhs, rhs, modulus),
            GroupKind::Symmetric => {
                let product = self.try_symmetric_fft_multiply(lhs, rhs, modulus);
                proof {
                    if product is Some {
                        let v = product->Some_0;
                        assert(ints_u64(v@).len() == v@.len());
                    }
                }
                product
            },
            GroupKind::Cyclic => None,
        }
    }

    /// Check that `inverse` inverts `element` on both sides.
    fn verify_inverse(&mut self, element: &[u64], inverse: &[u64], modulus: u64) -> (r: Result<(), NtruError>)
        requires
            old(self).wf(),
            element.len() == old(self)@.group.order(),
            inverse.len() == old(self)@.group.order(),
            modulus > 0,
        ensures
            final(self).wf(),
            r is Ok <==> inverts(old(self)@.group, element@, inverse@, modulus),
            r matches Err(e) ==> e is NotInvertible,
            group_product_mod(
                old(self)@.group,
                ints_u64(element@),
                ints_u64(inverse@),
                modulus as int,
            ) == one_mod_spec(old(self)@.group.order(), modulus as int) && group_product_mod(
                old(self)@.group,
                ints_u64(inverse@),
                ints_u64(element@),
                modulus as int,
            ) == one_mod_spec(old(self)@.group.order(), modulus as int) ==> r is Ok,
            r is Ok ==> group_product_mod(old(self)@.group, ints_u64(element@), ints_u64(inverse@), modulus as int)
                == one_mod_spec(old(self)@.group.order(), modulus as int) && group_product_mod(
                old(self)@.group,
                ints_u64(inverse@),
                ints_u64(element@),
                modulus as int,
            ) == one_mod_spec(old(self)@.group.order(), modulus as int),
            r is Ok ==> final(self)@ == with_stats(
                old(self)@,
                bumped(
                    bumped(old(self)@.stats, multiply_backend(old(self)@.group, element@, inverse@, modulus)),
                    multiply_backend(old(self)@.group, inverse@, element@, modulus),
                ),
            ),
            r is Err ==> final(self)@.group == old(self)@.group && final(self)@.p == old(self)@.p
                && final(self)@.q == old(self)@.q && final(self)@.d == old(self)@.d,
    {
        let ghost g = self@.group;
        let identity = self.one_mod(modulus);
        let left = match self.multiply_mod(element, inverse, modulus) {
            Ok(v) => v,
            Err(e) => {
                return Err(e);
            },
        };
        proof {
            lemma_ints_u64_injective(left@, identity@);
        }
        if !same_coefficients(&left, &identity) {
            return Err(NtruError::NotInvertible);
        }
        let right = match self.multiply_mod(inverse, element, modulus) {
            Ok(v) => v,
            Err(e) => {
                return Err(e);
            },
        };
        proof {
            lemma_ints_u64_injective(right@, identity@);
        }
        if !same_coefficients(&right, &identity) {
            return Err(NtruError::NotInvertible);
        }
        Ok(())
    }

    /// Invert a modular coefficient vector: the result is a two-sided inverse.
    /// Modulo a prime, an element reported as not invertible has no inverse.
    pub fn inverse_mod(&mut self, element: &[u64], modulus: u64) -> (r: Result<Vec<u64>, NtruError>)
        requires
            old(self).wf(),
        ensures
            final(self).wf(),
            final(self)@ == with_stats(old(self)@, final(self)@.stats),
            (r matches Err(NtruError::Shape)) <==> element.len() != old(self)@.group.order() || modulus <= 1,
            r matches Err(NtruError::Shape) ==> final(self)@ == old(self)@,
            r matches Err(e) ==> e is Shape || e is NotInvertible,
            r matches Ok(v) ==> v.len() == old(self)@.group.order() && inverts(old(self)@.group, element@, v@, modulus),
            r matches Ok(v) ==> residues(v@, modulus),
            r matches Ok(v) ==> group_product_mod(old(self)@.group, ints_u64(element@), ints_u64(v@), modulus as int)
                == one_mod_spec(old(self)@.group.order(), modulus as int),
            r matches Ok(v) ==> group_product_mod(old(self)@.group, ints_u64(v@), ints_u64(element@), modulus as int)
                == one_mod_spec(old(self)@.group.order(), modulus as int),
            (r matches Err(NtruError::NotInvertible)) && is_prime_number(modulus as nat) && (old(self)@.group.kind
                != GroupKind::Dihedral || spec_gcd(2 * old(self)@.group.n, modulus as nat) != 1) ==> zero_divisor_mod(
                old(self)@.group,
                ints_u64(element@),
                modulus as int,
            ),
            (r matches Err(NtruError::NotInvertible)) && is_prime_number(modulus as nat) ==> !left_invertible_mod(
                old(self)@.group,
                ints_u64(element@),
                modulus as int,
            ),
            (r matches Err(NtruError::NotInvertible)) && is_prime_power(modulus as nat) && !spec_is_prime(modulus)
                ==> zero_divisor_mod(
                old(self)@.group,
                ints_u64(element@),
                modulus as int,
            ) && !left_invertible_mod(old(self)@.group, ints_u64(element@), modulus as int),
            r matches Ok(v) ==> inversion_counted(old(self)@.stats, final(self)@.stats, old(self)@.group, element@, v@, modulus),
    {
        let ghost g = self@.group;
        let ghost start = self@;
        let order = self.group.order();
        if element.len() != order || modulus == 0 {
            return Err(NtruError::Shape);
        }
        match self.group.kind() {
            GroupKind::Cyclic => {
                let inverse = match cyclic_inverse_mod(element, modulus) {
                    Ok(v) => v,
                    Err(e) => {
                        return Err(e);
                    },
                };
                proof {
                    lemma_cyclic_commutative(order as nat, ints_u64(inverse@), ints_u64(element@));
                }
                self.stats.record(Backend::CyclicInvert);
                match self.verify_inverse(element, &inverse, modulus) {
                    Ok(()) => {},
                    Err(e) => {
                        return Err(e);
                    },
                }
                Ok(inverse)
            },
            GroupKind::Dihedral => {
                match dihedral_inverse_via_cyclic(element, self.group.n(), modulus) {
                    Ok(inverse) => {
                        self.stats.record(Backend::DihedralCyclicInvert);
                        match self.verify_inverse(element, &inverse, modulus) {
                            Ok(()) => {},
                            Err(e) => {
                                return Err(e);
                            },
                        }
                        Ok(inverse)
                    },
                    Err(error) => {
                        if is_prime(modulus) && gcd(2 * self.group.n() as u64, modulus) == 1 {
                            return Err(error);
                        }
                        let inverse = match self.linear_solve_inverse(element, modulus) {
                            Ok(v) => v,
                            Err(e) => {
                                return Err(e);
                            },
                        };
                        self.stats.record(Backend::LinearSolveInvert);
                        match self.verify_inverse(element, &inverse, modulus) {
                            Ok(()) => {},
                            Err(e) => {
                                return Err(e);
                            },
                        }
                        Ok(inverse)
                    },
                }
            },
            GroupKind::Symmetric => {
                let inverse = match self.linear_solve_inverse(element, modulus) {
                    Ok(v) => v,
                    Err(e) => {
                        return Err(e);
                    },
                };
                self.stats.record(Backend::LinearSolveInvert);
                match self.verify_inverse(element, &inverse, modulus) {
                    Ok(()) => {},
                    Err(e) => {
                        return Err(e);
                    },
                }
                Ok(inverse)
            },
        }
    }

    /// Try to invert, returning `None` for noninvertible elements.
    pub fn try_inverse_mod(&mut self, element: &[u64], modulus: u64) -> (r: Option<Vec<u64>>)
        requires
            old(self).wf(),
        ensures
            final(self).wf(),
            final(self)@ == with_stats(old(self)@, final(self)@.stats),
            element.len() != old(self)@.group.order() || modulus <= 1 ==> r is None && final(self)@ == old(self)@,
            r matches Some(v) ==> v.len() == old(self)@.group.order() && inverts(old(self)@.group, element@, v@, modulus),
            r matches Some(v) ==> residues(v@, modulus),
            r matches Some(v) ==> group_product_mod(old(self)@.group, ints_u64(element@), ints_u64(v@), modulus as int)
                == one_mod_spec(old(self)@.group.order(), modulus as int),
            r matches Some(v) ==> group_product_mod(old(self)@.group, ints_u64(v@), ints_u64(element@), modulus as int)
                == one_mod_spec(old(self)@.group.order(), modulus as int),
            r is None && element.len() == old(self)@.group.order() && modulus > 1 && is_prime_number(modulus as nat)
                && (old(self)@.group.kind != GroupKind::Dihedral || spec_gcd(2 * old(self)@.group.n, modulus as nat)
                != 1) ==> zero_divisor_mod(
                old(self)@.group,
                ints_u64(element@),
                modulus as int,
            ),
            r is None && element.len() == old(self)@.group.order() && modulus > 1 && is_prime_number(modulus as nat)
                ==> !left_invertible_mod(old(self)@.group, ints_u64(element@), modulus as int),
            r is None && element.len() == old(self)@.group.order() && modulus > 1 && refusals_exact(modulus)
                ==> !left_invertible_mod(old(self)@.group, ints_u64(element@), modulus as int),
            r is None && element.len() == old(self)@.group.order() && modulus > 1 && is_prime_power(modulus as nat)
                && !spec_is_prime(modulus) ==> zero_divisor_mod(
                old(self)@.group,
                ints_u64(element@),
                modulus as int,
            ) && !left_invertible_mod(old(self)@.group, ints_u64(element@), modulus as int),
            r matches Some(v) ==> inversion_counted(old(self)@.stats, final(self)@.stats, old(self)@.group, element@, v@, modulus),
    {
        match self.inverse_mod(element, modulus) {
            Ok(v) => Some(v),
            Err(_) => None,
        }
    }

    /// The matrix of left multiplication by `element` modulo `modulus`: the
    /// entry in row `x` and column `j` is the sum of the coefficients
    /// `element[i]` with `g_i g_j = g_x`, reduced.
    fn left_multiplication_matrix(&self, element: &[u64], modulus: u64) -> (r: Vec<Vec<u64>>)
        requires
            self.wf(),
            element.len() == self@.group.order(),
            modulus > 0,
        ensures
            r.len() == self@.group.order(),
            forall|x: int| 0 <= x < r.len() ==> #[trigger] r@[x]@.len() == self@.group.order(),
            forall|x: int, j: int|
                0 <= x < r.len() && 0 <= j < r.len() ==> #[trigger] r@[x]@[j] as int == column_sum(
                    self@.group,
                    ints_u64(element@),
                    x,
                    j,
                ) % (modulus as int),
    {
        let ghost g = self@.group;
        let ghost e = ints_u64(element@);
        let ghost m = modulus as int;
        let order = self.group.order();
        let mut columns: Vec<Vec<u64>> = Vec::new();
        for column in 0..order
            invariant
                self.wf(),
                g == self@.group,
                order == g.order(),
                element.len() == order,
                e == ints_u64(element@),
                modulus > 0,
                m == modulus,
                columns.len() == column,
                forall|c: int| 0 <= c < column ==> #[trigger] columns@[c]@.len() == order,
                forall|c: int, x: int|
                    0 <= c < column && 0 <= x < order ==> #[trigger] columns@[c]@[x] as int
                        == column_sum(g, e, x, c) % m,
        {
            let mut values: Vec<u64> = vec![0; order];
            proof {
                lemma_small_mod(0, modulus as nat);
            }
            for index in 0..order
                invariant
                    self.wf(),
                    g == self@.group,
                    order == g.order(),
                    element.len() == order,
                    e == ints_u64(element@),
                    column < order,
                    modulus > 0,
                    m == modulus,
                    values.len() == order,
                    forall|x: int| 0 <= x < order ==> #[trigger] values@[x] as int == column_partial(g, e, x, column as int, index as int) % m,
            {
                let coeff = element[index] % modulus;
                let ghost before = values@;
                assert(e[index as int] == element@[index as int] as int);
                if coeff != 0 {
                    let row = self.group.multiply_index(index, column);
                    let updated = add_mod(values[row], coeff, modulus);
                    values.set(row, updated);
                }
                proof {
                    assert forall|x: int| 0 <= x < order implies #[trigger] values@[x] as int == column_partial(g, e, x, column as int, index + 1) % m by {
                        let prev = column_partial(g, e, x, column as int, index as int);
                        assert(column_partial(g, e, x, column as int, index + 1) == prev + (if g.mul(index as int, column as int) == x { e[index as int] } else { 0 }));
                        if g.mul(index as int, column as int) == x {
                            lemma_add_mod_noop(prev, e[index as int], m);
                            if coeff == 0 {
                                lemma_mod_twice(prev, m);
                            } else {
                                lemma_mod_twice(prev, m);
                            }
                        }
                    }
                }
            }
            columns.push(values);
        }
        let mut matrix: Vec<Vec<u64>> = Vec::new();
        for x in 0..order
            invariant
                order == g.order(),
                m == modulus,
                columns.len() == order,
                forall|c: int| 0 <= c < order ==> #[trigger] columns@[c]@.len() == order,
                forall|c: int, y: int|
                    0 <= c < order && 0 <= y < order ==> #[trigger] columns@[c]@[y] as int
                        == column_sum(g, e, y, c) % m,
                matrix.len() == x,
                forall|a: int| 0 <= a < x ==> #[trigger] matrix@[a]@.len() == order,
                forall|a: int, j: int|
                    0 <= a < x && 0 <= j < order ==> #[trigger] matrix@[a]@[j] as int == column_sum(g, e, a, j) % m,
        {
            let mut line: Vec<u64> = Vec::new();
            for j in 0..order
                invariant
                    x < order,
                    columns.len() == order,
                    forall|c: int| 0 <= c < order ==> #[trigger] columns@[c]@.len() == order,
                    forall|c: int, y: int|
                        0 <= c < order && 0 <= y < order ==> #[trigger] columns@[c]@[y] as int
                            == column_sum(g, e, y, c) % m,
                    line.len() == j,
                    forall|k: int| 0 <= k < j ==> #[trigger] line@[k] as int == column_sum(g, e, x as int, k) % m,
            {
                line.push(columns[j][x]);
            }
            matrix.push(line);
        }
        matrix
    }

    /// Invert by solving `element * y = 1` as a linear system modulo `modulus`;
    /// the solution also satisfies `y * element = 1`. Modulo a prime, a refusal
    /// means that `element` is a zero divisor.
    pub fn linear_solve_inverse(&self, element: &[u64], modulus: u64) -> (r: Result<Vec<u64>, NtruError>)
        requires
            self.wf(),
            element.len() == self@.group.order(),
            modulus > 0,
        ensures
            (r matches Err(NtruError::Shape)) <==> modulus == 1,
            r matches Err(e) ==> e is Shape || e is NotInvertible,
            r matches Ok(y) ==> y.len() == self@.group.order() && residues(y@, modulus)
                && group_product_mod(self@.group, ints_u64(element@), ints_u64(y@), modulus as int)
                == one_mod_spec(self@.group.order(), modulus as int),
            r matches Ok(y) ==> group_product_mod(self@.group, ints_u64(y@), ints_u64(element@), modulus as int)
                == one_mod_spec(self@.group.order(), modulus as int),
            r is Ok ==> !zero_divisor_mod(self@.group, ints_u64(element@), modulus as int),
            (r matches Err(NtruError::NotInvertible)) && (is_prime_number(modulus as nat) || is_prime_power(
                modulus as nat,
            )) ==> zero_divisor_mod(
                self@.group,
                ints_u64(element@),
                modulus as int,
            ),
            (r matches Err(NtruError::NotInvertible)) && (is_prime_number(modulus as nat) || is_prime_power(
                modulus as nat,
            )) ==> !left_invertible_mod(
                self@.group,
                ints_u64(element@),
                modulus as int,
            ),
    {
        let ghost g = self@.group;
        let ghost e = ints_u64(element@);
        let ghost m = modulus as int;
        let order = self.group.order();
        let matrix = self.left_multiplication_matrix(element, modulus);
        let rhs = self.one_mod(modulus);
        proof {
            assert(square_system(rows_of(matrix@), rhs@)) by {
                assert forall|i: int| 0 <= i < rows_of(matrix@).len() implies #[trigger] rows_of(
                    matrix@,
                )[i].len() == rhs@.len() by {
                    assert(matrix@[i]@.len() == order);
                }
            }
        }
        let solved = solve_modular_linear_system(&matrix, &rhs, modulus);
        match solved {
            Ok(y) => {
                proof {
                    let b = ints_u64(y@);
                    let one = one_mod_spec(order as nat, m);
                    assert forall|x: int| 0 <= x < order implies #[trigger] group_product_mod(g, e, b, m)[x]
                        == one[x] by {
                        assert(((dot(rows_of(matrix@)[x], b, order as int) - rhs@[x] as int) % m) == 0);
                        lemma_left_multiplication_matrix(g, e, b, x);
                        let cols = Seq::new(order as nat, |j: int| column_sum(g, e, x, j));
                        assert forall|k: int| 0 <= k < order implies #[trigger] (rows_of(matrix@)[x][k] as int) % m == cols[k] % m by {
                            assert(rows_of(matrix@)[x][k] == matrix@[x]@[k]);
                            lemma_mod_twice(column_sum(g, e, x, k), m);
                        }
                        lemma_dot_congruent(rows_of(matrix@)[x], cols, b, order as int, m);
                        crate::algebra::lemma_sum_ext(order as int, |k: int| cols[k] * b[k], |j: int| column_sum(g, e, x, j) * b[j]);
                        let cv = convolution(g, e, b, x);
                        let d = dot(rows_of(matrix@)[x], b, order as int);
                        let rv = rhs@[x] as int;
                        assert(rv == one[x]);
                        lemma_mod_equivalence(d, rv, m);
                        lemma_mod_equivalence(cv, rv, m);
                        lemma_small_mod(rhs@[x] as nat, modulus as nat);
                    }
                    assert(group_product_mod(g, e, b, m) =~= one);
                    let z = Seq::new(order as nat, |x: int| 0int);
                    assert forall|c: Seq<int>| c.len() == order && #[trigger] group_product_mod(g, e, c, m) == z
                        implies !nonzero_mod(c, m) by {
                        assert forall|x: int| 0 <= x < order implies #[trigger] dot(rows_of(matrix@)[x], c, order as int) % m == 0 by {
                            assert(rows_of(matrix@)[x] == matrix@[x]@);
                            lemma_matrix_row_product(g, e, matrix@[x]@, c, x, m);
                            assert(group_product_mod(g, e, c, m)[x] == 0);
                        }
                        assert(in_kernel(rows_of(matrix@), c, order as int, m));
                    }
                    lemma_right_inverse_is_two_sided(g, e, b, m);
                }
                Ok(y)
            },
            Err(err) => {
                proof {
                    if err is NotInvertible && (is_prime_number(modulus as nat) || is_prime_power(modulus as nat)) {
                        let c = choose|c: Seq<int>|
                            c.len() == order && nonzero_mod(c, m) && #[trigger] in_kernel(rows_of(matrix@), c, order as int, m);
                        let z = Seq::new(order as nat, |x: int| 0int);
                        assert forall|x: int| 0 <= x < order implies #[trigger] group_product_mod(g, e, c, m)[x] == z[x] by {
                            assert(rows_of(matrix@)[x] == matrix@[x]@);
                            lemma_matrix_row_product(g, e, matrix@[x]@, c, x, m);
                            assert(dot(rows_of(matrix@)[x], c, order as int) % m == 0);
                        }
                        assert(group_product_mod(g, e, c, m) =~= z);
                        lemma_zero_divisor_not_left_invertible(g, e, m);
                    }
                }
                Err(err)
            },
        }
    }

    /// The schoolbook product modulo `modulus`.
    fn naive_multiply_mod(&self, lhs: &[u64], rhs: &[u64], modulus: u64) -> (r: Vec<u64>)
        requires
            self.wf(),
            lhs.len() == self@.group.order(),
            rhs.len() == self@.group.order(),
            modulus > 0,
        ensures
            ints_u64(r@) == group_product_mod(self@.group, ints_u64(lhs@), ints_u64(rhs@), modulus as int),
    {
        let ghost g = self@.group;
        let ghost a = ints_u64(lhs@);
        let ghost b = ints_u64(rhs@);
        let ghost m = modulus as int;
        let order = self.group.order();
        let mut out: Vec<u64> = vec![0; order];
        proof {
            lemma_small_mod(0, modulus as nat);
        }
        for i in 0..order
            invariant
                self.wf(),
                g == self@.group,
                order == g.order(),
                lhs.len() == order,
                rhs.len() == order,
                modulus > 0,
                m == modulus,
                a == ints_u64(lhs@),
                b == ints_u64(rhs@),
                out.len() == order,
                forall|x: int| 0 <= x < order ==> #[trigger] out@[x] as int == partial_product(g, a, b, i as int, 0, x) % m,
        {
            let lhs_value = lhs[i] % modulus;
            if lhs_value == 0 {
                proof {
                    assert forall|x: int| 0 <= x < order implies #[trigger] out@[x] as int == partial_product(g, a, b, i + 1, 0, x) % m by {
                        lemma_partial_skip_row_mod(g, a, b, i as int, x, m);
                    }
                }
            } else {
                for j in 0..order
                    invariant
                        self.wf(),
                        g == self@.group,
                        order == g.order(),
                        lhs.len() == order,
                        rhs.len() == order,
                        i < order,
                        modulus > 0,
                        m == modulus,
                        lhs_value == lhs[i as int] % modulus,
                        a == ints_u64(lhs@),
                        b == ints_u64(rhs@),
                        out.len() == order,
                        forall|x: int| 0 <= x < order ==> #[trigger] out@[x] as int == partial_product(g, a, b, i as int, j as int, x) % m,
                {
                    let rhs_value = rhs[j] % modulus;
                    if rhs_value == 0 {
                        proof {
                            assert forall|x: int| 0 <= x < order implies #[trigger] out@[x] as int == partial_product(g, a, b, i as int, j + 1, x) % m by {
                                lemma_partial_skip_mod(g, a, b, i as int, j as int, x, m);
                            }
                        }
                    } else {
                        let index = self.group.multiply_index(i, j);
                        let ghost before = out@;
                        let updated = add_mod(out[index], mul_mod(lhs_value, rhs_value, modulus), modulus);
                        out.set(index, updated);
                        proof {
                            assert forall|x: int| 0 <= x < order implies #[trigger] out@[x] as int == partial_product(g, a, b, i as int, j + 1, x) % m by {
                                lemma_partial_step_mod(g, a, b, i as int, j as int, x, before[x] as int, out@[x] as int, m);
                            }
                        }
                    }
                }
                proof {
                    assert forall|x: int| 0 <= x < order implies #[trigger] out@[x] as int == partial_product(g, a, b, i + 1, 0, x) % m by {
                        lemma_partial_next_row(g, a, b, i as int, x);
                    }
                }
            }
        }
        assert(ints_u64(out@) =~= group_product_mod(g, a, b, m));
        out
    }
}

/// Check that `Z[C_n]` multiplication is cyclic polynomial multiplication:
/// the basis elements `x^i` and `x^j` multiply to `x^((i + j) mod n)`.
pub fn verify_cyclic_group_algebra_model(n: usize) -> (r: Result<bool, NtruError>)
    requires
        n <= usize::MAX / 4,
    ensures
        r is Err <==> n < 5,
        n == 0 ==> (r matches Err(NtruError::InvalidParameters(msg)) && msg@ == "n must be positive"@),
        0 < n < 5 ==> (r matches Err(NtruError::InvalidParameters(msg)) && msg@
            == "group is too small for the requested ternary density"@),
        r matches Ok(b) ==> b,
{
    let group = match FiniteGroup::cyclic(n) {
        Ok(g) => g,
        Err(e) => {
            return Err(e);
        },
    };
    proof {
        assert(crate::prime::small_primes()[1] == 3);
        assert(spec_is_prime(3));
        assert(spec_gcd(1, 0) == 1);
        assert(spec_gcd(2, 1) == 1);
        assert(spec_gcd(3, 2) == 1);
        assert(spec_gcd(41, 3) == 1);
        assert(spec_gcd(3, 41) == 1);
    }
    let scheme = match GroupAlgebraNtru::new(group, 3, 41, 2) {
        Ok(s) => s,
        Err(e) => {
            return Err(e);
        },
    };
    for i in 0..n
        invariant
            scheme.wf(),
            scheme@.group.kind == GroupKind::Cyclic,
            scheme@.group.n == n,
            scheme@.group.order() == n,
    {
        for j in 0..n
            invariant
                scheme.wf(),
                scheme@.group.kind == GroupKind::Cyclic,
                scheme@.group.n == n,
                scheme@.group.order() == n,
                i < n,
        {
            if scheme.group.multiply_index(i, j) != (i + j) % n {
                return Ok(false);
            }
        }
    }
    Ok(true)
}

} // verus!
