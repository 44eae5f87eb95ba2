//! The calls into the `fft-dihedral` and `fft-symmetric` crates, with what
//! this library relies on about them.
use crate::algebra::{group_product_mod, ints_u64};
use crate::group::{GroupKind, GroupModel};
use crate::perm::is_sorted_permutation_list;
use fft_symmetric::{FftError, SymmetricFft};
use crate::arith::spec_gcd;
use vstd::arithmetic::power::pow;
use vstd::arithmetic::power2::is_pow2;
use vstd::prelude::*;

verus! {

#[verifier::external_type_specification]
#[verifier::external_body]
pub struct ExDihedralError(fft_dihedral::Error);

#[verifier::external_type_specification]
#[verifier::external_body]
pub struct ExFftError(FftError);

#[verifier::external_type_specification]
#[verifier::external_body]
pub struct ExSymmetricFft(SymmetricFft);

/// `m` is a prime number.
pub open spec fn is_prime_number(m: nat) -> bool {
    m > 1 && forall|d: nat| 1 < d < m ==> #[trigger] (m % d) != 0
}

/// What `fft_dihedral::root_of_unity(n, modulus)` returns: the root it finds,
/// or `None` where it reports an error.
pub uninterp spec fn dihedral_root_of_unity(n: usize, modulus: u64) -> Option<u64>;

/// What `fft_dihedral::dihedral_multiply_fft` returns on these rotation and
/// reflection coefficients: the product's rotation coefficients followed by
/// its reflection coefficients, or `None` where it reports an error.
pub uninterp spec fn dihedral_fft_product(
    lhs_rotations: Seq<u64>,
    lhs_reflections: Seq<u64>,
    rhs_rotations: Seq<u64>,
    rhs_reflections: Seq<u64>,
    modulus: u64,
    omega: u64,
) -> Option<Seq<u64>>;

/// Whether `n` is `2^k` for some `k`: halve while even, then compare with one.
pub(crate) fn is_power_of_two(n: usize) -> (r: bool)
    ensures
        r == is_pow2(n as int),
{
    let mut m = n;
    while m > 1 && m % 2 == 0
        invariant
            is_pow2(m as int) == is_pow2(n as int),
        decreases m,
    {
        proof {
            reveal(is_pow2);
        }
        m = m / 2;
    }
    proof {
        reveal(is_pow2);
    }
    m == 1
}

/// Calls `fft_dihedral::root_of_unity`, which asks the `ntt` crate for an
/// `n`th root of unity modulo `modulus` (deterministically, from the
/// factorisation of `modulus`). The contract names the outcome and says that a
/// root for a modulus above one is reduced: `ntt::omega` returns a power
/// reduced modulo `modulus`, or a value combined by the Chinese remainder
/// theorem and reduced into `[0, modulus)`. For an odd modulus and a power of
/// two `n >= 2`, the root is `g^(phi / n)` modulo each prime-power factor, with
/// `g` a unit whose order is `(p - 1) p^j`; so `w^n == 1` and, the group of
/// units modulo `p^e` being cyclic, `w^(n/2)` is its one element of order two,
/// `-1`, modulo every factor and hence modulo `modulus`.
#[verifier::external_body]
pub(crate) fn dihedral_root(n: usize, modulus: u64) -> (r: Result<u64, fft_dihedral::Error>)
    ensures
        r is Ok <==> dihedral_root_of_unity(n, modulus) is Some,
        r matches Ok(w) ==> dihedral_root_of_unity(n, modulus) == Some(w),
        r matches Ok(w) ==> modulus > 1 ==> w < modulus,
        r matches Ok(w) ==> (modulus > 1 && n >= 2 && is_pow2(n as int) && spec_gcd(2 * n as nat, modulus as nat)
            == 1 ==> pow(w as int, n as nat) % (modulus as int) == 1 && pow(w as int, (n / 2) as nat) % (
        modulus as int) == modulus - 1),
{
    fft_dihedral::root_of_unity(n, modulus)
}

/// Calls `fft_dihedral::dihedral_multiply_fft`, the FFT product in the group
/// algebra of `D_{2n}` (coefficients of `r^k` then of `s r^k`). The contract
/// names the outcome, says that both halves of a result have `n` entries, that
/// the modulus one is rejected (`pow_mod(omega, n, 1)` is zero, not one), and
/// that the result is the group-algebra product over `Z / modulus Z` when
/// `2n` is a unit and `omega^n == 1`, `omega^(n/2) == -1`: then `omega` is a
/// principal `n`th root (`n` being a power of two, which the crate checks), so
/// the transforms invert each other and the block formulas are exact. The root
/// must be reduced (the crate hands it to `ntt` as an `i64`), except for the
/// modulus one.
#[verifier::external_body]
pub(crate) fn dihedral_multiply_fft(
    lhs_rotations: &[u64],
    lhs_reflections: &[u64],
    rhs_rotations: &[u64],
    rhs_reflections: &[u64],
    modulus: u64,
    omega: u64,
) -> (r: Result<(Vec<u64>, Vec<u64>), fft_dihedral::Error>)
    requires
        omega < modulus || modulus == 1,
    ensures
        r is Ok <==> dihedral_fft_product(
            lhs_rotations@,
            lhs_reflections@,
            rhs_rotations@,
            rhs_reflections@,
            modulus,
            omega,
        ) is Some,
        r matches Ok((rot, refl)) ==> dihedral_fft_product(
            lhs_rotations@,
            lhs_reflections@,
            rhs_rotations@,
            rhs_reflections@,
            modulus,
            omega,
        ) == Some(rot@ + refl@) && rot.len() == lhs_rotations.len() && refl.len()
            == lhs_rotations.len(),
        modulus == 1 ==> r is Err,
        r matches Ok((rot, refl)) ==> (spec_gcd(2 * lhs_rotations.len() as nat, modulus as nat) == 1 && pow(
            omega as int,
            lhs_rotations.len() as nat,
        ) % (modulus as int) == 1 && pow(omega as int, (lhs_rotations.len() / 2) as nat) % (modulus as int)
            == modulus - 1 ==> forall|g: GroupModel|
            g.kind == GroupKind::Dihedral && g.wf() && g.n == lhs_rotations.len() ==> ints_u64(
                rot@ + refl@,
            ) == group_product_mod(
                g,
                ints_u64(lhs_rotations@ + lhs_reflections@),
                ints_u64(rhs_rotations@ + rhs_reflections@),
                modulus as int,
            )),
{
    fft_dihedral::dihedral_multiply_fft(
        lhs_rotations,
        lhs_reflections,
        rhs_rotations,
        rhs_reflections,
        modulus,
        omega,
    )
}

/// `n!`.
pub open spec fn factorial(n: nat) -> nat
    decreases n,
{
    if n == 0 {
        1
    } else {
        n * factorial((n - 1) as nat)
    }
}

/// Whether `fft_symmetric::SymmetricFft::new(n, modulus)` builds a plan: `n`
/// is at least one, `n!` fits in a `usize`, `modulus` is prime and exceeds `n`.
pub open spec fn symmetric_plan_exists(n: usize, modulus: u64) -> bool {
    &&& n >= 1
    &&& factorial(n as nat) <= usize::MAX
    &&& is_prime_number(modulus as nat)
    &&& modulus > n
}

/// Whether the plan of `fft-symmetric` for `S_n` over the field of `modulus`
/// elements accepts these two coefficient vectors in `SymmetricFft::multiply`.
pub uninterp spec fn symmetric_fft_accepts(n: usize, modulus: u64, lhs: Seq<u64>, rhs: Seq<u64>) -> bool;

/// A plan of the `fft-symmetric` crate for `S_n` over the field of `modulus` elements.
pub struct SymmetricPlan {
    plan: SymmetricFft,
    n: usize,
    modulus: u64,
}

impl SymmetricPlan {
    /// The rank `n` of the symmetric group the plan was built for.
    pub closed spec fn rank(&self) -> usize {
        self.n
    }

    /// The prime modulus the plan was built for.
    pub closed spec fn field_modulus(&self) -> u64 {
        self.modulus
    }
}

/// Calls `fft_symmetric::SymmetricFft::new(n, modulus)`, which builds its
/// tables deterministically from `n` and `modulus`. It fails exactly when
/// `n == 0`, when `n!` overflows a `usize` (`checked_factorial`), when its trial
/// division finds `modulus` composite, or when `modulus <= n`; the contract
/// states that, and that a plan remembers `n` and `modulus`.
#[verifier::external_body]
pub(crate) fn symmetric_plan(n: usize, modulus: u64) -> (r: Result<SymmetricPlan, FftError>)
    ensures
        r is Ok <==> symmetric_plan_exists(n, modulus),
        r matches Ok(plan) ==> plan.rank() == n && plan.field_modulus() == modulus && n >= 1
            && modulus > n,
{
    match SymmetricFft::new(n, modulus) {
        Ok(plan) => Ok(SymmetricPlan { plan, n, modulus }),
        Err(e) => Err(e),
    }
}

/// Calls `SymmetricFft::multiply`, documented as the product
/// `(v * w)_x = sum_{g h = x} v_g w_h` in `F_p[S_n]`, with coefficients indexed by
/// the permutations of `0..n` in lexicographic order and `g h` mapping `i` to
/// `g(h(i))`, and the result reduced into the field. The contract states
/// exactly that, for every such listing of `S_n`, says that a call succeeds
/// only on two inputs of `n!` coefficients (`validate_input`), and names
/// whether it succeeds on those: the transform's internal shape checks are not
/// stated to pass.
#[verifier::external_body]
pub(crate) fn symmetric_multiply_fft(plan: &SymmetricPlan, lhs: &[u64], rhs: &[u64]) -> (r: Result<
    Vec<u64>,
    FftError,
>)
    ensures
        r is Ok <==> symmetric_fft_accepts(plan.rank(), plan.field_modulus(), lhs@, rhs@),
        r is Ok ==> lhs.len() == factorial(plan.rank() as nat) && rhs.len() == factorial(plan.rank() as nat),
        r matches Ok(v) ==> forall|g: GroupModel|
            g.kind == GroupKind::Symmetric && g.n == plan.rank() && is_sorted_permutation_list(
                g.elements,
                g.n,
            ) ==> ints_u64(v@) == group_product_mod(
                g,
                ints_u64(lhs@),
                ints_u64(rhs@),
                plan.field_modulus() as int,
            ),
{
    plan.plan.multiply(lhs, rhs)
}

} // verus!
