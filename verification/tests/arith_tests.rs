use ntru_group_algebra::{
    add_mod, center_lift, center_lift_vector, cyclic_convolution_mod, cyclic_inverse_mod,
    cyclic_involution, dihedral_inverse_via_cyclic, gcd, inv_mod, is_prime, mul_mod, pow_mod,
    signed_to_mod, solve_modular_linear_system, sub_mod, NtruError,
};

#[test]
fn modular_operations_give_exact_residues() {
    assert_eq!(add_mod(5, 9, 7), 0);
    assert_eq!(add_mod(u64::MAX, u64::MAX, 10), 0);
    assert_eq!(sub_mod(2, 5, 7), 4);
    assert_eq!(sub_mod(9, 2, 7), 0);
    assert_eq!(mul_mod(u64::MAX, u64::MAX, 1_000_000_007), 114_944_269);
    assert_eq!(pow_mod(3, 200, 1_000_000_007), 136_318_165);
    assert_eq!(pow_mod(5, 0, 1), 0);
    assert_eq!(pow_mod(5, 0, 7), 1);
}

#[test]
fn gcd_and_inverse_follow_euclid() {
    assert_eq!(gcd(12, 18), 6);
    assert_eq!(gcd(0, 7), 7);
    assert_eq!(gcd(7, 0), 7);
    assert_eq!(gcd(3, 41), 1);
    assert_eq!(inv_mod(3, 7), Some(5));
    assert_eq!(inv_mod(6, 9), None);
    assert_eq!(inv_mod(0, 1), Some(0));
    assert_eq!(inv_mod(10, 7), Some(5));
}

#[test]
fn center_lift_picks_the_centered_representative() {
    assert_eq!(center_lift(5, 7), -2);
    assert_eq!(center_lift(3, 7), 3);
    assert_eq!(center_lift(10, 7), 3);
    assert_eq!(center_lift(4, 8), 4);
    assert_eq!(center_lift(5, 8), -3);
    assert_eq!(center_lift_vector(&[0, 1, 2, 3, 4], 5), vec![0, 1, 2, -2, -1]);
}

#[test]
fn signed_coefficients_become_canonical_residues() {
    assert_eq!(signed_to_mod(&[-1, 5, -7, 0], 3), vec![2, 2, 2, 0]);
    assert_eq!(signed_to_mod(&[i64::MIN, i64::MAX], 10), vec![2, 7]);
}

#[test]
fn primality_matches_known_values() {
    let primes = [2u64, 3, 37, 41, 97, 4099, 2_013_265_921, 18_446_744_073_709_551_557];
    let composites = [0u64, 1, 4, 9, 561, 1105, 3_215_031_751, u64::MAX];
    for value in primes {
        assert!(is_prime(value), "{value} is prime");
    }
    for value in composites {
        assert!(!is_prime(value), "{value} is not prime");
    }
}

#[test]
fn linear_system_is_solved_modulo_five() {
    let matrix = vec![vec![2, 1], vec![1, 1]];
    assert_eq!(solve_modular_linear_system(&matrix, &[1, 0], 5), Ok(vec![1, 4]));
}

#[test]
fn linear_system_reports_shape_and_singularity() {
    let matrix = vec![vec![2, 1], vec![1]];
    assert_eq!(solve_modular_linear_system(&matrix, &[1, 0], 5), Err(NtruError::Shape));
    let square = vec![vec![2, 1], vec![1, 1]];
    assert_eq!(solve_modular_linear_system(&square, &[1, 0], 1), Err(NtruError::Shape));
    let singular = vec![vec![0, 0], vec![0, 0]];
    assert_eq!(solve_modular_linear_system(&singular, &[1, 0], 5), Err(NtruError::NotInvertible));
}

#[test]
fn cyclic_convolution_wraps_around() {
    assert_eq!(cyclic_convolution_mod(&[1, 2, 3], &[4, 5, 6], 7), Ok(vec![3, 3, 0]));
    assert_eq!(cyclic_convolution_mod(&[1, 2], &[4, 5, 6], 7), Err(NtruError::Shape));
    assert_eq!(cyclic_convolution_mod(&[1, 2], &[4, 5], 0), Err(NtruError::Shape));
}

#[test]
fn cyclic_involution_reverses_exponents() {
    assert_eq!(cyclic_involution(&[1, 2, 3, 4], 10), vec![1, 4, 3, 2]);
    assert_eq!(cyclic_involution(&[11, 12, 13], 10), vec![1, 3, 2]);
}

#[test]
fn cyclic_inverse_over_prime_and_composite_moduli() {
    assert_eq!(cyclic_inverse_mod(&[2, 1, 0], 7), Ok(vec![2, 6, 4]));
    assert_eq!(cyclic_inverse_mod(&[1, 1, 0], 9), Ok(vec![5, 4, 5]));
    assert_eq!(cyclic_inverse_mod(&[], 7), Err(NtruError::Shape));
    assert_eq!(cyclic_inverse_mod(&[1, 1, 0], 1), Err(NtruError::Shape));
    assert_eq!(cyclic_inverse_mod(&[1, 1, 0], 2), Err(NtruError::NotInvertible));
}

#[test]
fn dihedral_inverse_rejects_bad_shapes() {
    assert_eq!(dihedral_inverse_via_cyclic(&[1, 0, 0, 0], 2, 7), Err(NtruError::Shape));
    assert_eq!(dihedral_inverse_via_cyclic(&[1, 0, 0, 0, 0], 3, 7), Err(NtruError::Shape));
    assert_eq!(dihedral_inverse_via_cyclic(&[1, 0, 0, 0, 0, 0], 3, 1), Err(NtruError::Shape));
}

#[test]
fn dihedral_inverse_of_the_identity_is_the_identity() {
    assert_eq!(
        dihedral_inverse_via_cyclic(&[1, 0, 0, 0, 0, 0], 3, 7),
        Ok(vec![1, 0, 0, 0, 0, 0])
    );
}

#[test]
fn error_messages_match_their_variants() {
    assert_eq!(NtruError::InvalidModulus.to_string(), "invalid modulus");
    assert_eq!(NtruError::Shape.to_string(), "shape mismatch");
    assert_eq!(NtruError::NotInvertible.to_string(), "element is not invertible");
    assert_eq!(
        NtruError::InvalidParameters("p must be prime".to_string()).to_string(),
        "invalid parameters: p must be prime"
    );
    assert_eq!(
        NtruError::Backend("no root".to_string()).to_string(),
        "backend error: no root"
    );
}

fn dihedral_index_product(n: usize, lhs: usize, rhs: usize) -> usize {
    let lk = if lhs >= n { lhs - n } else { lhs };
    let rk = if rhs >= n { rhs - n } else { rhs };
    if lhs < n && rhs < n {
        (lk + rk) % n
    } else if lhs < n {
        n + (rk + n - lk) % n
    } else if rhs < n {
        n + (lk + rk) % n
    } else {
        (rk + n - lk) % n
    }
}

fn dihedral_product_mod(n: usize, a: &[u64], b: &[u64], m: u64) -> Vec<u64> {
    let mut out = vec![0u64; 2 * n];
    for i in 0..2 * n {
        for j in 0..2 * n {
            let x = dihedral_index_product(n, i, j);
            out[x] = (out[x] + a[i] * b[j]) % m;
        }
    }
    out
}

#[test]
fn dihedral_inverse_is_a_two_sided_inverse() {
    let element = [2u64, 1, 0, 1, 0, 1, 0, 0, 1, 0];
    let inverse = dihedral_inverse_via_cyclic(&element, 5, 11).unwrap();
    assert_eq!(inverse, vec![8, 7, 2, 7, 2, 7, 2, 2, 7, 2]);
    let one = vec![1u64, 0, 0, 0, 0, 0, 0, 0, 0, 0];
    assert_eq!(dihedral_product_mod(5, &element, &inverse, 11), one);
    assert_eq!(dihedral_product_mod(5, &inverse, &element, 11), one);
}

#[test]
fn dihedral_inverse_of_a_pure_reflection_is_itself() {
    // s is an involution
    let element = [0u64, 0, 0, 1, 0, 0];
    assert_eq!(dihedral_inverse_via_cyclic(&element, 3, 7), Ok(vec![0, 0, 0, 1, 0, 0]));
}

#[test]
fn singular_matrix_modulo_a_prime_is_not_invertible() {
    // the second row is twice the first modulo 7
    let matrix = vec![vec![1, 3, 2], vec![2, 6, 4], vec![0, 1, 5]];
    assert_eq!(
        solve_modular_linear_system(&matrix, &[1, 2, 3], 7),
        Err(NtruError::NotInvertible)
    );
}

#[test]
fn unit_pivots_can_fail_for_a_composite_modulus() {
    // the determinant is 4 - 9 = -5, a unit modulo 6, but no entry of the
    // first column is a unit
    let matrix = vec![vec![2, 3], vec![3, 2]];
    assert_eq!(
        solve_modular_linear_system(&matrix, &[1, 0], 6),
        Err(NtruError::NotInvertible)
    );
}

#[test]
fn the_all_ones_cyclic_element_is_not_invertible() {
    // (1 + x + ... + x^4)(1 - x) == 0 modulo x^5 - 1
    assert_eq!(cyclic_inverse_mod(&[1, 1, 1, 1, 1], 11), Err(NtruError::NotInvertible));
    assert_eq!(cyclic_inverse_mod(&[3, 0, 0, 0, 0], 11), Ok(vec![4, 0, 0, 0, 0]));
}

#[test]
fn a_dihedral_element_with_a_singular_determinant_has_no_inverse() {
    assert_eq!(dihedral_inverse_via_cyclic(&[1u64; 8], 4, 5), Err(NtruError::NotInvertible));
}

#[test]
fn prime_power_moduli_solve_or_report_singular_matrices() {
    let unimodular = vec![vec![2, 1], vec![1, 1]];
    assert_eq!(solve_modular_linear_system(&unimodular, &[1, 0], 4), Ok(vec![1, 3]));
    // 2 * (2, 0) == 0 modulo 4
    let singular = vec![vec![2, 0], vec![0, 1]];
    assert_eq!(solve_modular_linear_system(&singular, &[1, 0], 4), Err(NtruError::NotInvertible));
    assert_eq!(cyclic_inverse_mod(&[2, 1, 0], 5), Ok(vec![1, 2, 4]));
    assert_eq!(cyclic_inverse_mod(&[2, 1, 0], 4), Ok(vec![0, 2, 1]));
    assert_eq!(cyclic_inverse_mod(&[2, 0, 0], 4), Err(NtruError::NotInvertible));
}

#[test]
fn large_primes_pass_every_witness() {
    for value in [1_000_000_007u64, 2_305_843_009_213_693_951, 4_294_967_291, 999_999_999_989] {
        assert!(is_prime(value), "{value} is prime");
    }
}
