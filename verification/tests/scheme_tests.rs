use ntru_group_algebra::{
    signed_to_mod, verify_cyclic_group_algebra_model, FiniteGroup, GroupAlgebraNtru, Lcg,
    NtruError,
};

fn scheme(group: FiniteGroup, p: u64, q: u64, d: usize) -> GroupAlgebraNtru {
    GroupAlgebraNtru::new(group, p, q, d).unwrap()
}

fn integer_product_mod(s: &GroupAlgebraNtru, lhs: &[u64], rhs: &[u64], m: u64) -> Vec<u64> {
    let a: Vec<i64> = lhs.iter().map(|v| *v as i64).collect();
    let b: Vec<i64> = rhs.iter().map(|v| *v as i64).collect();
    signed_to_mod(&s.multiply_integer(&a, &b), m)
}

#[test]
fn parameters_are_checked_in_order() {
    let c7 = || FiniteGroup::cyclic(7).unwrap();
    let message = |r: Result<GroupAlgebraNtru, NtruError>| match r {
        Err(NtruError::InvalidParameters(m)) => m,
        _ => panic!("expected invalid parameters"),
    };
    assert_eq!(message(GroupAlgebraNtru::new(c7(), 4, 41, 2)), "p must be prime");
    assert_eq!(message(GroupAlgebraNtru::new(c7(), 3, 1, 2)), "q must be greater than 1");
    assert_eq!(message(GroupAlgebraNtru::new(c7(), 3, 9, 2)), "p and q must be coprime");
    assert_eq!(
        message(GroupAlgebraNtru::new(c7(), 3, 41, 4)),
        "group is too small for the requested ternary density"
    );
    let s = scheme(c7(), 3, 41, 3);
    assert_eq!((s.p(), s.q(), s.d(), s.group().order()), (3, 41, 3, 7));
    assert!(s.backend_stats().counts().is_empty());
    assert_eq!(s.backend_stats().format(), "");
}

#[test]
fn cyclic_model_check_reports_small_groups() {
    assert_eq!(
        verify_cyclic_group_algebra_model(0),
        Err(NtruError::InvalidParameters("n must be positive".to_string()))
    );
    assert_eq!(
        verify_cyclic_group_algebra_model(4),
        Err(NtruError::InvalidParameters(
            "group is too small for the requested ternary density".to_string()
        ))
    );
    assert_eq!(verify_cyclic_group_algebra_model(5), Ok(true));
}

#[test]
fn one_is_the_unit_vector() {
    let s = scheme(FiniteGroup::dihedral(3).unwrap(), 3, 41, 2);
    assert_eq!(s.one_mod(5), vec![1, 0, 0, 0, 0, 0]);
    assert_eq!(s.one_mod(1), vec![0, 0, 0, 0, 0, 0]);
}

#[test]
fn ternary_samples_have_the_requested_weights() {
    let s = scheme(FiniteGroup::symmetric(4).unwrap(), 3, 97, 5);
    let mut rng = Lcg::new(7);
    for _ in 0..20 {
        let f = s.random_ternary(&mut rng, 6, 5).unwrap();
        assert_eq!(f.len(), 24);
        assert_eq!(f.iter().filter(|v| **v == 1).count(), 6);
        assert_eq!(f.iter().filter(|v| **v == -1).count(), 5);
        assert_eq!(f.iter().filter(|v| **v == 0).count(), 13);
    }
    assert_eq!(
        s.random_ternary(&mut rng, 20, 5),
        Err(NtruError::InvalidParameters("ternary support too large".to_string()))
    );
}

#[test]
fn ternary_sample_follows_the_generator() {
    let s = scheme(FiniteGroup::cyclic(5).unwrap(), 3, 41, 1);
    let mut rng = Lcg::new(0);
    // positions 0..5; the first draw is 1442695040888963407 % 5 = 2, so
    // position 0 swaps with position 2 and index 2 gets the coefficient 1
    let f = s.random_ternary(&mut rng, 1, 0).unwrap();
    assert_eq!(f, vec![0, 0, 1, 0, 0]);
}

#[test]
fn plaintexts_are_centered() {
    let s = scheme(FiniteGroup::dihedral(8).unwrap(), 7, 97, 2);
    let mut rng = Lcg::new(3);
    let m = s.random_plaintext(&mut rng);
    assert_eq!(m.len(), 16);
    assert!(m.iter().all(|v| (-3..=3).contains(v)));
    let mut first = Lcg::new(3);
    let expected = (first.next_u64() % 7) as i64 - 3;
    assert_eq!(m[0], expected);
}

#[test]
fn multiplication_rejects_bad_shapes() {
    let mut s = scheme(FiniteGroup::cyclic(5).unwrap(), 3, 41, 2);
    assert_eq!(s.multiply_mod(&[1, 2], &[1, 2, 3, 4, 5], 41), Err(NtruError::Shape));
    assert_eq!(s.multiply_mod(&[1, 2, 3, 4, 5], &[1, 2, 3, 4, 5], 0), Err(NtruError::Shape));
    assert!(s.backend_stats().counts().is_empty());
}

#[test]
fn naive_multiplication_is_the_group_algebra_product() {
    for group in [FiniteGroup::cyclic(6).unwrap(), FiniteGroup::dihedral(3).unwrap()] {
        let mut s = scheme(group, 3, 41, 2);
        let lhs = vec![3, 0, 7, 1, 40, 2];
        let rhs = vec![5, 9, 0, 12, 1, 33];
        let expected = integer_product_mod(&s, &lhs, &rhs, 41);
        assert_eq!(s.multiply_mod(&lhs, &rhs, 41).unwrap(), expected);
        assert_eq!(s.backend_stats().counts().get("naive:multiply"), Some(1));
        assert_eq!(s.backend_stats().format(), "naive:multiply=1");
    }
}

#[test]
fn cyclic_products_are_polynomial_products() {
    let mut s = scheme(FiniteGroup::cyclic(3).unwrap(), 2, 7, 1);
    assert_eq!(s.multiply_mod(&[1, 2, 3], &[4, 5, 6], 7), Ok(vec![3, 3, 0]));
}

#[test]
fn dihedral_fft_product_matches_the_schoolbook_product() {
    let q = 2_013_265_921;
    let mut s = scheme(FiniteGroup::dihedral(16).unwrap(), 3, q, 4);
    let lhs: Vec<u64> = (0..32).map(|k| (k * k + 3) as u64).collect();
    let rhs: Vec<u64> = (0..32).map(|k| (5 * k + 1) as u64).collect();
    let expected = integer_product_mod(&s, &lhs, &rhs, q);
    assert_eq!(s.multiply_mod(&lhs, &rhs, q).unwrap(), expected);
    assert_eq!(s.backend_stats().counts().get("fft-dihedral:multiply"), Some(1));
    assert!(!s.backend_stats().counts().contains_key("naive:multiply"));
}

#[test]
fn symmetric_fft_product_matches_the_schoolbook_product() {
    let mut s = scheme(FiniteGroup::symmetric(3).unwrap(), 5, 67, 2);
    let lhs = vec![1, 2, 3, 4, 0, 6];
    let rhs = vec![7, 0, 1, 3, 2, 5];
    let expected = integer_product_mod(&s, &lhs, &rhs, 67);
    assert_eq!(s.multiply_mod(&lhs, &rhs, 67).unwrap(), expected);
    assert_eq!(s.backend_stats().counts().get("fft-symmetric:multiply"), Some(1));
    // 4 is not prime, so the schoolbook product is used
    let expected4 = integer_product_mod(&s, &lhs, &rhs, 4);
    assert_eq!(s.multiply_mod(&lhs, &rhs, 4).unwrap(), expected4);
    assert_eq!(s.backend_stats().counts().get("naive:multiply"), Some(1));
    assert_eq!(s.backend_stats().format(), "fft-symmetric:multiply=1, naive:multiply=1");
}

#[test]
fn inverses_are_two_sided_in_every_family() {
    let cases = vec![
        (FiniteGroup::cyclic(7).unwrap(), 41u64, "cyclic:invert"),
        (FiniteGroup::dihedral(5).unwrap(), 41u64, "dihedral-cyclic:invert"),
        (FiniteGroup::symmetric(3).unwrap(), 41u64, "linear-solve:invert"),
    ];
    for (group, q, backend) in cases {
        let mut s = scheme(group, 3, q, 2);
        let order = s.group().order();
        let mut rng = Lcg::new(11);
        let mut found = false;
        for _ in 0..50 {
            let f = s.random_ternary(&mut rng, 3, 2).unwrap();
            let f_mod = signed_to_mod(&f, q);
            if let Some(inverse) = s.try_inverse_mod(&f_mod, q) {
                let one = s.one_mod(q);
                assert_eq!(s.multiply_mod(&f_mod, &inverse, q).unwrap(), one);
                assert_eq!(s.multiply_mod(&inverse, &f_mod, q).unwrap(), one);
                assert_eq!(inverse.len(), order);
                assert!(s.backend_stats().counts().contains_key(backend));
                found = true;
                break;
            }
        }
        assert!(found);
    }
}

#[test]
fn inversion_reports_shape_and_non_units() {
    let mut s = scheme(FiniteGroup::symmetric(3).unwrap(), 3, 41, 2);
    assert_eq!(s.inverse_mod(&[1, 0, 0], 41), Err(NtruError::Shape));
    assert_eq!(s.inverse_mod(&[1, 0, 0, 0, 0, 0], 1), Err(NtruError::Shape));
    assert_eq!(s.inverse_mod(&[1, 1, 1, 1, 1, 1], 41), Err(NtruError::NotInvertible));
    assert_eq!(s.try_inverse_mod(&[0, 0, 0, 0, 0, 0], 41), None);
    assert_eq!(s.inverse_mod(&[1, 0, 0, 0, 0, 0], 41), Ok(vec![1, 0, 0, 0, 0, 0]));
}

#[test]
fn key_generation_needs_an_attempt() {
    let mut s = scheme(FiniteGroup::cyclic(7).unwrap(), 3, 41, 2);
    let mut rng = Lcg::new(5);
    assert!(matches!(s.random_private_key(&mut rng, 0), Err(NtruError::NotInvertible)));
    let key = s.random_private_key(&mut rng, 100).unwrap();
    assert!(key.attempts >= 1);
    assert_eq!(key.f.iter().filter(|v| **v == 1).count(), 3);
    assert_eq!(key.f.iter().filter(|v| **v == -1).count(), 2);
    let f_p = signed_to_mod(&key.f, 3);
    assert_eq!(s.multiply_mod(&key.f_p, &f_p, 3).unwrap(), s.one_mod(3));
    let f_q = signed_to_mod(&key.f, 41);
    assert_eq!(s.multiply_mod(&f_q, &key.f_q, 41).unwrap(), s.one_mod(41));
}

#[test]
fn encryption_then_decryption_round_trips() {
    let mut s = scheme(FiniteGroup::dihedral(8).unwrap(), 3, 97, 2);
    let mut rng = Lcg::new(2026);
    let key = s.random_private_key(&mut rng, 100).unwrap();
    let g = s.random_ternary(&mut rng, 2, 2).unwrap();
    let r = s.random_ternary(&mut rng, 2, 2).unwrap();
    let m = s.random_plaintext(&mut rng);
    let h = s.public_key(&key.f_q, &g).unwrap();
    let e = s.encrypt(&m, &h, &r).unwrap();
    assert_eq!(s.decrypt(&e, &key.f, &key.f_p).unwrap(), m);
}

#[test]
fn encryption_is_p_h_r_plus_m() {
    let mut s = scheme(FiniteGroup::cyclic(5).unwrap(), 3, 41, 2);
    let h = vec![1, 0, 0, 0, 0];
    let r = vec![1, -1, 0, 0, 1];
    let m = vec![1, 0, -1, 1, 0];
    // p h r + m = 3 r + m = [4, -3, -1, 1, 3]
    assert_eq!(s.encrypt(&m, &h, &r), Ok(vec![4, 38, 40, 1, 3]));
    assert_eq!(s.encrypt(&m, &h, &r[..3]), Err(NtruError::Shape));
    assert_eq!(s.public_key(&h, &r), Ok(vec![1, 40, 0, 0, 1]));
    assert_eq!(s.decrypt(&[1, 2], &m, &h), Err(NtruError::Shape));
}

#[test]
fn integer_products_are_exact() {
    let s = scheme(FiniteGroup::cyclic(3).unwrap(), 2, 7, 1);
    assert_eq!(s.multiply_integer(&[1, -2, 3], &[4, 5, -6]), vec![31, -21, -4]);
}

#[test]
fn trials_without_wraparound_decrypt() {
    let mut s = scheme(FiniteGroup::cyclic(11).unwrap(), 3, 67, 2);
    let mut rng = Lcg::new(99);
    for _ in 0..10 {
        let result = s.trial(&mut rng, 100).unwrap();
        assert!(result.key_attempts >= 1);
        if result.no_wrap {
            assert!(result.success);
        }
    }
    assert!(matches!(s.trial(&mut rng, 0), Err(NtruError::NotInvertible)));
}

#[test]
fn trial_summary_counts_add_up() {
    let mut s = scheme(FiniteGroup::cyclic(7).unwrap(), 3, 41, 2);
    let summary = s.run_trials(4, 50, 20260506);
    assert_eq!(summary.requested_trials, 4);
    assert_eq!(summary.completed_trials + summary.keygen_failures, 4);
    assert!(summary.no_wraps <= summary.successes);
    assert!(summary.total_key_attempts >= summary.completed_trials as u128);
    assert_eq!(summary.max_key_attempts.is_some(), summary.completed_trials > 0);
    let none = s.run_trials(3, 0, 1);
    assert_eq!(none.completed_trials, 0);
    assert_eq!(none.keygen_failures, 3);
    assert_eq!(none.max_key_attempts, None);
    assert_eq!(none.total_key_attempts, 0);
}

#[test]
fn a_zero_divisor_has_no_linear_solve_inverse() {
    // (1 + x + x^2 + ... + x^6)(1 - x) == 0 in Z_41[C_7]
    let s = scheme(FiniteGroup::cyclic(7).unwrap(), 3, 41, 3);
    let all_ones = [1u64; 7];
    assert_eq!(s.linear_solve_inverse(&all_ones, 41), Err(NtruError::NotInvertible));
    let x_plus_two = [2u64, 1, 0, 0, 0, 0, 0];
    let inverse = s.linear_solve_inverse(&x_plus_two, 41).unwrap();
    assert_eq!(integer_product_mod(&s, &x_plus_two, &inverse, 41), vec![1, 0, 0, 0, 0, 0, 0]);
}

#[test]
fn the_sum_of_all_permutations_is_a_zero_divisor() {
    let mut s = scheme(FiniteGroup::symmetric(3).unwrap(), 3, 41, 1);
    let all_ones = [1u64; 6];
    assert_eq!(s.inverse_mod(&all_ones, 41), Err(NtruError::NotInvertible));
    assert_eq!(s.try_inverse_mod(&all_ones, 41), None);
}

#[test]
fn a_symmetric_inverse_works_on_both_sides() {
    let mut s = scheme(FiniteGroup::symmetric(3).unwrap(), 3, 41, 1);
    let element = [3u64, 1, 0, 0, 2, 0];
    let inverse = s.inverse_mod(&element, 41).unwrap();
    let one = vec![1u64, 0, 0, 0, 0, 0];
    assert_eq!(s.multiply_mod(&element, &inverse, 41).unwrap(), one);
    assert_eq!(s.multiply_mod(&inverse, &element, 41).unwrap(), one);
    assert_eq!(s.linear_solve_inverse(&element, 41).unwrap(), inverse);
}

#[test]
fn dihedral_zero_divisors_are_reported() {
    // 3 divides 2n = 6, so the element goes through the linear solve
    let mut s = scheme(FiniteGroup::dihedral(3).unwrap(), 2, 3, 1);
    assert_eq!(s.inverse_mod(&[1, 1, 1, 1, 1, 1], 3), Err(NtruError::NotInvertible));
    let mut c = scheme(FiniteGroup::cyclic(5).unwrap(), 3, 11, 1);
    assert_eq!(c.inverse_mod(&[1, 1, 1, 1, 1], 11), Err(NtruError::NotInvertible));
}

#[test]
fn a_dihedral_element_with_zero_determinant_is_not_invertible() {
    // r = s = 1 + x + x^2 + x^3, so r r̄ - s̄ s == 0
    let mut s = scheme(FiniteGroup::dihedral(4).unwrap(), 3, 5, 1);
    assert_eq!(s.inverse_mod(&[1u64; 8], 5), Err(NtruError::NotInvertible));
    assert_eq!(s.try_inverse_mod(&[1u64; 8], 5), None);
}

#[test]
fn key_generation_takes_the_first_invertible_candidate() {
    let mut s = scheme(FiniteGroup::cyclic(7).unwrap(), 3, 41, 2);
    let mut rng = Lcg::new(5);
    let key = s.random_private_key(&mut rng, 100).unwrap();
    // replay the candidates: each one draws 2 d + 1 = 5 values
    let mut replay = Lcg::new(5);
    for attempt in 1..=key.attempts {
        let f = s.random_ternary(&mut replay, 3, 2).unwrap();
        let invertible = s.try_inverse_mod(&signed_to_mod(&f, 3), 3).is_some()
            && s.try_inverse_mod(&signed_to_mod(&f, 41), 41).is_some();
        if attempt < key.attempts {
            assert!(!invertible);
        } else {
            assert!(invertible);
            assert_eq!(f, key.f);
        }
    }
    // the generators agree afterwards
    assert_eq!(rng.next_u64(), replay.next_u64());
}

#[test]
fn trials_are_reproducible_from_the_seed() {
    let mut a = scheme(FiniteGroup::dihedral(4).unwrap(), 3, 97, 1);
    let mut b = scheme(FiniteGroup::dihedral(4).unwrap(), 3, 97, 1);
    let first = a.run_trials(3, 50, 7);
    let second = b.run_trials(3, 50, 7);
    assert_eq!(first.completed_trials, second.completed_trials);
    assert_eq!(first.successes, second.successes);
    assert_eq!(first.no_wraps, second.no_wraps);
    assert_eq!(first.total_key_attempts, second.total_key_attempts);
    assert_eq!(first.max_key_attempts, second.max_key_attempts);
}

#[test]
fn keys_modulo_a_power_of_two_are_inverses() {
    let mut s = scheme(FiniteGroup::cyclic(11).unwrap(), 3, 2048, 3);
    let mut rng = Lcg::new(17);
    let key = s.random_private_key(&mut rng, 100).unwrap();
    let f_q = signed_to_mod(&key.f, 2048);
    assert!(key.f_q.iter().all(|v| *v < 2048));
    assert_eq!(s.multiply_mod(&f_q, &key.f_q, 2048).unwrap(), s.one_mod(2048));
    assert_eq!(s.multiply_mod(&key.f_q, &f_q, 2048).unwrap(), s.one_mod(2048));
}

#[test]
fn dihedral_fft_product_is_exact_for_a_composite_modulus() {
    // 65 = 5 * 13 is coprime to 2n = 8 and has a root of order 4 modulo both factors
    let mut s = scheme(FiniteGroup::dihedral(4).unwrap(), 3, 97, 1);
    let lhs: Vec<u64> = vec![1, 64, 7, 0, 12, 3, 50, 9];
    let rhs: Vec<u64> = vec![5, 0, 33, 2, 61, 4, 1, 17];
    let expected = integer_product_mod(&s, &lhs, &rhs, 65);
    let product = s.multiply_mod(&lhs, &rhs, 65).unwrap();
    assert_eq!(product, expected);
    assert_eq!(s.backend_stats().counts().get("fft-dihedral:multiply"), Some(1));
}

#[test]
fn trials_with_a_large_p_and_a_sparse_key_decrypt() {
    // 2d p + (2d + 1)(p - 1)/2 fits in an i64 although p is large
    let mut s = scheme(FiniteGroup::cyclic(7).unwrap(), 2_147_483_647, 2_305_843_009_213_693_951, 1);
    let summary = s.run_trials(3, 100, 11);
    assert_eq!(summary.completed_trials, 3);
    assert_eq!(summary.successes, 3);
    assert_eq!(summary.no_wraps, 3);
}

#[test]
fn reducing_the_integer_product_gives_the_modular_product() {
    let mut s = scheme(FiniteGroup::symmetric(3).unwrap(), 3, 97, 1);
    let a: Vec<i64> = vec![-3, 5, 0, 2, -1, 4];
    let b: Vec<i64> = vec![1, -2, 3, 0, 6, -5];
    let lhs = signed_to_mod(&a, 7);
    let rhs = signed_to_mod(&b, 7);
    let reduced = signed_to_mod(&s.multiply_integer(&a, &b), 7);
    assert_eq!(s.multiply_mod(&lhs, &rhs, 7).unwrap(), reduced);
}
