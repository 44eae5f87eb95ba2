use ntru_group_algebra::{
    signed_to_mod, verify_cyclic_group_algebra_model, FiniteGroup, GroupAlgebraNtru, Lcg,
};

#[test]
fn cyclic_model_matches_quotient_ring() {
    assert!(verify_cyclic_group_algebra_model(7).unwrap());
}

#[test]
fn dihedral_cyclic_inverse_handles_small_fields() {
    let group = FiniteGroup::dihedral(16).unwrap();
    let mut fast = GroupAlgebraNtru::new(group.clone(), 3, 97, 3).unwrap();
    let dense = GroupAlgebraNtru::new(group, 3, 97, 3).unwrap();
    let mut rng = Lcg::new(20260506);
    for _ in 0..100 {
        let element = fast.random_ternary(&mut rng, 4, 3).unwrap();
        let element_mod = signed_to_mod(&element, 3);
        let dense_inverse = dense.linear_solve_inverse(&element_mod, 3);
        if let Ok(expected) = dense_inverse {
            let inverse = fast.inverse_mod(&element_mod, 3).unwrap();
            assert_eq!(inverse, expected);
            assert!(fast
                .backend_stats()
                .counts()
                .contains_key("dihedral-cyclic:invert"));
            return;
        }
    }
    panic!("could not find an invertible sample");
}

#[test]
fn symmetric_s3_round_trips() {
    let group = FiniteGroup::symmetric(3).unwrap();
    let mut scheme = GroupAlgebraNtru::new(group, 5, 67, 2).unwrap();
    let summary = scheme.run_trials(3, 50, 20260506);
    assert_eq!(summary.completed_trials, 3);
    assert_eq!(summary.successes, 3);
    assert_eq!(summary.no_wraps, 3);
}

#[test]
fn dihedral_trials_round_trip() {
    let group = FiniteGroup::dihedral(8).unwrap();
    let mut scheme = GroupAlgebraNtru::new(group, 3, 97, 2).unwrap();
    let summary = scheme.run_trials(2, 100, 20260506);
    assert_eq!(summary.completed_trials, 2);
    assert_eq!(summary.successes, 2);
}
