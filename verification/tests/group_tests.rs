use ntru_group_algebra::{FiniteGroup, GroupKind, Lcg, NtruError};

#[test]
fn group_constructors_reject_small_parameters() {
    assert_eq!(
        FiniteGroup::cyclic(0).unwrap_err(),
        NtruError::InvalidParameters("n must be positive".to_string())
    );
    assert_eq!(
        FiniteGroup::dihedral(2).unwrap_err(),
        NtruError::InvalidParameters("dihedral rotation order must be at least 3".to_string())
    );
    assert_eq!(
        FiniteGroup::symmetric(0).unwrap_err(),
        NtruError::InvalidParameters("n must be positive".to_string())
    );
}

#[test]
fn groups_have_their_names_and_orders() {
    let c5 = FiniteGroup::cyclic(5).unwrap();
    assert_eq!(c5.name(), "C5");
    assert_eq!(c5.order(), 5);
    assert_eq!(c5.n(), 5);
    assert_eq!(*c5.kind(), GroupKind::Cyclic);
    assert_eq!(c5.elements()[3], vec![3]);
    let d12 = FiniteGroup::dihedral(12).unwrap();
    assert_eq!(d12.name(), "D12 (order 24)");
    assert_eq!(d12.order(), 24);
    assert_eq!(*d12.kind(), GroupKind::Dihedral);
    let s4 = FiniteGroup::symmetric(4).unwrap();
    assert_eq!(s4.name(), "S4");
    assert_eq!(s4.order(), 24);
    assert_eq!(*s4.kind(), GroupKind::Symmetric);
}

#[test]
fn symmetric_group_lists_permutations_lexicographically() {
    let s3 = FiniteGroup::symmetric(3).unwrap();
    let expected: Vec<Vec<usize>> = vec![
        vec![0, 1, 2],
        vec![0, 2, 1],
        vec![1, 0, 2],
        vec![1, 2, 0],
        vec![2, 0, 1],
        vec![2, 1, 0],
    ];
    assert_eq!(s3.elements().to_vec(), expected);
}

#[test]
fn products_of_basis_elements() {
    let c5 = FiniteGroup::cyclic(5).unwrap();
    assert_eq!(c5.multiply_index(3, 4), 2);
    let d4 = FiniteGroup::dihedral(4).unwrap();
    // r * s = s r^3, (s r) (s r^3) = r^2, (s r) r = s r^2
    assert_eq!(d4.multiply_index(1, 4), 7);
    assert_eq!(d4.multiply_index(5, 7), 2);
    assert_eq!(d4.multiply_index(5, 1), 6);
    let s3 = FiniteGroup::symmetric(3).unwrap();
    // [0,2,1] after [1,0,2] maps 0 -> 2, 1 -> 0, 2 -> 1
    assert_eq!(s3.multiply_index(1, 2), 4);
}

#[test]
fn group_laws_hold_on_small_groups() {
    let groups = vec![
        FiniteGroup::cyclic(6).unwrap(),
        FiniteGroup::dihedral(5).unwrap(),
        FiniteGroup::symmetric(3).unwrap(),
    ];
    for group in groups {
        let order = group.order();
        for i in 0..order {
            assert_eq!(group.multiply_index(0, i), i);
            assert_eq!(group.multiply_index(i, 0), i);
            assert!((0..order).any(|j| group.multiply_index(i, j) == 0));
            for j in 0..order {
                for k in 0..order {
                    assert_eq!(
                        group.multiply_index(group.multiply_index(i, j), k),
                        group.multiply_index(i, group.multiply_index(j, k))
                    );
                }
            }
        }
    }
}

#[test]
fn generator_steps_are_deterministic() {
    let mut zero = Lcg::new(0);
    assert_eq!(zero.next_u64(), 1_442_695_040_888_963_407);
    assert_eq!(zero.next_u64(), 1_876_011_003_808_476_466);
    let mut one = Lcg::new(1);
    assert_eq!(one.next_u64(), 7_806_831_264_735_756_412);
    let mut seeded = Lcg::new(42);
    assert_eq!(seeded.gen_range(10), 3);
}
