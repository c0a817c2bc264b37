use rust_2048_solver::algebra::Dihedral;

#[test]
fn test_dihedral_gen() {
    assert!(Dihedral::<4>::all().count() == 8);
    assert!(Dihedral::<3>::all().count() == 6);
    assert!(Dihedral::<2>::all().count() == 4);
    assert!(Dihedral::<1>::all().count() == 2);
}

#[test]
fn dihedral_all_lists_rotations_then_flips() {
    let mut all = Dihedral::<3>::all();
    let mut seen = Vec::new();
    while let Some(d) = all.next() {
        seen.push((d.flip, d.rot));
    }
    assert_eq!(
        seen,
        vec![(false, 0), (false, 1), (false, 2), (true, 0), (true, 1), (true, 2)]
    );
}

#[test]
fn dihedral_of_order_zero_has_two_elements() {
    assert_eq!(Dihedral::<0>::all().count(), 2);
}

#[test]
fn dihedral_identity_and_op() {
    let id = Dihedral::<4>::id();
    assert!(!id.flip);
    assert_eq!(id.rot, 0);
    assert_eq!(Dihedral::<4>::default(), id);

    let r1 = Dihedral::<4> { flip: false, rot: 1 };
    let r3 = Dihedral::<4> { flip: false, rot: 3 };
    assert_eq!(r1.op(&r3), Dihedral { flip: false, rot: 4 });

    let f1 = Dihedral::<4> { flip: true, rot: 1 };
    assert_eq!(r1.op(&f1), Dihedral { flip: true, rot: 4 });
    assert_eq!(f1.op(&f1), Dihedral { flip: false, rot: 4 });
}

#[test]
fn dihedral_inverse() {
    let r1 = Dihedral::<4> { flip: false, rot: 1 };
    assert_eq!(r1.inverse(), r1);
    let f1 = Dihedral::<4> { flip: true, rot: 1 };
    assert_eq!(f1.inverse(), Dihedral { flip: true, rot: 3 });
}

#[test]
fn dihedral_is_horizontal() {
    assert!(Dihedral::<4> { flip: false, rot: 0 }.is_horizontal());
    assert!(!Dihedral::<4> { flip: false, rot: 1 }.is_horizontal());
    assert!(!Dihedral::<4> { flip: true, rot: 2 }.is_horizontal());
    assert!(Dihedral::<4> { flip: true, rot: 3 }.is_horizontal());
}
