use reversible::mat::{InvlMat, MatError};

#[test]
fn swap_matrix_is_involutory() {
    let m = InvlMat::new(vec![0, 1, 1, 0]).expect("involutory");
    let sq = m.matrix();
    assert_eq!(sq.size(), 2);
    assert_eq!(sq.get(0, 1), 1);
    assert_eq!(sq.get(1, 1), 0);
    assert!(!sq.nop(0));
}

#[test]
fn shear_matrix_is_not_involutory() {
    match InvlMat::new(vec![1, 1, 0, 1]) {
        Err(MatError::NotInvolutory(d)) => assert_eq!(d, vec![1, 1, 0, 1]),
        other => panic!("unexpected result {:?}", other),
    }
}

#[test]
fn three_elements_are_not_square() {
    assert!(matches!(InvlMat::new(vec![1, 2, 3]), Err(MatError::NotSquare(3))));
}

#[test]
fn empty_matrix_is_involutory() {
    let m = InvlMat::new(vec![]).expect("involutory");
    assert_eq!(m.matrix().size(), 0);
}

#[test]
fn reflection_keeps_identity_rows() {
    let m = InvlMat::new(vec![1, 0, 0, 0, 0, 1, 0, 1, 0]).expect("involutory");
    let sq = m.matrix();
    assert_eq!(sq.size(), 3);
    assert!(sq.nop(0));
    assert!(!sq.nop(1));
    assert!(!sq.nop(2));
}

#[test]
fn negation_is_involutory() {
    assert!(InvlMat::new(vec![-1]).is_ok());
    assert!(matches!(InvlMat::new(vec![2]), Err(MatError::NotInvolutory(_))));
}

#[test]
fn large_entries_do_not_overflow() {
    let big = i32::MAX;
    assert!(matches!(InvlMat::new(vec![big, big, big, big]), Err(MatError::NotInvolutory(_))));
}
