use stark_from_zero::number::{modulo_multiply, multiply_residues};

#[test]
fn modulo_multiply_no_overflow() {
    assert_eq!(modulo_multiply(5, 4, 1000), 20);
    assert_eq!(modulo_multiply(5, 40, 1000), 200);
}

#[test]
fn modulo_multiply_with_overflow() {
    assert_eq!(modulo_multiply(5, 4, 10), 0);
    assert_eq!(modulo_multiply(5, 4, 9), 2);

    assert_eq!(modulo_multiply(14, 12, 10), 8);
    assert_eq!(modulo_multiply(14, 3, 10), 2);
    assert_eq!(modulo_multiply(3, 12, 10), 6);
}

#[test]
fn modulo_multiply_of_signed_factors() {
    // A second factor that is not positive gives zero.
    assert_eq!(modulo_multiply(5, -4, 1000), 0);
    assert_eq!(modulo_multiply(5, 0, 1000), 0);
    // A negative first factor keeps its sign.
    assert_eq!(modulo_multiply(-5, 4, 1000), -20);
    assert_eq!(modulo_multiply(-14, 12, 10), -8);
}

#[test]
fn multiply_residues_near_the_machine_limit() {
    let m: i128 = i128::MAX;
    assert_eq!(multiply_residues(m - 1, m - 1, m), 1);
    assert_eq!(multiply_residues(m - 1, 2, m), m - 2);
    assert_eq!(multiply_residues(0, m - 1, m), 0);
    assert_eq!(modulo_multiply(m - 1, m - 2, m), 2);
}
