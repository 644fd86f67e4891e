use stark_from_zero::finite_field::{FiniteField, FiniteFieldElement};

/// Shortens the test lines.
fn create(val: i128, field: FiniteField) -> FiniteFieldElement {
    FiniteFieldElement::new_fielded(val, field)
}

#[test]
fn new() {
    let field: FiniteField = FiniteField::new(5);
    let elem: FiniteFieldElement = FiniteFieldElement::new_fielded(4, field);

    assert_eq!(elem.value, 4);
    assert_eq!(elem.field.prime, 5);
}

#[test]
fn finite_field_add() {
    let f: FiniteField = FiniteField::new(5);

    assert_eq!(create(1, f).add(create(3, f)).value, 4);
    assert_eq!(create(4, f).add(create(3, f)).value, 2);
    assert_eq!(create(14, f).add(create(3, f)).value, 2);
    assert_eq!(create(4, f).add(create(14, f)).value, 3);
}

#[test]
fn subtract() {
    let f: FiniteField = FiniteField::new(5);

    assert_eq!(create(4, f).subtract(create(1, f)).value, 3);
    assert_eq!(create(3, f).subtract(create(4, f)).value, 4);
    assert_eq!(create(14, f).subtract(create(3, f)).value, 1);
    assert_eq!(create(4, f).subtract(create(14, f)).value, 0);
}

#[test]
fn finite_field_multiply() {
    let f: FiniteField = FiniteField::new(5);

    assert_eq!(create(2, f).multiply(create(0, f)).value, 0);
    assert_eq!(create(0, f).multiply(create(2, f)).value, 0);

    assert_eq!(create(2, f).multiply(create(2, f)).value, 4);
    assert_eq!(create(3, f).multiply(create(4, f)).value, 2);
    assert_eq!(create(14, f).multiply(create(3, f)).value, 2);
    assert_eq!(create(4, f).multiply(create(14, f)).value, 1);
}

#[test]
fn finite_field_pow() {
    let f: FiniteField = FiniteField::new(5);
    assert_eq!(create(2, f).pow(0).value, 1);
    assert_eq!(create(0, f).pow(0).value, 1);
    assert_eq!(create(2, f).pow(1).value, 2);
    assert_eq!(create(2, f).pow(3).value, 3);
    assert_eq!(create(3, f).pow(2).value, 4);
}

#[test]
fn inverse() {
    let f: FiniteField = FiniteField::new(5);
    assert_eq!(create(2, f).inverse().value, 3);
    assert_eq!(create(3, f).inverse().value, 2);
    assert_eq!(create(4, f).inverse().value, 4);
}

#[test]
fn hash() {
    let f: FiniteField = FiniteField::new(5);

    assert_ne!(create(1, f).hash(), create(2, f).hash());
    assert_ne!(create(0, f).hash(), create(4, f).hash());

    assert_eq!(create(1, f).hash(), create(6, f).hash());
}

#[test]
fn negate() {
    let f: FiniteField = FiniteField::new(5);

    assert_eq!(create(0, f).negate().value, 0);
    assert_eq!(create(1, f).negate().value, 4);
    assert_eq!(create(2, f).negate().value, 3);
    assert_eq!(create(3, f).negate().value, 2);
    assert_eq!(create(4, f).negate().value, 1);

    for i in 0..5 {
        let elem = create(i, f);
        let neg_elem = elem.negate();
        let sum = elem.add(neg_elem);
        assert_eq!(sum.value, 0, "{} + (-{}) should equal 0", i, i);
    }
}

#[test]
fn equality() {
    let f: FiniteField = FiniteField::new(5);
    let g: FiniteField = FiniteField::new(7);

    assert_eq!(create(3, f), create(3, f));
    assert_eq!(create(0, f), create(0, f));

    assert_ne!(create(3, f), create(4, f));
    assert_ne!(create(0, f), create(1, f));

    assert_ne!(create(3, f), create(3, g));

    assert_eq!(create(3, f), create(8, f));
    assert_eq!(create(1, f), create(6, f));
}

#[test]
fn is_zero() {
    let f: FiniteField = FiniteField::new(5);

    assert!(create(0, f).is_zero());
    assert!(create(5, f).is_zero());
    assert!(create(10, f).is_zero());

    assert!(!create(1, f).is_zero());
    assert!(!create(2, f).is_zero());
    assert!(!create(3, f).is_zero());
    assert!(!create(4, f).is_zero());
    assert!(!create(6, f).is_zero());
}

#[test]
fn negative_values_are_brought_into_range() {
    let f: FiniteField = FiniteField::new(5);
    assert_eq!(create(-1, f).value, 4);
    assert_eq!(create(-5, f).value, 0);
    assert_eq!(create(-7, f).value, 3);
    assert_eq!(f.element(-2).value, 3);
    assert_eq!(FiniteFieldElement::new(-2).value, FiniteFieldElement::DEFAULT_FIELD_SIZE - 2);
}

#[test]
fn field_laws_on_all_elements_of_a_small_field() {
    let f: FiniteField = FiniteField::new(7);
    for a in 0..7 {
        for b in 0..7 {
            for c in 0..7 {
                let (x, y, z) = (create(a, f), create(b, f), create(c, f));
                assert_eq!(x.add(y).add(z), x.add(y.add(z)));
                assert_eq!(x.multiply(y.add(z)), x.multiply(y).add(x.multiply(z)));
            }
        }
        let x = create(a, f);
        assert_eq!(x.add(x.negate()).value, 0);
        if a != 0 {
            assert_eq!(x.multiply(x.inverse()).value, 1);
            assert_eq!(x.pow(6).value, 1);
        }
    }
}

#[test]
fn arithmetic_in_a_field_near_the_machine_limit() {
    let p: i128 = i128::MAX;
    let f: FiniteField = FiniteField::new(p);
    let a = create(p - 1, f);
    let b = create(p - 2, f);
    // (-1) + (-2) = -3, (-1) * (-2) = 2, (-1) - (-2) = 1
    assert_eq!(a.add(b).value, p - 3);
    assert_eq!(a.multiply(b).value, 2);
    assert_eq!(a.subtract(b).value, 1);
    assert_eq!(b.subtract(a).value, p - 1);
    assert_eq!(a.pow(2).value, 1);
    assert_eq!(a.pow(3).value, p - 1);
}

#[test]
fn pow_of_a_negative_exponent_is_one() {
    let f: FiniteField = FiniteField::new(5);
    assert_eq!(create(3, f).pow(-4).value, 1);
}

#[test]
fn five_is_a_witness_for_the_default_prime() {
    let p = FiniteFieldElement::DEFAULT_FIELD_SIZE;
    assert_eq!(p, 3 * (1i128 << 30) + 1);
    let five = FiniteFieldElement::new(5);
    assert_eq!(five.pow((p - 1) / 2).value, p - 1);
    assert_eq!(five.pow(p - 1).value, 1);
    assert_eq!(five.multiply(five.inverse()).value, 1);
}
