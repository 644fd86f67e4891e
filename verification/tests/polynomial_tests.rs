use stark_from_zero::constants::DEFAULT_FIELD_SIZE;
use stark_from_zero::finite_field::{FiniteField, FiniteFieldElement};
use stark_from_zero::polynomial::interpolate::{
    lagrange_interpolation, lagrange_interpolation_over,
};
use stark_from_zero::polynomial::polynomial::Polynomial;

/// The residue in `[0, p)` that `v` stands for.
fn canon(v: i128, p: i128) -> i128 {
    let r = v % p;
    if r < 0 {
        r + p
    } else {
        r
    }
}

fn test_polynomial_eval(coeffs: Vec<i128>, value: i128, expected_result: i128) {
    let pol: Polynomial = Polynomial::new(coeffs);
    let field = FiniteField::new(i128::MAX);
    let elem = FiniteFieldElement::new_fielded(value, field);
    assert_eq!(pol.evaluate(elem).value, canon(expected_result, i128::MAX));
}

fn test_polynomial_eval_default(coeffs: Vec<i128>, value: i128, expected_result: i128) {
    let pol: Polynomial = Polynomial::new(coeffs);
    let elem = FiniteFieldElement::new(value);
    assert_eq!(pol.evaluate(elem).value, canon(expected_result, DEFAULT_FIELD_SIZE));
}

fn assert_vectors_equal(poly: &Polynomial, expected: &[i128]) {
    let actual = poly.to_i128_coeffs();
    assert_eq!(actual.len(), expected.len());
    for (x, y) in actual.iter().zip(expected.iter()) {
        assert_eq!(x, y);
    }
}

#[test]
fn evaluate_evaluation_none() {
    test_polynomial_eval([].to_vec(), 0_i128, 0_i128);
    test_polynomial_eval([].to_vec(), 5_i128, 0_i128);
    test_polynomial_eval([].to_vec(), -5_i128, 0_i128);
}

#[test]
fn evaluate_evaluation_single() {
    test_polynomial_eval([0_i128].to_vec(), 0_i128, 0_i128);
    test_polynomial_eval([0_i128].to_vec(), 5_i128, 0_i128);
    test_polynomial_eval([0_i128].to_vec(), 5_i128, 0_i128);

    test_polynomial_eval([1_i128].to_vec(), 0_i128, 1_i128);
    test_polynomial_eval([1_i128].to_vec(), 1_i128, 1_i128);
    test_polynomial_eval([1_i128].to_vec(), 999_i128, 1_i128);
    test_polynomial_eval([1_i128].to_vec(), -999_i128, 1_i128);

    test_polynomial_eval([4_i128].to_vec(), 0_i128, 4_i128);
    test_polynomial_eval([4_i128].to_vec(), 1_i128, 4_i128);
    test_polynomial_eval([4_i128].to_vec(), 999_i128, 4_i128);
}

#[test]
fn evaluate_evaluation_double() {
    test_polynomial_eval([0_i128, 0_i128].to_vec(), 0_i128, 0_i128);
    test_polynomial_eval([0_i128, 0_i128].to_vec(), 4_i128, 0_i128);
    test_polynomial_eval([0_i128, 0_i128].to_vec(), -4_i128, 0_i128);

    test_polynomial_eval([1_i128, 0_i128].to_vec(), 0_i128, 1_i128);
    test_polynomial_eval([1_i128, 0_i128].to_vec(), 4_i128, 1_i128);
    test_polynomial_eval([1_i128, 0_i128].to_vec(), -4_i128, 1_i128);

    test_polynomial_eval([4_i128, 2_i128].to_vec(), 0_i128, 4_i128);
    test_polynomial_eval([4_i128, 2_i128].to_vec(), 4_i128, 12_i128);
    test_polynomial_eval([4_i128, 2_i128].to_vec(), -4_i128, -4_i128);
}

#[test]
fn evaluate_evaluation_triple() {
    test_polynomial_eval([0_i128, 0_i128, 0_i128].to_vec(), 0_i128, 0_i128);
    test_polynomial_eval([0_i128, 0_i128, 0_i128].to_vec(), 4_i128, 0_i128);
    test_polynomial_eval([0_i128, 0_i128, 0_i128].to_vec(), -4_i128, 0_i128);

    test_polynomial_eval([1_i128, 0_i128, 0_i128].to_vec(), 0_i128, 1_i128);
    test_polynomial_eval([1_i128, 0_i128, 0_i128].to_vec(), 4_i128, 1_i128);
    test_polynomial_eval([1_i128, 0_i128, 0_i128].to_vec(), -4_i128, 1_i128);

    test_polynomial_eval([4_i128, 2_i128, 0_i128].to_vec(), 0_i128, 4_i128);
    test_polynomial_eval([4_i128, 2_i128, 0_i128].to_vec(), 4_i128, 12_i128);
    test_polynomial_eval([4_i128, 2_i128, 0_i128].to_vec(), -4_i128, -4_i128);

    test_polynomial_eval([4_i128, 2_i128, 3_i128].to_vec(), 0_i128, 4_i128);
    test_polynomial_eval([4_i128, 2_i128, 3_i128].to_vec(), 4_i128, 60_i128);
    test_polynomial_eval([4_i128, 2_i128, 3_i128].to_vec(), -4_i128, 44_i128);
}

#[test]
fn evaluation_overflow() {
    let pol: Polynomial = Polynomial::new([0_i128, 0, 1].to_vec());
    let elem = FiniteFieldElement::new_fielded(4, FiniteField::new(10));
    assert_eq!(pol.evaluate(elem).value, 6);
}

#[test]
fn polynomial_evaluation_none() {
    test_polynomial_eval_default([].to_vec(), 0_i128, 0_i128);
    test_polynomial_eval_default([].to_vec(), 5_i128, 0_i128);
    test_polynomial_eval_default([].to_vec(), -5_i128, 0_i128);
}

#[test]
fn polynomial_evaluation_single() {
    test_polynomial_eval_default([0_i128].to_vec(), 0_i128, 0_i128);
    test_polynomial_eval_default([0_i128].to_vec(), 5_i128, 0_i128);
    test_polynomial_eval_default([0_i128].to_vec(), 5_i128, 0_i128);

    test_polynomial_eval_default([1_i128].to_vec(), 0_i128, 1_i128);
    test_polynomial_eval_default([1_i128].to_vec(), 1_i128, 1_i128);
    test_polynomial_eval_default([1_i128].to_vec(), 999_i128, 1_i128);
    test_polynomial_eval_default([1_i128].to_vec(), -999_i128, 1_i128);

    test_polynomial_eval_default([4_i128].to_vec(), 0_i128, 4_i128);
    test_polynomial_eval_default([4_i128].to_vec(), 1_i128, 4_i128);
    test_polynomial_eval_default([4_i128].to_vec(), 999_i128, 4_i128);
}

#[test]
fn polynomial_evaluation_double() {
    test_polynomial_eval_default([0_i128, 0_i128].to_vec(), 0_i128, 0_i128);
    test_polynomial_eval_default([0_i128, 0_i128].to_vec(), 4_i128, 0_i128);
    test_polynomial_eval_default([0_i128, 0_i128].to_vec(), -4_i128, 0_i128);

    test_polynomial_eval_default([1_i128, 0_i128].to_vec(), 0_i128, 1_i128);
    test_polynomial_eval_default([1_i128, 0_i128].to_vec(), 4_i128, 1_i128);
    test_polynomial_eval_default([1_i128, 0_i128].to_vec(), -4_i128, 1_i128);

    test_polynomial_eval_default([4_i128, 2_i128].to_vec(), 0_i128, 4_i128);
    test_polynomial_eval_default([4_i128, 2_i128].to_vec(), 4_i128, 12_i128);
    test_polynomial_eval_default([4_i128, 2_i128].to_vec(), -4_i128, -4_i128);
}

#[test]
fn polynomial_evaluation_triple() {
    test_polynomial_eval_default([0_i128, 0_i128, 0_i128].to_vec(), 0_i128, 0_i128);
    test_polynomial_eval_default([0_i128, 0_i128, 0_i128].to_vec(), 4_i128, 0_i128);
    test_polynomial_eval_default([0_i128, 0_i128, 0_i128].to_vec(), -4_i128, 0_i128);

    test_polynomial_eval_default([1_i128, 0_i128, 0_i128].to_vec(), 0_i128, 1_i128);
    test_polynomial_eval_default([1_i128, 0_i128, 0_i128].to_vec(), 4_i128, 1_i128);
    test_polynomial_eval_default([1_i128, 0_i128, 0_i128].to_vec(), -4_i128, 1_i128);

    test_polynomial_eval_default([4_i128, 2_i128, 0_i128].to_vec(), 0_i128, 4_i128);
    test_polynomial_eval_default([4_i128, 2_i128, 0_i128].to_vec(), 4_i128, 12_i128);
    test_polynomial_eval_default([4_i128, 2_i128, 0_i128].to_vec(), -4_i128, -4_i128);

    test_polynomial_eval_default([4_i128, 2_i128, 3_i128].to_vec(), 0_i128, 4_i128);
    test_polynomial_eval_default([4_i128, 2_i128, 3_i128].to_vec(), 4_i128, 60_i128);
    test_polynomial_eval_default([4_i128, 2_i128, 3_i128].to_vec(), -4_i128, 44_i128);
}

#[test]
fn compose_trivial() {
    let first: Polynomial = Polynomial::new([0, 1].to_vec());
    let second: Polynomial = Polynomial::new([0, 1].to_vec());

    assert_eq!(first.compose(second).to_i128_coeffs(), [0, 1]);
}

#[test]
fn compose() {
    let first: Polynomial = Polynomial::new([0, 1, 1].to_vec());
    let second: Polynomial = Polynomial::new([1, 1].to_vec());

    assert_eq!(first.compose(second).to_i128_coeffs(), [2, 3, 1]);
}

#[test]
fn multiply_scalar_multiply_empty() {
    let coeffs = [].to_vec();
    let poly = Polynomial::new(coeffs);
    let multiplied = poly.multiply_scalar(3);

    assert_eq!(multiplied.coefficients.len(), 0);
}

#[test]
fn multiply_scalar_multiply_zero() {
    let coeffs = [4_i128, 2_i128, 3_i128].to_vec();
    let poly = Polynomial::new(coeffs);
    let multiplied = poly.multiply_scalar(0);

    assert_eq!(multiplied.coefficients.len(), 3);
    assert_eq!(multiplied.coefficients[0].value, 0);
    assert_eq!(multiplied.coefficients[1].value, 0);
    assert_eq!(multiplied.coefficients[2].value, 0);
}

#[test]
fn multiply_scalar_multiply() {
    let coeffs = [4_i128, 0_i128, 3_i128].to_vec();
    let poly = Polynomial::new(coeffs);
    let multiplied = poly.multiply_scalar(3);

    assert_eq!(multiplied.coefficients.len(), 3);
    assert_eq!(multiplied.coefficients[0].value, 12);
    assert_eq!(multiplied.coefficients[1].value, 0);
    assert_eq!(multiplied.coefficients[2].value, 9);
}

#[test]
fn multiply_multiply() {
    let coeffs = [4_i128, 0_i128, 3_i128].to_vec();
    let poly1 = Polynomial::new(coeffs);

    let coeffs = [0_i128, 7_i128, 2_i128].to_vec();
    let poly2 = Polynomial::new(coeffs);

    let multiplied = poly1.multiply(&poly2);

    assert_eq!(multiplied.coefficients.len(), 5);
    assert_eq!(multiplied.coefficients[0].value, 0);
    assert_eq!(multiplied.coefficients[1].value, 28);
    assert_eq!(multiplied.coefficients[2].value, 8);
    assert_eq!(multiplied.coefficients[3].value, 21);
    assert_eq!(multiplied.coefficients[4].value, 6);
}

#[test]
fn polynomial_scalar_multiply_empty() {
    let poly = Polynomial::new_ff(Vec::new());
    let multiplied = poly.multiply_scalar(3);
    assert_eq!(multiplied.coefficients.len(), 0);
}

#[test]
fn polynomial_scalar_multiply_zero() {
    let field = FiniteField::new(101);
    let poly = Polynomial::new_ff(vec![field.element(4), field.element(2), field.element(3)]);
    let multiplied = poly.multiply_scalar(0);

    assert_eq!(multiplied.coefficients.len(), 3);
    assert_eq!(multiplied.coefficients[0].value, 0);
    assert_eq!(multiplied.coefficients[1].value, 0);
    assert_eq!(multiplied.coefficients[2].value, 0);
}

#[test]
fn polynomial_scalar_multiply() {
    let field = FiniteField::new(101);
    let poly = Polynomial::new_ff(vec![field.element(4), field.element(0), field.element(3)]);
    let multiplied = poly.multiply_scalar(3);

    assert_eq!(multiplied.coefficients.len(), 3);
    assert_eq!(multiplied.coefficients[0].value, 12);
    assert_eq!(multiplied.coefficients[1].value, 0);
    assert_eq!(multiplied.coefficients[2].value, 9);
    assert_eq!(multiplied.coefficients[2].field.prime, 101);
}

#[test]
fn polynomial_multiply() {
    let field = FiniteField::new(101);
    let poly1 = Polynomial::new_ff(vec![field.element(4), field.element(0), field.element(3)]);
    let poly2 = Polynomial::new_ff(vec![field.element(0), field.element(7), field.element(2)]);

    let multiplied = poly1.multiply(&poly2);

    assert_eq!(multiplied.coefficients.len(), 5);
    assert_eq!(multiplied.coefficients[0].value, 0);
    assert_eq!(multiplied.coefficients[1].value, 28);
    assert_eq!(multiplied.coefficients[2].value, 8);
    assert_eq!(multiplied.coefficients[3].value, 21);
    assert_eq!(multiplied.coefficients[4].value, 6);
}

#[test]
fn add_add_empty() {
    let empty_poly = Polynomial::new([].to_vec());
    let non_empty_poly = Polynomial::new([5].to_vec());

    let added = empty_poly.add(&empty_poly);
    assert_eq!(added.coefficients.len(), 0);

    let added = non_empty_poly.add(&empty_poly);
    assert_eq!(added.coefficients.len(), 1);
    assert_eq!(added.coefficients[0].value, 5);

    let added = empty_poly.add(&non_empty_poly);
    assert_eq!(added.coefficients.len(), 1);
    assert_eq!(added.coefficients[0].value, 5);
}

#[test]
fn add_add() {
    let coeffs = [4_i128, 0, 3].to_vec();
    let poly1 = Polynomial::new(coeffs);

    let coeffs = [0_i128, 7, 2].to_vec();
    let poly2 = Polynomial::new(coeffs);

    let added = poly1.add(&poly2);

    assert_eq!(added.coefficients.len(), 3);
    assert_eq!(added.coefficients[0].value, 4);
    assert_eq!(added.coefficients[1].value, 7);
    assert_eq!(added.coefficients[2].value, 5);
}

#[test]
fn polynomial_add_empty() {
    let field = FiniteField::new(101);
    let empty_poly = Polynomial::new_ff(Vec::new());
    let non_empty_poly = Polynomial::new_ff(vec![field.element(5)]);

    let added = empty_poly.add(&empty_poly);
    assert_eq!(added.coefficients.len(), 0);

    let added = non_empty_poly.add(&empty_poly);
    assert_eq!(added.coefficients.len(), 1);
    assert_eq!(added.coefficients[0].value, 5);

    let added = empty_poly.add(&non_empty_poly);
    assert_eq!(added.coefficients.len(), 1);
    assert_eq!(added.coefficients[0].value, 5);
    assert_eq!(added.coefficients[0].field.prime, 101);
}

#[test]
fn polynomial_add() {
    let field = FiniteField::new(101);
    let poly1 = Polynomial::new_ff(vec![field.element(4), field.element(0), field.element(3)]);
    let poly2 = Polynomial::new_ff(vec![field.element(0), field.element(7), field.element(2)]);

    let added = poly1.add(&poly2);

    assert_eq!(added.coefficients.len(), 3);
    assert_eq!(added.coefficients[0].value, 4);
    assert_eq!(added.coefficients[1].value, 7);
    assert_eq!(added.coefficients[2].value, 5);
}

#[test]
fn subtract_sub_empty() {
    let empty_poly = Polynomial::new([].to_vec());
    let non_empty_poly = Polynomial::new([5].to_vec());

    let res = empty_poly.sub(&empty_poly);
    assert_eq!(res.coefficients.len(), 0);

    let res = non_empty_poly.sub(&empty_poly);
    assert_eq!(res.coefficients.len(), 1);
    assert_eq!(res.coefficients[0].value, 5);

    let res = empty_poly.sub(&non_empty_poly);
    assert_eq!(res.coefficients.len(), 1);
    let p = FiniteFieldElement::DEFAULT_FIELD_SIZE;
    assert_eq!(res.coefficients[0].value, (p - 5) % p);
}

#[test]
fn subtract_sub() {
    let coeffs = [4_i128, 0, 3].to_vec();
    let poly1 = Polynomial::new(coeffs);

    let coeffs = [0_i128, 7, 2].to_vec();
    let poly2 = Polynomial::new(coeffs);

    let res = poly1.sub(&poly2);

    assert_eq!(res.coefficients.len(), 3);
    assert_eq!(res.coefficients[0].value, 4);
    let p = FiniteFieldElement::DEFAULT_FIELD_SIZE;
    assert_eq!(res.coefficients[1].value, (p - 7) % p);
    assert_eq!(res.coefficients[2].value, 1);
}

#[test]
fn polynomial_sub_empty() {
    let field = FiniteField::new(101);
    let empty_poly = Polynomial::new_ff(Vec::new());
    let non_empty_poly = Polynomial::new_ff(vec![field.element(5)]);

    let res = empty_poly.sub(&empty_poly);
    assert_eq!(res.coefficients.len(), 0);

    let res = non_empty_poly.sub(&empty_poly);
    assert_eq!(res.coefficients.len(), 1);
    assert_eq!(res.coefficients[0].value, 5);

    let res = empty_poly.sub(&non_empty_poly);
    assert_eq!(res.coefficients.len(), 1);
    assert_eq!(res.coefficients[0].value, canon(-5, 101));
}

#[test]
fn polynomial_sub() {
    let field = FiniteField::new(101);
    let poly1 = Polynomial::new_ff(vec![field.element(4), field.element(0), field.element(3)]);
    let poly2 = Polynomial::new_ff(vec![field.element(0), field.element(7), field.element(2)]);

    let res = poly1.sub(&poly2);

    assert_eq!(res.coefficients.len(), 3);
    assert_eq!(res.coefficients[0].value, 4);
    assert_eq!(res.coefficients[1].value, canon(-7, 101));
    assert_eq!(res.coefficients[2].value, 1);
}

#[test]
fn sub_is_as_long_as_the_longer_polynomial() {
    let poly1 = Polynomial::new([1_i128, 2, 3].to_vec());
    let poly2 = Polynomial::new([0_i128, 2, 3].to_vec());
    assert_eq!(poly1.sub(&poly2).to_i128_coeffs(), [1, 0, 0]);
    assert_eq!(poly1.sub(&poly1).coefficients.len(), 3);
    assert_eq!(poly1.sub(&poly1).to_i128_coeffs(), [0, 0, 0]);
    let one = Polynomial::new([1_i128].to_vec());
    assert_eq!(one.sub(&one).to_i128_coeffs(), [0]);
    let short = Polynomial::new([5_i128].to_vec());
    let p = DEFAULT_FIELD_SIZE;
    assert_eq!(short.sub(&poly1).to_i128_coeffs(), [4, p - 2, p - 3]);
}

#[test]
fn polynomial_degree() {
    let coeffs = [4_i128].to_vec();
    let poly1 = Polynomial::new(coeffs);
    assert_eq!(poly1.degree(), 0);

    let coeffs = [4_i128, 0, 3].to_vec();
    let poly1 = Polynomial::new(coeffs);
    assert_eq!(poly1.degree(), 2);

    let p = DEFAULT_FIELD_SIZE;
    let coeffs = [1_i128, -(p), 0, 0].to_vec();
    let poly1 = Polynomial::new(coeffs);
    assert_eq!(poly1.degree(), 0);
}

#[test]
fn degree_of_the_zero_polynomial_is_zero() {
    assert_eq!(Polynomial::new(vec![]).degree(), 0);
    assert_eq!(Polynomial::new(vec![0, 0, 0]).degree(), 0);
}

#[test]
fn polynomial_leading_term() {
    let coeffs = [4_i128].to_vec();
    let poly1 = Polynomial::new(coeffs);
    assert_eq!(poly1.leading_term().coefficients[0].value, 4);

    let coeffs = [2_i128, 0, 3].to_vec();
    let poly1 = Polynomial::new(coeffs);
    assert_eq!(poly1.leading_term().coefficients[0].value, 0);
    assert_eq!(poly1.leading_term().coefficients[2].value, 3);
    assert_eq!(poly1.leading_term().to_i128_coeffs(), [0, 0, 3]);
}

#[test]
fn polynomial_trim() {
    let coeffs = vec![0_i128, 2, 4];
    let mut poly = Polynomial::new(coeffs.clone());
    poly = poly.trim();
    assert_eq!(poly.to_i128_coeffs(), coeffs);

    let coeffs = vec![0_i128, 2, 0, 4, 0];
    let should_result = vec![0_i128, 2, 0, 4];
    let mut poly = Polynomial::new(coeffs.clone());
    poly = poly.trim();
    assert_eq!(poly.to_i128_coeffs(), should_result);

    let p = DEFAULT_FIELD_SIZE;
    let coeffs = vec![0_i128, 2, -p, 0];
    let should_result = vec![0_i128, 2];
    let poly = Polynomial::new(coeffs);
    let poly = poly.trim();
    assert_eq!(poly.to_i128_coeffs(), should_result);
}

#[test]
fn trim_keeps_the_values_of_the_polynomial() {
    let poly = Polynomial::new(vec![3, 0, 5, 0, 0]);
    let trimmed = poly.trim();
    assert_eq!(trimmed.coefficients.len(), 3);
    for x in 0..10 {
        let at = FiniteFieldElement::new(x);
        assert_eq!(poly.evaluate(at), trimmed.evaluate(at));
    }
    assert_eq!(Polynomial::new(vec![0, 0]).trim().coefficients.len(), 0);
}

#[test]
fn pow_zero() {
    let coeffs = [4_i128, 0, 3].to_vec();
    let poly = Polynomial::new(coeffs);
    assert_eq!(poly.pow(0).coefficients.len(), 1);
    assert_eq!(poly.pow(0).coefficients[0].value, 1);

    let coeffs = [0_i128, 7, 2].to_vec();
    let poly = Polynomial::new(coeffs);
    assert_eq!(poly.pow(0).coefficients.len(), 1);
    assert_eq!(poly.pow(0).coefficients[0].value, 1);
}

#[test]
fn pow_one() {
    let coeffs = [4_i128, 0, 3].to_vec();
    let poly = Polynomial::new(coeffs.clone());
    assert_vectors_equal(&poly.pow(1), &coeffs);

    let coeffs = [0_i128, 7, 2].to_vec();
    let poly = Polynomial::new(coeffs.clone());
    assert_vectors_equal(&poly.pow(1), &coeffs);
}

#[test]
fn pow_two() {
    let coeffs = [4_i128, 0, 3].to_vec();
    let poly = Polynomial::new(coeffs.clone());
    assert_vectors_equal(&poly.pow(2), &[16, 0, 24, 0, 9]);

    let coeffs = [0_i128, 7, 2].to_vec();
    let poly = Polynomial::new(coeffs.clone());
    assert_vectors_equal(&poly.pow(2), &[0, 0, 49, 28, 4]);
}

#[test]
fn pow_pow() {
    let coeffs = [4_i128, 0, 3].to_vec();
    let poly = Polynomial::new(coeffs.clone());
    assert_vectors_equal(
        &poly.pow(10),
        &[
            1048576, 0, 7864320, 0, 26542080, 0, 53084160, 0, 69672960, 0, 62705664, 0,
            39191040, 0, 16796160, 0, 4723920, 0, 787320, 0, 59049,
        ],
    );

    let coeffs = [0_i128, 7, 2].to_vec();
    let poly = Polynomial::new(coeffs.clone());
    assert_vectors_equal(
        &poly.pow(6),
        &[
            0, 0, 0, 0, 0, 0, 117649, 201684, 144060, 54880, 11760, 1344, 64,
        ],
    );
}

#[test]
fn divide_div_scalar() {
    let coeffs = [4_i128, 0_i128, 3_i128].to_vec();
    let poly1 = Polynomial::new(coeffs);

    let divided = poly1.div_scalar(3);

    let restored = divided.multiply_scalar(3);
    assert_eq!(restored.coefficients.len(), poly1.coefficients.len());
    for (a, b) in restored.coefficients.iter().zip(poly1.coefficients.iter()) {
        assert_eq!(a.value, b.value);
    }

    let inv3 = FiniteFieldElement::new(3).inverse().value;
    let p = DEFAULT_FIELD_SIZE;
    assert_eq!(divided.coefficients[0].value, (4 * inv3) % p);
    assert_eq!(divided.coefficients[1].value, 0);
    assert_eq!(divided.coefficients[2].value, (3 * inv3) % p);
}

#[test]
fn polynomial_div_scalar() {
    let field = FiniteField::new(7);
    let poly1 = Polynomial::new_ff(vec![field.element(4), field.element(0), field.element(3)]);

    let divided = poly1.div_scalar(3);

    // 1 / 3 = 5 in the field of seven elements: 4 * 5 = 6, 3 * 5 = 1
    assert_eq!(divided.coefficients.len(), 3);
    assert_eq!(divided.coefficients[0].value, 6);
    assert_eq!(divided.coefficients[1].value, 0);
    assert_eq!(divided.coefficients[2].value, 1);
}

#[test]
fn divide_div_no_remainder() {
    let coeffs = [0_i128, 2_i128, 4_i128].to_vec();
    let poly1 = Polynomial::new(coeffs);

    let coeffs = [0_i128, 1_i128].to_vec();
    let poly2 = Polynomial::new(coeffs);

    let (q, r) = poly1.div(&poly2);

    assert_eq!(q.coefficients.len(), 2);
    assert_eq!(q.coefficients[0].value, 2);
    assert_eq!(q.coefficients[1].value, 4);

    assert_eq!(r.coefficients.len(), 0);
}

#[test]
fn divide_div_no_remainder2() {
    let coeffs = [2_i128, 2, 1, 1].to_vec();
    let poly1 = Polynomial::new(coeffs);

    let coeffs = [2_i128, 0, 1].to_vec();
    let poly2 = Polynomial::new(coeffs);

    let (q, r) = poly1.div(&poly2);

    assert_eq!(q.coefficients.len(), 2);
    assert_eq!(q.coefficients[0].value, 1);
    assert_eq!(q.coefficients[1].value, 1);

    assert_eq!(r.coefficients.len(), 0);
}

#[test]
fn divide_div_remainder() {
    let coeffs = [-4_i128, 0, -2, 1].to_vec();
    let poly1 = Polynomial::new(coeffs);

    let coeffs = [-3_i128, 1].to_vec();
    let poly2 = Polynomial::new(coeffs);

    let (q, r) = poly1.div(&poly2);

    assert_eq!(q.coefficients.len(), 3);
    assert_eq!(q.coefficients[0].value, 3);
    assert_eq!(q.coefficients[1].value, 1);
    assert_eq!(q.coefficients[2].value, 1);

    assert_eq!(r.coefficients.len(), 1);
    assert_eq!(r.coefficients[0].value, 5 % DEFAULT_FIELD_SIZE);
}

#[test]
fn divide_div_remainder2() {
    let coeffs = [-4_i128, 4, 0, 5, 6].to_vec();
    let poly1 = Polynomial::new(coeffs);

    let coeffs = [-1_i128, 1, 2].to_vec();
    let poly2 = Polynomial::new(coeffs);

    let (q, r) = poly1.div(&poly2);

    assert_eq!(q.coefficients.len(), 3);
    assert_eq!(q.coefficients[0].value, 1);
    assert_eq!(q.coefficients[1].value, 1);
    assert_eq!(q.coefficients[2].value, 3);

    assert_eq!(r.coefficients.len(), 2);
    let p = DEFAULT_FIELD_SIZE;
    assert_eq!(r.coefficients[0].value, (p - 3) % p);
    assert_eq!(r.coefficients[1].value, 4);
}

#[test]
fn polynomial_div_no_remainder() {
    let field = FiniteField::new(101);
    let poly1 = Polynomial::new_ff(vec![field.element(0), field.element(2), field.element(4)]);
    let poly2 = Polynomial::new_ff(vec![field.element(0), field.element(1)]);

    let (q, r) = poly1.div(&poly2);

    assert_eq!(q.coefficients.len(), 2);
    assert_eq!(q.coefficients[0].value, 2);
    assert_eq!(q.coefficients[1].value, 4);

    assert_eq!(r.coefficients.len(), 0);
}

#[test]
fn polynomial_div_no_remainder2() {
    let field = FiniteField::new(101);
    let poly1 = Polynomial::new_ff(vec![
        field.element(2),
        field.element(2),
        field.element(1),
        field.element(1),
    ]);
    let poly2 = Polynomial::new_ff(vec![field.element(2), field.element(0), field.element(1)]);

    let (q, r) = poly1.div(&poly2);

    assert_eq!(q.coefficients.len(), 2);
    assert_eq!(q.coefficients[0].value, 1);
    assert_eq!(q.coefficients[1].value, 1);

    assert_eq!(r.coefficients.len(), 0);
}

#[test]
fn polynomial_div_remainder() {
    let field = FiniteField::new(101);
    let poly1 = Polynomial::new_ff(vec![
        field.element(-4),
        field.element(0),
        field.element(-2),
        field.element(1),
    ]);
    let poly2 = Polynomial::new_ff(vec![field.element(-3), field.element(1)]);

    let (q, r) = poly1.div(&poly2);

    assert_eq!(q.coefficients.len(), 3);
    assert_eq!(q.coefficients[0].value, 3);
    assert_eq!(q.coefficients[1].value, 1);
    assert_eq!(q.coefficients[2].value, 1);

    assert_eq!(r.coefficients.len(), 1);
    assert_eq!(r.coefficients[0].value, 5);
}

#[test]
fn polynomial_div_remainder2() {
    let field = FiniteField::new(101);
    let poly1 = Polynomial::new_ff(vec![
        field.element(-4),
        field.element(4),
        field.element(0),
        field.element(5),
        field.element(6),
    ]);
    let poly2 = Polynomial::new_ff(vec![field.element(-1), field.element(1), field.element(2)]);

    let (q, r) = poly1.div(&poly2);

    assert_eq!(q.coefficients.len(), 3);
    assert_eq!(q.coefficients[0].value, 1);
    assert_eq!(q.coefficients[1].value, 1);
    assert_eq!(q.coefficients[2].value, 3);

    assert_eq!(r.coefficients.len(), 2);
    assert_eq!(r.coefficients[0].value, canon(-3, 101));
    assert_eq!(r.coefficients[1].value, 4);
}

#[test]
fn division_gives_back_the_dividend() {
    let field = FiniteField::new(101);
    let a = Polynomial::new_ff((0..7).map(|i| field.element(i * i + 3)).collect());
    let b = Polynomial::new_ff(vec![field.element(5), field.element(0), field.element(17)]);
    let (q, r) = a.div(&b);
    assert_eq!(q.coefficients.len(), 5);
    assert!(r.coefficients.len() <= 2);
    let back = q.multiply(&b).add(&r);
    assert_eq!(back.to_i128_coeffs(), a.to_i128_coeffs());
}

#[test]
fn division_of_a_constant_by_a_constant() {
    let a = Polynomial::new(vec![0]);
    let b = Polynomial::new(vec![5]);
    let (q, r) = a.div(&b);
    assert_eq!(q.to_i128_coeffs(), [0]);
    assert_eq!(r.coefficients.len(), 0);
}

#[test]
fn interpolate_lagrange_no_points() {
    let points = vec![];

    let poly = lagrange_interpolation(&points);

    assert_eq!(poly.coefficients.len(), 0);
}

#[test]
fn interpolate_lagrange_one_point() {
    let points = vec![(1, 2)];

    let poly = lagrange_interpolation(&points);

    assert_eq!(poly.coefficients.len(), 1);
    assert_eq!(poly.coefficients[0].value, 2);
}

#[test]
fn interpolate_lagrange_two_points() {
    let points = vec![(1, 2), (2, 4)];

    let poly = lagrange_interpolation(&points);
    assert_eq!(poly.to_i128_coeffs(), [0, 2]);

    let points = vec![(2, 4), (1, 2)];
    let poly = lagrange_interpolation(&points);
    assert_eq!(poly.to_i128_coeffs(), [0, 2]);
}

#[test]
fn interpolate_lagrange_three_points() {
    let points = vec![(0, -2), (1, 6), (-5, 48)];

    let poly = lagrange_interpolation(&points);
    let p = DEFAULT_FIELD_SIZE;
    assert_eq!(poly.to_i128_coeffs(), [p - 2, 5, 3]);
}

#[test]
fn interpolate_lagrange_three_points2() {
    let points = vec![(1, 1), (2, 4), (3, 9)];

    let poly = lagrange_interpolation(&points);
    assert_eq!(poly.to_i128_coeffs(), [0, 0, 1]);
}

#[test]
fn polynomial_lagrange_no_points() {
    let points = vec![];
    let poly = lagrange_interpolation_over(&points, FiniteField::new(101));
    assert_eq!(poly.coefficients.len(), 0);
}

#[test]
fn polynomial_lagrange_one_point() {
    let points = vec![(1, 2)];
    let poly = lagrange_interpolation_over(&points, FiniteField::new(101));
    assert_eq!(poly.coefficients.len(), 1);
    assert_eq!(poly.coefficients[0].value, 2);
}

#[test]
fn polynomial_lagrange_two_points() {
    let field = FiniteField::new(101);
    let points = vec![(1, 2), (2, 4)];

    let poly = lagrange_interpolation_over(&points, field);
    assert_eq!(poly.coefficients.len(), 2);
    assert_eq!(poly.coefficients[0].value, 0);
    assert_eq!(poly.coefficients[1].value, 2);

    let points = vec![(2, 4), (1, 2)];

    let poly = lagrange_interpolation_over(&points, field);
    assert_eq!(poly.coefficients.len(), 2);
    assert_eq!(poly.coefficients[0].value, 0);
    assert_eq!(poly.coefficients[1].value, 2);
}

#[test]
fn polynomial_lagrange_three_points() {
    let points = vec![(0, -2), (1, 6), (-5, 48)];

    let poly = lagrange_interpolation_over(&points, FiniteField::new(101));
    assert_eq!(poly.coefficients.len(), 3);
    assert_eq!(poly.coefficients[0].value, canon(-2, 101));
    assert_eq!(poly.coefficients[1].value, 5);
    assert_eq!(poly.coefficients[2].value, 3);
}

#[test]
fn polynomial_lagrange_three_points2() {
    let points = vec![(1, 1), (2, 4), (3, 9)];

    let poly = lagrange_interpolation_over(&points, FiniteField::new(101));
    assert_eq!(poly.coefficients.len(), 3);
    assert_eq!(poly.coefficients[0].value, 0);
    assert_eq!(poly.coefficients[1].value, 0);
    assert_eq!(poly.coefficients[2].value, 1);
}

#[test]
fn interpolation_passes_through_every_point() {
    let field = FiniteField::new(DEFAULT_FIELD_SIZE);
    let points: Vec<(i128, i128)> = (0..9).map(|i| (i * 3 - 4, i * i * i - 11 * i + 5)).collect();
    let poly = lagrange_interpolation(&points);
    assert_eq!(poly.coefficients.len(), points.len());
    assert!(poly.degree() < points.len());
    for &(x, y) in points.iter() {
        let at = FiniteFieldElement::new_fielded(x, field);
        assert_eq!(poly.evaluate(at).value, canon(y, DEFAULT_FIELD_SIZE));
    }
}

#[test]
fn product_evaluates_to_the_product_of_the_values() {
    let field = FiniteField::new(DEFAULT_FIELD_SIZE);
    let a = Polynomial::new(vec![3, -1, 4, 1, -5]);
    let b = Polynomial::new(vec![-9, 2, 6]);
    let product = a.multiply(&b);
    assert_eq!(product.degree(), a.degree() + b.degree());
    for x in -5..6 {
        let at = FiniteFieldElement::new_fielded(x, field);
        assert_eq!(product.evaluate(at), a.evaluate(at).multiply(b.evaluate(at)));
    }
}

#[test]
fn power_evaluates_to_the_power_of_the_value() {
    let a = Polynomial::new(vec![2, 0, -3]);
    let cubed = a.pow(3);
    assert_eq!(cubed.coefficients.len(), 7);
    for x in 0..6 {
        let at = FiniteFieldElement::new(x);
        assert_eq!(cubed.evaluate(at), a.evaluate(at).pow(3));
    }
}

#[test]
fn multiply_by_the_empty_polynomial_gives_zeros() {
    let a = Polynomial::new(vec![1, 2, 3]);
    let empty = Polynomial::new(vec![]);
    assert_eq!(a.multiply(&empty).to_i128_coeffs(), [0, 0]);
    assert_eq!(empty.multiply(&a).to_i128_coeffs(), [0, 0]);
    assert_eq!(empty.multiply(&empty).coefficients.len(), 0);
}

#[test]
fn new_ff_keeps_the_elements() {
    let field = FiniteField::new(11);
    let poly = Polynomial::new_ff(vec![field.element(3), field.element(14)]);
    assert_eq!(poly.to_i128_coeffs(), [3, 3]);
    assert_eq!(poly.coefficient_field().prime, 11);
    assert_eq!(poly.duplicate().to_i128_coeffs(), [3, 3]);
    assert_eq!(poly.significant_len(), 2);
}

#[test]
fn terms_are_the_non_zero_coefficients_highest_first() {
    let poly = Polynomial::new(vec![4, 0, 3, 0]);
    assert_eq!(poly.terms(), vec![(3, 2), (4, 0)]);
    assert!(Polynomial::new(vec![0, 0]).terms().is_empty());
    assert!(Polynomial::new(vec![]).terms().is_empty());
    assert_eq!(Polynomial::new(vec![-1, 7]).terms(), vec![(7, 1), (DEFAULT_FIELD_SIZE - 1, 0)]);
}
