use stark_from_zero::finite_field::{FiniteField, FiniteFieldElement};
use stark_from_zero::fri::{fold_once, fold_until};

#[test]
fn fold_once_halves_length_and_is_deterministic() {
    let field = FiniteField::new(FiniteFieldElement::DEFAULT_FIELD_SIZE);
    let values: Vec<FiniteFieldElement> = (0..8)
        .map(|i| FiniteFieldElement::new_fielded(i as i128, field))
        .collect();
    let beta = FiniteFieldElement::new_fielded(3, field);

    let folded = fold_once(&values, beta);
    assert_eq!(folded.len(), 4);

    for i in 0..4 {
        let expected = values[i].add(beta.multiply(values[i + 4]));
        assert_eq!(folded[i].value, expected.value);
        assert_eq!(folded[i].field.prime, expected.field.prime);
    }
}

#[test]
fn fold_until_reduces_to_target_len() {
    let field = FiniteField::new(FiniteFieldElement::DEFAULT_FIELD_SIZE);
    let values: Vec<FiniteFieldElement> = (0..16)
        .map(|i| FiniteFieldElement::new_fielded((i as i128) * 7 + 1, field))
        .collect();

    let betas = vec![
        FiniteFieldElement::new_fielded(5, field),
        FiniteFieldElement::new_fielded(9, field),
    ];

    let out = fold_until(&values, &betas, 4);
    assert_eq!(out.len(), 4);

    let after_one = fold_once(&values, betas[0]);
    let after_two = fold_once(&after_one, betas[1]);
    for (a, b) in out.iter().zip(after_two.iter()) {
        assert_eq!(a.value, b.value);
        assert_eq!(a.field.prime, b.field.prime);
    }
}

#[test]
fn fold_once_exact_values() {
    let field = FiniteField::new(7);
    let values: Vec<FiniteFieldElement> = [1, 2, 3, 4]
        .iter()
        .map(|&v| FiniteFieldElement::new_fielded(v, field))
        .collect();
    let beta = FiniteFieldElement::new_fielded(5, field);
    let folded = fold_once(&values, beta);
    // 1 + 5 * 3 = 16 = 2 (mod 7), 2 + 5 * 4 = 22 = 1 (mod 7)
    assert_eq!(folded.len(), 2);
    assert_eq!(folded[0].value, 2);
    assert_eq!(folded[1].value, 1);
}

#[test]
fn fold_until_the_length_itself_changes_nothing() {
    let field = FiniteField::new(7);
    let values: Vec<FiniteFieldElement> = [1, 2, 3, 4]
        .iter()
        .map(|&v| FiniteFieldElement::new_fielded(v, field))
        .collect();
    let out = fold_until(&values, &[], 4);
    assert_eq!(out, values);
}

#[test]
fn fold_until_reaches_a_single_value() {
    let field = FiniteField::new(7);
    let values: Vec<FiniteFieldElement> = [1, 2, 3, 4]
        .iter()
        .map(|&v| FiniteFieldElement::new_fielded(v, field))
        .collect();
    let betas = vec![
        FiniteFieldElement::new_fielded(5, field),
        FiniteFieldElement::new_fielded(3, field),
    ];
    let out = fold_until(&values, &betas, 1);
    // [2, 1] folds to 2 + 3 * 1 = 5
    assert_eq!(out.len(), 1);
    assert_eq!(out[0].value, 5);
}
