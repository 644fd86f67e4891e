use stark_from_zero::constants::{DEFAULT_FIELD_SIZE, EXTENSION_FACTOR};
use stark_from_zero::evaluation_domain::EvaluationDomain;
use stark_from_zero::finite_field::{FiniteField, FiniteFieldElement};
use stark_from_zero::merkle_tree::{reconstruct_root, MerkleTree};
use stark_from_zero::polynomial::polynomial::Polynomial;
use stark_from_zero::prover::{
    create_fibonacci_constraint_poly, create_quotient_polynomial, create_vanishing_polynomial,
    extend_trace, generate_merkle_proofs, populate_sampling, prove_fibonacci, row_leaf_hashes,
};
use stark_from_zero::stark_verifier::{
    derive_fri_betas_from_commitment, derive_sample_points_from_commitment,
    generate_sample_points, hash_row, verify_fibonacci_constraints, verify_merkle_proofs,
    verify_proof, verify_quotient_polynomial, verify_random_sampling,
};
use stark_from_zero::trace::fibonacci::generate_fibonacci_trace;
use stark_from_zero::trace::Trace;

#[test]
fn test_fibonacci_prover() {
    let trace = generate_fibonacci_trace(5, 1, 1);
    let field = FiniteField::new(DEFAULT_FIELD_SIZE);

    let mut proof = prove_fibonacci(trace.clone(), field);

    let extension_factor = EXTENSION_FACTOR;
    let extended_trace = extend_trace(&trace, proof.field, extension_factor);
    let extended_trace_size = proof.trace_size * extension_factor;

    let sample_points = generate_sample_points(extended_trace_size, 5);
    let merkle_proofs = generate_merkle_proofs(&extended_trace, &sample_points);

    let mut sample_values = Vec::new();
    for &sample_point in &sample_points {
        let mut values_at_point = Vec::new();
        for col in 0..extended_trace.len() {
            values_at_point.push(extended_trace[col][sample_point]);
        }
        sample_values.push(values_at_point);
    }

    proof.sampling_data.sample_points = sample_points;
    proof.sampling_data.sample_values = sample_values;
    proof.sampling_data.constraint_values = Vec::new();
    proof.sampling_data.merkle_proofs = merkle_proofs;

    let is_valid = verify_proof(&proof);

    assert!(is_valid, "Fibonacci proof should be valid");
}

#[test]
fn test_vanishing_polynomial() {
    let field = FiniteField::new(DEFAULT_FIELD_SIZE);
    let domain = EvaluationDomain::new_linear(field, 3);

    let vanishing_poly = create_vanishing_polynomial(&domain);

    for i in 0..domain.size() {
        let point = domain.element(i);
        let value = vanishing_poly.evaluate(point);
        assert_eq!(
            value.value, 0,
            "Vanishing polynomial should be zero at domain point {}",
            i
        );
    }

    let outside_point = FiniteFieldElement::new_fielded(3, field);
    let outside_value = vanishing_poly.evaluate(outside_point);
    assert_ne!(
        outside_value.value, 0,
        "Vanishing polynomial should be non-zero outside domain"
    );
}

#[test]
fn test_quotient_polynomial() {
    let field = FiniteField::new(DEFAULT_FIELD_SIZE);
    let domain = EvaluationDomain::new_linear(field, 3);

    let constraint_poly = Polynomial::new(vec![0, 2, -3, 1]);

    let vanishing_poly = create_vanishing_polynomial(&domain);
    let quotient_poly = create_quotient_polynomial(&constraint_poly, &vanishing_poly);

    assert_eq!(
        quotient_poly.degree(),
        0,
        "Quotient polynomial should be constant"
    );
    assert_eq!(
        quotient_poly.coefficients[0].value, 1,
        "Quotient should be 1"
    );

    let test_points = vec![0, 1, 2, 3, 4];
    for &i in &test_points {
        let point = FiniteFieldElement::new_fielded(i, field);
        let c_value = constraint_poly.evaluate(point);
        let z_value = vanishing_poly.evaluate(point);
        let q_value = quotient_poly.evaluate(point);
        let expected = q_value.multiply(z_value);

        assert_eq!(
            c_value.value, expected.value,
            "C({}) = {} should equal Q({}) * Z_H({}) = {}",
            i, c_value.value, i, i, expected.value
        );
    }
}

#[test]
fn eight_steps_prove_and_verify() {
    let trace = generate_fibonacci_trace(8, 1, 1);
    let field = FiniteField::new(DEFAULT_FIELD_SIZE);
    let proof = prove_fibonacci(trace.clone(), field);
    assert_eq!(proof.trace_size, 8);
    assert_eq!(proof.eval_domain.size(), 8);
    assert_eq!(proof.fri_layers.len(), 3);
    assert_eq!(proof.fri_layers[0].len(), 32);
    assert_eq!(proof.fri_layers[1].len(), 16);
    assert_eq!(proof.fri_layers[2].len(), 8);
    assert_eq!(proof.fri_betas.len(), 2);
    assert_eq!(proof.composition_poly.degree(), 0);
    assert_eq!(proof.quotient_poly.to_i128_coeffs(), [0]);

    // Without sampling data the proof is refused.
    assert!(!verify_proof(&proof));

    let proof = populate_sampling(proof, &trace, 5);
    assert_eq!(proof.sampling_data.sample_points.len(), 5);
    assert_eq!(
        proof.sampling_data.sample_points,
        derive_sample_points_from_commitment(proof.trace_commitment, 32, 5)
    );
    assert!(verify_merkle_proofs(&proof));
    assert!(verify_random_sampling(&proof));
    assert!(verify_proof(&proof));
}

#[test]
fn tampered_trace_is_rejected() {
    let honest = generate_fibonacci_trace(8, 1, 1);
    let mut rows = honest.trace.clone();
    rows[4][2] += 1;
    let trace = Trace::new(rows);
    let field = FiniteField::new(DEFAULT_FIELD_SIZE);
    let proof = prove_fibonacci(trace.clone(), field);
    assert!(proof.composition_poly.degree() > 0);
    let proof = populate_sampling(proof, &trace, 5);
    // The rows still authenticate: the prover committed to the tampered trace.
    assert!(verify_merkle_proofs(&proof));
    assert!(!verify_random_sampling(&proof));
    assert!(!verify_proof(&proof));
}

#[test]
fn a_changed_row_value_fails_its_authentication_path() {
    let trace = generate_fibonacci_trace(8, 1, 1);
    let field = FiniteField::new(DEFAULT_FIELD_SIZE);
    let proof = prove_fibonacci(trace.clone(), field);
    let mut proof = populate_sampling(proof, &trace, 5);
    let old = proof.sampling_data.sample_values[2][1];
    proof.sampling_data.sample_values[2][1] = old.add(FiniteFieldElement::new_fielded(1, field));
    assert!(!verify_merkle_proofs(&proof));
    assert!(!verify_proof(&proof));
}

#[test]
fn malformed_proofs_are_rejected_without_a_panic() {
    let trace = generate_fibonacci_trace(8, 1, 1);
    let field = FiniteField::new(DEFAULT_FIELD_SIZE);

    // Authentication paths are missing.
    let mut no_paths = populate_sampling(prove_fibonacci(trace.clone(), field), &trace, 5);
    no_paths.sampling_data.merkle_proofs = Vec::new();
    assert!(!verify_proof(&no_paths));

    // An authentication path is empty.
    let mut empty_path = populate_sampling(prove_fibonacci(trace.clone(), field), &trace, 5);
    empty_path.sampling_data.merkle_proofs[0] = Vec::new();
    assert!(!verify_proof(&empty_path));

    // Rows are missing.
    let mut no_rows = populate_sampling(prove_fibonacci(trace.clone(), field), &trace, 5);
    no_rows.sampling_data.sample_values = Vec::new();
    assert!(!verify_proof(&no_rows));

    // A sampled position lies outside the extended domain.
    let mut far = populate_sampling(prove_fibonacci(trace.clone(), field), &trace, 5);
    far.sampling_data.sample_points[0] = 32;
    assert!(!verify_random_sampling(&far));
    assert!(!verify_proof(&far));

    // The trace size is zero, or the field is none.
    let mut no_size = populate_sampling(prove_fibonacci(trace.clone(), field), &trace, 5);
    no_size.trace_size = 0;
    assert!(!verify_proof(&no_size));
    let mut no_field = populate_sampling(prove_fibonacci(trace.clone(), field), &trace, 5);
    no_field.field = FiniteField::new(0);
    assert!(!verify_proof(&no_field));
}

#[test]
fn extension_keeps_the_trace_values() {
    let trace = generate_fibonacci_trace(8, 1, 1);
    let field = FiniteField::new(DEFAULT_FIELD_SIZE);
    let extended = extend_trace(&trace, field, 4);
    assert_eq!(extended.len(), 3);
    for c in 0..3 {
        assert_eq!(extended[c].len(), 32);
        for r in 0..8 {
            assert_eq!(extended[c][r].value, trace.get(r, c).unwrap());
        }
    }
}

#[test]
fn commitment_is_the_root_over_the_row_hashes() {
    let trace = generate_fibonacci_trace(8, 1, 1);
    let field = FiniteField::new(DEFAULT_FIELD_SIZE);
    let proof = prove_fibonacci(trace.clone(), field);
    let extended = extend_trace(&trace, field, EXTENSION_FACTOR);
    let hashes = row_leaf_hashes(&extended);
    assert_eq!(hashes.len(), 32);
    let row: Vec<FiniteFieldElement> = (0..3).map(|c| extended[c][5]).collect();
    assert_eq!(hashes[5], hash_row(&row));
    let mut tree = MerkleTree::new();
    tree.build_from_hashes(&hashes);
    assert_eq!(tree.root(), Some(proof.trace_commitment));

    let paths = generate_merkle_proofs(&extended, &[0, 31, 32]);
    assert_eq!(paths.len(), 3);
    assert_eq!(reconstruct_root(hashes[0], &paths[0]), proof.trace_commitment);
    assert_eq!(reconstruct_root(hashes[31], &paths[1]), proof.trace_commitment);
    assert!(paths[2].is_empty());
}

#[test]
fn composition_polynomial_interpolates_the_residuals() {
    let field = FiniteField::new(DEFAULT_FIELD_SIZE);
    let trace = Trace::new(vec![
        vec![0, 1, 1],
        vec![1, 1, 1],
        vec![1, 1, 2],
        vec![1, 2, 10],
        vec![2, 3, 5],
    ]);
    let (poly, domain) = create_fibonacci_constraint_poly(&trace, field);
    assert_eq!(domain.size(), 5);
    assert_eq!(domain.element(3).value, 3);
    assert_eq!(poly.coefficients.len(), 5);
    let residuals = [0, 0, 0, 7, 0];
    for s in 0..5 {
        assert_eq!(poly.evaluate(domain.element(s)).value, residuals[s]);
    }
}

#[test]
fn vanishing_polynomial_of_three_points() {
    let field = FiniteField::new(101);
    let domain = EvaluationDomain::new_linear(field, 3);
    // x (x - 1) (x - 2) = x^3 - 3 x^2 + 2 x
    let poly = create_vanishing_polynomial(&domain);
    assert_eq!(poly.to_i128_coeffs(), [0, 2, 98, 1]);
    for x in 0..10 {
        let at = field.element(x);
        assert_eq!(poly.evaluate(at), domain.evaluate_vanishing(at));
    }
    assert_eq!(domain.evaluate_vanishing(field.element(5)).value, 60);
}

#[test]
fn quotient_of_a_lower_degree_is_zero() {
    let field = FiniteField::new(DEFAULT_FIELD_SIZE);
    let domain = EvaluationDomain::new_linear(field, 3);
    let vanishing_poly = create_vanishing_polynomial(&domain);
    let low = Polynomial::new(vec![1, 2]);
    assert_eq!(create_quotient_polynomial(&low, &vanishing_poly).to_i128_coeffs(), [0]);
    let zero = Polynomial::new(vec![0, 0, 0, 0, 0]);
    assert_eq!(create_quotient_polynomial(&zero, &vanishing_poly).to_i128_coeffs(), [0]);
}

#[test]
fn sample_points_stay_below_the_leaf_count() {
    let points = derive_sample_points_from_commitment(123456789, 20, 50);
    assert_eq!(points.len(), 50);
    assert!(points.iter().all(|&p| p < 20));
    assert_eq!(points, derive_sample_points_from_commitment(123456789, 20, 50));
    assert_ne!(points, derive_sample_points_from_commitment(123456790, 20, 50));

    let generated = generate_sample_points(20, 5);
    assert_eq!(generated.len(), 5);
    assert!(generated.iter().all(|&p| p < 20));
    let first = 12345u64.wrapping_mul(1103515245).wrapping_add(12345);
    assert_eq!(generated[0], (first as usize) % 20);
}

#[test]
fn betas_are_derived_from_the_commitment_alone() {
    let betas = derive_fri_betas_from_commitment(42, 3);
    assert_eq!(betas.len(), 3);
    assert_eq!(betas, derive_fri_betas_from_commitment(42, 3));
    assert_eq!(betas[..2], derive_fri_betas_from_commitment(42, 2)[..]);
    assert_ne!(betas, derive_fri_betas_from_commitment(43, 3));
    assert!(betas.iter().all(|b| b.field.prime == DEFAULT_FIELD_SIZE));
}

#[test]
fn constraint_and_quotient_checks_on_chosen_polynomials() {
    let field = FiniteField::new(DEFAULT_FIELD_SIZE);
    // C = x (x - 1) vanishes on the trace domain of two rows, with Q = 1.
    let c = Polynomial::new(vec![0, -1, 1]);
    let q = Polynomial::new(vec![1]);
    assert!(verify_quotient_polynomial(&[0, 1, 5, 7], 2, field, &c, &q));
    assert!(verify_fibonacci_constraints(&[0, 1], 2, field, &c));
    assert!(!verify_fibonacci_constraints(&[0, 2], 2, field, &c));
    let wrong = Polynomial::new(vec![2]);
    assert!(!verify_quotient_polynomial(&[5], 2, field, &c, &wrong));
    // On the trace domain Z_H is zero, so the wrong quotient is not seen there.
    assert!(verify_quotient_polynomial(&[0, 1], 2, field, &c, &wrong));
    // No sample, nothing to refute.
    assert!(verify_fibonacci_constraints(&[], 0, field, &c));
    assert!(verify_quotient_polynomial(&[], 0, field, &c, &q));
    assert!(!verify_quotient_polynomial(&[0], 0, field, &c, &q));
}

#[test]
fn evaluation_domain_of_linear_points() {
    let field = FiniteField::new(5);
    let domain = EvaluationDomain::new_linear(field, 7);
    assert_eq!(domain.size(), 7);
    assert_eq!(domain.element(0).value, 0);
    assert_eq!(domain.element(4).value, 4);
    assert_eq!(domain.element(6).value, 1);
    let small = EvaluationDomain::new_linear(field, 3);
    assert_eq!(small.evaluate_vanishing(field.element(1)).value, 0);
    // 4 * 3 * 2 = 24 = 4 (mod 5)
    assert_eq!(small.evaluate_vanishing(field.element(4)).value, 4);
}
