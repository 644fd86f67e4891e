use crate::constants::EXTENSION_FACTOR;
use crate::evaluation_domain::{linear_points, vanishing_value, EvaluationDomain};
use crate::finite_field::{residue, FiniteField, FiniteFieldElement};
use crate::fri::{all_in_field, fold_once, folded};
use crate::merkle_tree::{
    is_power_of_two, lemma_padded_size, lemma_tree_path_verifies, padded_hashes, padded_size,
    path_from, root_of, tree_levels, MerkleTree,
};
use crate::number_theory::is_prime;
use crate::polynomial::algebra::{
    degree_of, elements_of, eval_at, is_zero_poly, lemma_elements_of_reduced,
    lemma_eval_of_zero_poly, lemma_product_top, lemma_trimmed_len_bound, lemma_trimmed_len_is,
    lemma_values_of_elements, poly_product, reduced, trimmed_len, values_of,
};
use crate::polynomial::divide::{divided, division_holds};
use crate::polynomial::interpolate::{
    interpolant, lagrange_interpolation_over, lemma_interpolant_of_zeros,
    lemma_interpolation_passes, lemma_lagrange_sum_len, lemma_lagrange_sum_reduced,
    linear_factor,
};
use crate::polynomial::polynomial::Polynomial;
use crate::stark_verifier::{
    accepts, constraint_holds_at, derive_fri_betas_from_commitment,
    derive_sample_points_from_commitment, derived_betas, derived_sample_points, hash_row,
    merkle_proof_holds, quotient_holds_at, row_hash, SamplingData, StarkProof,
};
use crate::trace::{column_of, Trace};
use vstd::arithmetic::div_mod::{
    lemma_mod_multiples_vanish, lemma_mod_twice, lemma_mul_mod_noop_general, lemma_small_mod,
    lemma_sub_mod_noop, lemma_sub_mod_noop_right,
};
use vstd::prelude::*;

verus! {

/// The interpolation points of a column: the step and the value at that step.
pub open spec fn indexed_points(column: Seq<i128>) -> Seq<(i128, i128)> {
    Seq::new(column.len(), |s: int| (s as i128, column[s]))
}

/// A column extended to `size` values: the polynomial that interpolates the
/// column over the steps, evaluated at `0, 1, ..., size - 1`.
pub open spec fn extended_column(column: Seq<i128>, field: FiniteField, size: nat) -> Seq<
    FiniteFieldElement,
> {
    Seq::new(
        size,
        |i: int|
            residue(
                eval_at(
                    interpolant(indexed_points(column), field.prime as int),
                    residue(i, field).value as int,
                ),
                field,
            ),
    )
}

/// All columns of a trace, each extended to `size` values.
pub open spec fn extended_columns(
    rows: Seq<Seq<i128>>,
    num_columns: nat,
    field: FiniteField,
    size: nat,
) -> Seq<Seq<FiniteFieldElement>> {
    Seq::new(num_columns, |c: int| extended_column(column_of(rows, c), field, size))
}

/// The columns of a table of vectors.
pub open spec fn columns_of(table: Seq<Vec<FiniteFieldElement>>) -> Seq<Seq<FiniteFieldElement>> {
    Seq::new(table.len(), |c: int| table[c]@)
}

/// The row `i` of a table that is stored by columns.
pub open spec fn row_of_columns(columns: Seq<Seq<FiniteFieldElement>>, i: int) -> Seq<
    FiniteFieldElement,
> {
    Seq::new(columns.len(), |c: int| columns[c][i])
}

/// The leaf hash of every row of a table that is stored by columns.
pub open spec fn row_hashes(columns: Seq<Seq<FiniteFieldElement>>) -> Seq<i128> {
    Seq::new(columns[0].len(), |i: int| row_hash(row_of_columns(columns, i)))
}

/// All columns are as long as the first.
pub open spec fn is_rectangular(columns: Seq<Seq<FiniteFieldElement>>) -> bool {
    columns.len() > 0 && forall|c: int|
        0 <= c < columns.len() ==> (#[trigger] columns[c]).len() == columns[0].len()
}

/// The residual of the Fibonacci recurrence at step `s`, modulo `p`:
/// `F(s) - F(s-1) - F(s-2)`, read from the three columns of row `s`; the
/// first two steps have none.
pub open spec fn residual_at(rows: Seq<Seq<i128>>, s: int, p: int) -> int {
    if s < 2 {
        0
    } else {
        (rows[s][2] - rows[s][1] - rows[s][0]) % p
    }
}

/// The trace obeys the Fibonacci recurrence in the field: every residual is zero.
pub open spec fn obeys_recurrence(rows: Seq<Seq<i128>>, p: int) -> bool {
    forall|s: int| 0 <= s < rows.len() ==> #[trigger] residual_at(rows, s, p) == 0
}

/// The points that the composition polynomial interpolates: each step with
/// its residual.
pub open spec fn constraint_points(rows: Seq<Seq<i128>>, p: int) -> Seq<(i128, i128)> {
    Seq::new(rows.len(), |s: int| (s as i128, residual_at(rows, s, p) as i128))
}

/// The coefficients of the vanishing polynomial of the points `a`, the
/// product of all `x - a[i]`, reduced modulo `p`.
pub open spec fn vanishing_coefficients(a: Seq<int>, p: int) -> Seq<int>
    decreases a.len(),
{
    if a.len() == 0 {
        seq![1int % p]
    } else {
        reduced(
            poly_product(vanishing_coefficients(a.drop_last(), p), linear_factor(a.last(), p)),
            p,
        )
    }
}

/// The quotient is the zero polynomial without a division: the composition
/// polynomial is zero, or its degree is below that of the vanishing polynomial.
pub open spec fn quotient_is_trivial(c: Seq<int>, z: Seq<int>) -> bool {
    (c.len() > 0 && trimmed_len(c) == 0) || degree_of(c) < degree_of(z)
}

/// `q` is the quotient that the prover reports for the composition
/// polynomial `c` and the vanishing polynomial `z` over `field`: the constant
/// zero where no division is needed, and otherwise the quotient of the long
/// division of `c` by `z`.
pub open spec fn is_quotient(
    q: Seq<FiniteFieldElement>,
    c: Seq<int>,
    z: Seq<int>,
    field: FiniteField,
) -> bool {
    if quotient_is_trivial(c, z) {
        q == seq![residue(0, field)]
    } else {
        q == elements_of(divided(c, z, field.prime as int).0, field)
    }
}

/// The folding layers that follow `current`: it is folded with the challenges
/// in turn, as long as there are challenges and more than one value is left.
pub open spec fn layers_after(
    current: Seq<FiniteFieldElement>,
    betas: Seq<FiniteFieldElement>,
) -> Seq<Seq<FiniteFieldElement>>
    decreases betas.len(),
{
    if betas.len() == 0 || current.len() <= 1 {
        Seq::<Seq<FiniteFieldElement>>::empty()
    } else {
        seq![folded(current, betas[0])] + layers_after(folded(current, betas[0]), betas.skip(1))
    }
}

/// The widest folding layer: the last extended column, with zeros of the
/// field up to the number of leaves.
pub open spec fn first_layer(
    columns: Seq<Seq<FiniteFieldElement>>,
    field: FiniteField,
    leaf_count: nat,
) -> Seq<FiniteFieldElement> {
    Seq::new(
        leaf_count,
        |i: int|
            if i < columns.last().len() {
                columns.last()[i]
            } else {
                residue(0, field)
            },
    )
}

/// The challenges taken into `field`.
pub open spec fn betas_in(betas: Seq<FiniteFieldElement>, field: FiniteField) -> Seq<
    FiniteFieldElement,
> {
    Seq::new(betas.len(), |i: int| residue(betas[i].value as int, field))
}

/// `proof` is what the prover builds for the trace `rows` over `field`, before
/// any sampling.
pub open spec fn is_proof_of(
    proof: &StarkProof,
    rows: Seq<Seq<i128>>,
    num_columns: nat,
    field: FiniteField,
) -> bool {
    let p = field.prime as int;
    let size = (rows.len() * EXTENSION_FACTOR) as nat;
    let columns = extended_columns(rows, num_columns, field, size);
    let hashes = row_hashes(columns);
    let betas = betas_in(derived_betas(proof.trace_commitment, 2), field);
    let layer = first_layer(columns, field, padded_size(size));
    &&& Some(proof.trace_commitment) == root_of(hashes)
    &&& proof.trace_size == rows.len()
    &&& proof.field == field
    &&& proof.eval_domain.field == field
    &&& proof.eval_domain.points@ == linear_points(field, rows.len())
    &&& proof.sampling_data.sample_points@.len() == 0
    &&& proof.sampling_data.sample_values@.len() == 0
    &&& proof.sampling_data.constraint_values@.len() == 0
    &&& proof.sampling_data.merkle_proofs@.len() == 0
    &&& proof.fri_betas@ == betas
    &&& columns_of(proof.fri_layers@) == seq![layer] + layers_after(layer, betas)
    &&& proof.composition_poly.coefficients@ == elements_of(
        interpolant(constraint_points(rows, p), p),
        field,
    )
    &&& is_quotient(
        proof.quotient_poly.coefficients@,
        proof.composition_poly.values(),
        vanishing_coefficients(values_of(linear_points(field, rows.len())), p),
        field,
    )
}

/// Low-degree extension: every column is interpolated over the steps
/// `0, ..., r - 1` and evaluated at `0, ..., r * extension_factor - 1`.
pub fn extend_trace(trace: &Trace, field: FiniteField, extension_factor: usize) -> (result: Vec<
    Vec<FiniteFieldElement>,
>)
    requires
        trace.wf(),
        field.wf(),
        extension_factor > 0,
        trace.trace@.len() * extension_factor <= usize::MAX,
        trace.trace@.len() + 2 <= usize::MAX,
    ensures
        columns_of(result@) == extended_columns(
            trace.rows(),
            trace.num_columns as nat,
            field,
            (trace.trace@.len() * extension_factor) as nat,
        ),
        is_prime(field.prime as int) && trace.trace@.len() <= field.prime ==> forall|
            c: int,
            s: int,
        |
            0 <= c < trace.num_columns && 0 <= s < trace.trace@.len() ==> #[trigger] columns_of(
                result@,
            )[c][s] == residue(trace.rows()[s][c] as int, field),
{
    let trace_rows: usize = trace.num_rows();
    assert(trace_rows * extension_factor >= 1) by (nonlinear_arith)
        requires
            trace_rows >= 1,
            extension_factor >= 1,
    ;
    let extended_size: usize = trace_rows * extension_factor;
    let eval_domain = EvaluationDomain::new_linear(field, extended_size);
    let ghost p = field.prime as int;
    let ghost target = extended_columns(
        trace.rows(),
        trace.num_columns as nat,
        field,
        extended_size as nat,
    );
    let mut extended: Vec<Vec<FiniteFieldElement>> = Vec::new();
    let mut col: usize = 0;
    while col < trace.num_columns()
        invariant
            trace.wf(),
            field.wf(),
            p == field.prime,
            trace_rows == trace.trace@.len(),
            trace_rows + 2 <= usize::MAX,
            eval_domain.points@ == linear_points(field, extended_size as nat),
            target == extended_columns(
                trace.rows(),
                trace.num_columns as nat,
                field,
                extended_size as nat,
            ),
            col <= trace.num_columns,
            extended@.len() == col,
            forall|c: int| 0 <= c < col ==> (#[trigger] extended@[c])@ == target[c],
        decreases trace.num_columns - col,
    {
        let column = trace.get_column(col);
        let mut points: Vec<(i128, i128)> = Vec::new();
        let mut step: usize = 0;
        while step < column.len()
            invariant
                step <= column@.len(),
                points@.len() == step,
                forall|s: int| 0 <= s < step ==> points@[s] == (s as i128, column@[s]),
            decreases column@.len() - step,
        {
            points.push((step as i128, column[step]));
            step = step + 1;
        }
        assert(points@ =~= indexed_points(column@));
        let poly = lagrange_interpolation_over(points.as_slice(), field);
        proof {
            lemma_values_of_elements(interpolant(points@, p), field);
            lemma_lagrange_sum_reduced(points@, points@.len(), field);
        }
        let mut extended_column_values: Vec<FiniteFieldElement> = Vec::new();
        let mut i: usize = 0;
        while i < extended_size
            invariant
                field.wf(),
                p == field.prime,
                eval_domain.points@ == linear_points(field, extended_size as nat),
                poly.values() == interpolant(indexed_points(column@), p),
                i <= extended_size,
                extended_column_values@.len() == i,
                forall|k: int|
                    0 <= k < i ==> extended_column_values@[k] == extended_column(
                        column@,
                        field,
                        extended_size as nat,
                    )[k],
            decreases extended_size - i,
        {
            let point = eval_domain.element(i);
            let value = poly.evaluate(point);
            extended_column_values.push(value);
            i = i + 1;
        }
        assert(extended_column_values@ =~= target[col as int]);
        extended.push(extended_column_values);
        col = col + 1;
    }
    assert(columns_of(extended@) =~= target);
    proof {
        if is_prime(p) && trace_rows <= p {
            assert forall|c: int, s: int|
                0 <= c < trace.num_columns && 0 <= s < trace_rows implies #[trigger] columns_of(
                extended@,
            )[c][s] == residue(trace.rows()[s][c] as int, field) by {
                assert(trace_rows <= extended_size) by (nonlinear_arith)
                    requires
                        extended_size == trace_rows * extension_factor,
                        extension_factor >= 1,
                        trace_rows >= 0,
                ;
                lemma_extension_keeps_column(
                    column_of(trace.rows(), c),
                    field,
                    extended_size as nat,
                    s,
                );
            }
        }
    }
    extended
}

/// The composition polynomial: it interpolates the residuals of the Fibonacci
/// recurrence over the steps of the trace, and its domain.
pub fn create_fibonacci_constraint_poly(trace: &Trace, field: FiniteField) -> (result: (
    Polynomial,
    EvaluationDomain,
))
    requires
        trace.wf(),
        field.wf(),
        trace.trace@.len() >= 3 ==> trace.num_columns >= 3,
        trace.trace@.len() + 2 <= usize::MAX,
    ensures
        result.0.coefficients@ == elements_of(
            interpolant(constraint_points(trace.rows(), field.prime as int), field.prime as int),
            field,
        ),
        result.0.coefficients@.len() == trace.trace@.len(),
        result.0.wf(),
        result.1.field == field,
        result.1.points@ == linear_points(field, trace.trace@.len()),
        result.1.wf(),
        obeys_recurrence(trace.rows(), field.prime as int) ==> is_zero_poly(result.0.values()),
        is_prime(field.prime as int) && trace.trace@.len() <= field.prime ==> forall|s: int|
            0 <= s < trace.trace@.len() ==> eval_at(result.0.values(), s) % (field.prime as int)
                == #[trigger] residual_at(trace.rows(), s, field.prime as int),
{
    let trace_rows: usize = trace.num_rows();
    let eval_domain = EvaluationDomain::new_linear(field, trace_rows);
    let ghost p = field.prime as int;
    let ghost rows = trace.rows();
    let mut points: Vec<(i128, i128)> = Vec::new();
    let mut step: usize = 0;
    while step < trace_rows
        invariant
            trace.wf(),
            field.wf(),
            p == field.prime,
            rows == trace.rows(),
            trace_rows == trace.trace@.len(),
            trace_rows >= 3 ==> trace.num_columns >= 3,
            step <= trace_rows,
            points@.len() == step,
            forall|s: int| 0 <= s < step ==> points@[s] == constraint_points(rows, p)[s],
        decreases trace_rows - step,
    {
        if step < 2 {
            points.push((step as i128, 0));
        } else {
            let f_n_minus_2 = FiniteFieldElement::new_fielded(trace.trace[step][0], field);
            let f_n_minus_1 = FiniteFieldElement::new_fielded(trace.trace[step][1], field);
            let f_n = FiniteFieldElement::new_fielded(trace.trace[step][2], field);
            let residual = f_n.subtract(f_n_minus_1).subtract(f_n_minus_2);
            proof {
                let a = rows[step as int][2] as int;
                let b = rows[step as int][1] as int;
                let c = rows[step as int][0] as int;
                lemma_sub_mod_noop(a, b, p);
                lemma_sub_mod_noop(a - b, c, p);
                lemma_mod_twice(a - b, p);
            }
            points.push((step as i128, residual.value));
        }
        step = step + 1;
    }
    assert(points@ =~= constraint_points(rows, p));
    let poly = lagrange_interpolation_over(points.as_slice(), field);
    proof {
        lemma_composition_interpolates(rows, field);
        lemma_values_of_elements(interpolant(points@, p), field);
        lemma_lagrange_sum_reduced(points@, points@.len(), field);
    }
    (poly, eval_domain)
}

/// The composition polynomial of a trace that obeys the recurrence is zero;
/// over a prime field with at least as many elements as the trace has rows
/// it takes the residual of each step as its value there.
pub proof fn lemma_composition_interpolates(rows: Seq<Seq<i128>>, field: FiniteField)
    requires
        field.wf(),
    ensures
        obeys_recurrence(rows, field.prime as int) ==> is_zero_poly(
            interpolant(constraint_points(rows, field.prime as int), field.prime as int),
        ),
        is_prime(field.prime as int) && rows.len() <= field.prime ==> forall|s: int|
            0 <= s < rows.len() ==> eval_at(
                interpolant(constraint_points(rows, field.prime as int), field.prime as int),
                s,
            ) % (field.prime as int) == #[trigger] residual_at(rows, s, field.prime as int),
{
    let p = field.prime as int;
    let points = constraint_points(rows, p);
    if obeys_recurrence(rows, p) {
        assert forall|s: int| 0 <= s < points.len() implies ((#[trigger] points[s]).1 as int) % p
            == 0 by {
            assert(residual_at(rows, s, p) == 0);
            lemma_small_mod(0, p as nat);
        }
        lemma_interpolant_of_zeros(points, points.len(), p);
    }
    if is_prime(p) && rows.len() <= p {
        assert forall|i: int, j: int|
            0 <= i < points.len() && 0 <= j < points.len() && i != j implies ((
        #[trigger] points[i]).0 - (#[trigger] points[j]).0) % p != 0 by {
            let d = i - j;
            if d > 0 {
                lemma_small_mod(d as nat, p as nat);
            } else {
                lemma_mod_multiples_vanish(1, d, p);
                lemma_small_mod((d + p) as nat, p as nat);
            }
        }
        assert forall|s: int| 0 <= s < rows.len() implies eval_at(interpolant(points, p), s) % p
            == #[trigger] residual_at(rows, s, p) by {
            lemma_interpolation_passes(points, s, p);
            lemma_mod_twice(rows[s][2] - rows[s][1] - rows[s][0], p);
            lemma_small_mod(0, p as nat);
        }
    }
}

/// The vanishing polynomial of a domain: the product of `x - a` over all its
/// points `a`.
pub fn create_vanishing_polynomial(domain: &EvaluationDomain) -> (result: Polynomial)
    requires
        domain.wf(),
        domain.points@.len() + 2 <= usize::MAX,
    ensures
        result.coefficients@ == elements_of(
            vanishing_coefficients(values_of(domain.points@), domain.field.prime as int),
            domain.field,
        ),
        result.coefficients@.len() == domain.points@.len() + 1,
        result.wf(),
{
    let field = domain.field;
    let ghost p = field.prime as int;
    let ghost a = values_of(domain.points@);
    let one = FiniteFieldElement::new_fielded(1, field);
    let mut start: Vec<FiniteFieldElement> = Vec::new();
    start.push(one);
    let mut result = Polynomial { coefficients: start };
    let mut i: usize = 0;
    proof {
        lemma_mod_twice(1, p);
        assert(a.take(0) =~= Seq::<int>::empty());
        assert(result.coefficients@ =~= elements_of(vanishing_coefficients(a.take(0), p), field));
    }
    while i < domain.points.len()
        invariant
            domain.wf(),
            domain.points@.len() + 2 <= usize::MAX,
            field == domain.field,
            p == field.prime,
            a == values_of(domain.points@),
            one == residue(1, field),
            one.wf(),
            i <= domain.points@.len(),
            result.coefficients@ == elements_of(
                vanishing_coefficients(a.take(i as int), p),
                field,
            ),
            result.coefficients@.len() == i + 1,
        decreases domain.points@.len() - i,
    {
        let point = domain.points[i];
        let ghost prev = vanishing_coefficients(a.take(i as int), p);
        let mut pair: Vec<FiniteFieldElement> = Vec::new();
        pair.push(point.negate());
        pair.push(one);
        let factor = Polynomial { coefficients: pair };
        proof {
            let v = a[i as int];
            lemma_values_of_elements(prev, field);
            lemma_vanishing_reduced(a.take(i as int), field);
            lemma_sub_mod_noop_right(p, v, p);
            lemma_mod_multiples_vanish(1, -v, p);
            lemma_mod_twice(1, p);
            assert(factor.values() =~= linear_factor(v, p));
            assert(a.take(i + 1).drop_last() =~= a.take(i as int));
            assert(a.take(i + 1).last() == v);
        }
        result = result.multiply(&factor);
        proof {
            lemma_elements_of_reduced(poly_product(prev, factor.values()), field);
            assert(result.coefficients@ =~= elements_of(
                vanishing_coefficients(a.take(i + 1), p),
                field,
            ));
        }
        i = i + 1;
    }
    assert(a.take(a.len() as int) =~= a);
    result
}

/// The coefficients of a vanishing polynomial are already reduced.
pub proof fn lemma_vanishing_reduced(a: Seq<int>, field: FiniteField)
    requires
        field.wf(),
    ensures
        reduced(vanishing_coefficients(a, field.prime as int), field.prime as int)
            == vanishing_coefficients(a, field.prime as int),
{
    let p = field.prime as int;
    if a.len() == 0 {
        lemma_mod_twice(1, p);
        assert(reduced(seq![1int % p], p) =~= seq![1int % p]);
    } else {
        lemma_elements_of_reduced(
            poly_product(vanishing_coefficients(a.drop_last(), p), linear_factor(a.last(), p)),
            field,
        );
    }
}

/// The leaf hash of every row of the extended trace.
pub fn row_leaf_hashes(extended_trace: &[Vec<FiniteFieldElement>]) -> (result: Vec<i128>)
    requires
        is_rectangular(columns_of(extended_trace@)),
    ensures
        result@ == row_hashes(columns_of(extended_trace@)),
{
    let extended_size: usize = extended_trace[0].len();
    let num_cols: usize = extended_trace.len();
    let ghost columns = columns_of(extended_trace@);
    let mut hashes: Vec<i128> = Vec::new();
    let mut i: usize = 0;
    while i < extended_size
        invariant
            is_rectangular(columns),
            columns == columns_of(extended_trace@),
            extended_size == columns[0].len(),
            num_cols == columns.len(),
            i <= extended_size,
            hashes@.len() == i,
            forall|k: int| 0 <= k < i ==> hashes@[k] == row_hashes(columns)[k],
        decreases extended_size - i,
    {
        let mut row: Vec<FiniteFieldElement> = Vec::new();
        let mut c: usize = 0;
        while c < num_cols
            invariant
                is_rectangular(columns),
                columns == columns_of(extended_trace@),
                extended_size == columns[0].len(),
                num_cols == columns.len(),
                i < extended_size,
                c <= num_cols,
                row@.len() == c,
                forall|k: int| 0 <= k < c ==> row@[k] == columns[k][i as int],
            decreases num_cols - c,
        {
            assert(columns[c as int].len() == columns[0].len());
            assert(columns[c as int] == extended_trace@[c as int]@);
            row.push(extended_trace[c][i]);
            c = c + 1;
        }
        assert(row@ =~= row_of_columns(columns, i as int));
        hashes.push(hash_row(row.as_slice()));
        i = i + 1;
    }
    assert(hashes@ =~= row_hashes(columns));
    hashes
}

/// A vanishing polynomial has one coefficient more than it has points, and
/// its highest coefficient is one.
pub proof fn lemma_vanishing_monic(a: Seq<int>, p: int)
    requires
        p > 0,
    ensures
        vanishing_coefficients(a, p).len() == a.len() + 1,
        vanishing_coefficients(a, p).last() == 1int % p,
    decreases a.len(),
{
    if a.len() > 0 {
        let prev = vanishing_coefficients(a.drop_last(), p);
        let factor = linear_factor(a.last(), p);
        lemma_vanishing_monic(a.drop_last(), p);
        lemma_product_top(prev, factor);
        lemma_mul_mod_noop_general(1, 1, p);
        assert(1int * 1int == 1int);
    }
}

/// A copy of a vector of field elements.
fn copy_values(values: &Vec<FiniteFieldElement>) -> (result: Vec<FiniteFieldElement>)
    ensures
        result@ == values@,
{
    let mut out: Vec<FiniteFieldElement> = Vec::new();
    let mut i: usize = 0;
    while i < values.len()
        invariant
            i <= values@.len(),
            out@ == values@.take(i as int),
        decreases values@.len() - i,
    {
        out.push(values[i]);
        assert(values@.take(i as int).push(values@[i as int]) =~= values@.take(i + 1));
        i = i + 1;
    }
    assert(values@.take(values@.len() as int) =~= values@);
    out
}

/// The quotient `Q = C / Z_H` of the composition polynomial by the vanishing
/// polynomial. It is the constant zero of the vanishing polynomial's field
/// when `C` is zero or of lower degree than `Z_H`; otherwise the quotient of
/// the long division, whatever the remainder.
pub fn create_quotient_polynomial(
    constraint_poly: &Polynomial,
    vanishing_poly: &Polynomial,
) -> (result: Polynomial)
    requires
        constraint_poly.wf(),
        vanishing_poly.wf(),
        constraint_poly.compatible(vanishing_poly),
        quotient_is_trivial(constraint_poly.values(), vanishing_poly.values()) || !is_zero_poly(
            vanishing_poly.values(),
        ),
    ensures
        is_quotient(
            result.coefficients@,
            constraint_poly.values(),
            vanishing_poly.values(),
            vanishing_poly.field(),
        ),
        !quotient_is_trivial(constraint_poly.values(), vanishing_poly.values()) ==> exists|
            r: Seq<int>,
        |
            {
                &&& #[trigger] division_holds(
                    constraint_poly.values(),
                    result.values(),
                    vanishing_poly.values(),
                    r,
                    vanishing_poly.field().prime as int,
                )
                &&& is_prime(vanishing_poly.field().prime as int) ==> r.len() <= degree_of(
                    vanishing_poly.values(),
                )
            },
{
    let ghost c = constraint_poly.values();
    let ghost z = vanishing_poly.values();
    proof {
        lemma_trimmed_len_bound(c);
    }
    let field = vanishing_poly.coefficient_field();
    let constraint_degree: usize = constraint_poly.degree();
    if (constraint_degree == 0 && constraint_poly.coefficients.len() > 0
        && constraint_poly.coefficients[0].is_zero()) || constraint_degree
        < vanishing_poly.degree() {
        let mut zero: Vec<FiniteFieldElement> = Vec::new();
        zero.push(FiniteFieldElement::new_fielded(0, field));
        let result = Polynomial { coefficients: zero };
        assert(result.coefficients@ =~= seq![residue(0, field)]);
        return result;
    }
    proof {
        if c.len() > 0 && trimmed_len(c) == 0 {
            assert(c[0] == 0);
            assert(constraint_poly.coefficients@[0].value == c[0]);
        }
        assert(!quotient_is_trivial(c, z));
    }
    let (quotient, remainder) = constraint_poly.div(vanishing_poly);
    proof {
        assert(division_holds(
            c,
            quotient.values(),
            z,
            remainder.values(),
            vanishing_poly.field().prime as int,
        ));
    }
    quotient
}

/// Builds the proof for a trace: the extended trace is committed to by a
/// Merkle root over its rows, the composition and quotient polynomials are
/// formed, and the last extended column is folded with challenges derived
/// from the commitment. The sampling data is left empty.
pub fn prove_fibonacci(trace: Trace, field: FiniteField) -> (result: StarkProof)
    requires
        trace.wf(),
        field.wf(),
        trace.trace@.len() >= 3 ==> trace.num_columns >= 3,
        trace.trace@.len() * EXTENSION_FACTOR <= usize::MAX / 2 + 1,
    ensures
        is_proof_of(&result, trace.rows(), trace.num_columns as nat, field),
{
    let ghost p = field.prime as int;
    let ghost rows = trace.rows();
    let ghost size = (rows.len() * EXTENSION_FACTOR) as nat;
    let ghost columns = extended_columns(rows, trace.num_columns as nat, field, size);
    let extended = extend_trace(&trace, field, EXTENSION_FACTOR);
    assert(columns_of(extended@) == columns);
    assert(columns_of(extended@).len() == extended@.len());
    assert(columns[0] == extended@[0]@);
    assert(columns[0].len() == size);
    let hashes = row_leaf_hashes(extended.as_slice());
    let mut tree = MerkleTree::new();
    tree.build_from_hashes(hashes.as_slice());
    let root = tree.root();
    let commitment: i128 = root.unwrap();

    let (composition_poly, eval_domain) = create_fibonacci_constraint_poly(&trace, field);
    let vanishing_poly = create_vanishing_polynomial(&eval_domain);
    proof {
        let c = interpolant(constraint_points(rows, p), p);
        let z = vanishing_coefficients(values_of(eval_domain.points@), p);
        lemma_values_of_elements(c, field);
        lemma_lagrange_sum_reduced(constraint_points(rows, p), rows.len(), field);
        lemma_values_of_elements(z, field);
        lemma_vanishing_reduced(values_of(eval_domain.points@), field);
        lemma_vanishing_monic(values_of(eval_domain.points@), p);
        assert(composition_poly.values() == c);
        assert(vanishing_poly.values() == z);
        if p == 1 {
            assert forall|i: int| 0 <= i < c.len() implies c[i] == 0 by {
                assert(composition_poly.coefficients@[i].wf());
            }
            lemma_trimmed_len_is(c, 0);
        } else {
            lemma_small_mod(1, p as nat);
            assert(z.last() == 1);
        }
    }
    let quotient_poly = create_quotient_polynomial(&composition_poly, &vanishing_poly);

    let leaf_count: usize = tree.leaf_count();
    let extended_size: usize = extended[0].len();
    let num_cols: usize = extended.len();
    proof {
        lemma_padded_size(size);
        assert(tree.levels()[0].len() == padded_size(size));
    }
    let ghost layer = first_layer(columns, field, padded_size(size));
    let mut eval_leaves: Vec<FiniteFieldElement> = Vec::new();
    let mut i: usize = 0;
    while i < leaf_count
        invariant
            field.wf(),
            p == field.prime,
            columns == columns_of(extended@),
            num_cols == columns.len(),
            num_cols > 0,
            extended_size == columns.last().len(),
            leaf_count == layer.len(),
            layer == first_layer(columns, field, leaf_count as nat),
            i <= leaf_count,
            eval_leaves@.len() == i,
            forall|k: int| 0 <= k < i ==> eval_leaves@[k] == layer[k],
        decreases leaf_count - i,
    {
        if i < extended_size {
            assert(columns.last() == extended@[num_cols - 1]@);
            eval_leaves.push(extended[num_cols - 1][i]);
        } else {
            eval_leaves.push(FiniteFieldElement::zero(field));
            proof {
                lemma_small_mod(0, p as nat);
            }
        }
        i = i + 1;
    }
    assert(eval_leaves@ =~= layer);

    let derived = derive_fri_betas_from_commitment(commitment, 2);
    let mut fri_betas: Vec<FiniteFieldElement> = Vec::new();
    let mut b: usize = 0;
    while b < derived.len()
        invariant
            field.wf(),
            b <= derived@.len(),
            fri_betas@.len() == b,
            forall|k: int|
                0 <= k < b ==> fri_betas@[k] == residue(derived@[k].value as int, field),
        decreases derived@.len() - b,
    {
        fri_betas.push(FiniteFieldElement::new_fielded(derived[b].value, field));
        b = b + 1;
    }
    let ghost betas = betas_in(derived_betas(commitment, 2), field);
    assert(fri_betas@ =~= betas);

    let mut fri_layers: Vec<Vec<FiniteFieldElement>> = Vec::new();
    fri_layers.push(copy_values(&eval_leaves));
    let mut cur: Vec<FiniteFieldElement> = eval_leaves;
    let mut used: usize = 0;
    proof {
        assert(betas.skip(0) =~= betas);
        assert(columns_of(fri_layers@) =~= seq![layer]);
        assert(columns_of(fri_layers@) + layers_after(layer, betas) =~= seq![layer] + layers_after(
            layer,
            betas,
        ));
        assert forall|k: int| 0 <= k < layer.len() implies (#[trigger] layer[k]).wf()
            && layer[k].field == field by {
            lemma_small_mod(0, p as nat);
        }
    }
    while used < fri_betas.len() && cur.len() > 1
        invariant
            field.wf(),
            fri_betas@ == betas,
            all_in_field(betas, field),
            used <= betas.len(),
            is_power_of_two(cur@.len()),
            all_in_field(cur@, field),
            columns_of(fri_layers@) + layers_after(cur@, betas.skip(used as int)) == seq![layer]
                + layers_after(layer, betas),
        decreases betas.len() - used,
    {
        let beta = fri_betas[used];
        let ghost rest = betas.skip(used as int);
        let ghost before = columns_of(fri_layers@);
        let ghost current = cur@;
        proof {
            assert(rest[0] == beta);
            assert(rest.skip(1) =~= betas.skip(used + 1));
        }
        let next = fold_once(cur.as_slice(), beta);
        fri_layers.push(copy_values(&next));
        cur = next;
        used = used + 1;
        proof {
            assert(columns_of(fri_layers@) =~= before.push(folded(current, beta)));
            assert(before + (seq![folded(current, beta)] + layers_after(
                folded(current, beta),
                rest.skip(1),
            )) =~= before.push(folded(current, beta)) + layers_after(
                folded(current, beta),
                rest.skip(1),
            ));
        }
    }
    proof {
        assert(layers_after(cur@, betas.skip(used as int)) =~= Seq::<
            Seq<FiniteFieldElement>,
        >::empty());
        assert(columns_of(fri_layers@) + Seq::<Seq<FiniteFieldElement>>::empty() =~= columns_of(
            fri_layers@,
        ));
    }

    let sampling_data = SamplingData {
        sample_points: Vec::new(),
        sample_values: Vec::new(),
        constraint_values: Vec::new(),
        merkle_proofs: Vec::new(),
    };
    StarkProof {
        trace_commitment: commitment,
        trace_size: trace.num_rows(),
        field,
        eval_domain,
        sampling_data,
        fri_layers,
        fri_betas,
        composition_poly,
        quotient_poly,
    }
}

/// The authentication paths that answer the sampled positions: the path of
/// each position in the tree over the row hashes, and an empty path for a
/// position that is no leaf.
pub open spec fn answered_paths(
    columns: Seq<Seq<FiniteFieldElement>>,
    points: Seq<usize>,
) -> Seq<Seq<i128>> {
    let levels = tree_levels(row_hashes(columns));
    Seq::new(
        points.len(),
        |i: int|
            if points[i] < levels[0].len() {
                path_from(levels, 0, points[i] as int)
            } else {
                Seq::<i128>::empty()
            },
    )
}

/// The rows of the extended trace at the sampled positions.
pub open spec fn answered_rows(
    columns: Seq<Seq<FiniteFieldElement>>,
    points: Seq<usize>,
) -> Seq<Seq<FiniteFieldElement>> {
    Seq::new(points.len(), |i: int| row_of_columns(columns, points[i] as int))
}

/// The paths of a table of vectors.
pub open spec fn paths_of(table: Seq<Vec<i128>>) -> Seq<Seq<i128>> {
    Seq::new(table.len(), |i: int| table[i]@)
}

/// The authentication path of every sampled row of the extended trace.
pub fn generate_merkle_proofs(
    extended_trace: &[Vec<FiniteFieldElement>],
    sample_points: &[usize],
) -> (result: Vec<Vec<i128>>)
    requires
        is_rectangular(columns_of(extended_trace@)),
        extended_trace@[0]@.len() <= usize::MAX / 2 + 1,
    ensures
        paths_of(result@) == answered_paths(columns_of(extended_trace@), sample_points@),
{
    let ghost columns = columns_of(extended_trace@);
    let hashes = row_leaf_hashes(extended_trace);
    let mut tree = MerkleTree::new();
    tree.build_from_hashes(hashes.as_slice());
    let ghost target = answered_paths(columns, sample_points@);
    let mut merkle_proofs: Vec<Vec<i128>> = Vec::new();
    let mut i: usize = 0;
    while i < sample_points.len()
        invariant
            tree.wf(),
            tree.levels() == tree_levels(row_hashes(columns)),
            target == answered_paths(columns, sample_points@),
            i <= sample_points@.len(),
            merkle_proofs@.len() == i,
            forall|k: int| 0 <= k < i ==> (#[trigger] merkle_proofs@[k])@ == target[k],
        decreases sample_points@.len() - i,
    {
        match tree.get_merkle_proof(sample_points[i]) {
            Some(proof) => {
                merkle_proofs.push(proof);
            },
            None => {
                merkle_proofs.push(Vec::new());
            },
        }
        i = i + 1;
    }
    assert(paths_of(merkle_proofs@) =~= target);
    merkle_proofs
}

/// The proof with its sampling data filled in: the positions are derived from
/// the commitment and the number of extended rows, and the prover answers
/// with the rows at those positions and their authentication paths.
///
/// The positions are reduced modulo the number of extended rows, four times
/// the trace length, and not modulo the number of Merkle leaves. The two
/// agree when the former is a power of two. Where it is not, the leaves
/// beyond the extended rows are padding that stands for no row of the
/// extended trace: the prover has no row to answer with there, so no such
/// position is ever sampled.
pub fn populate_sampling(proof: StarkProof, trace: &Trace, num_samples: usize) -> (result:
    StarkProof)
    requires
        trace.wf(),
        proof.field.wf(),
        trace.trace@.len() * EXTENSION_FACTOR <= usize::MAX / 2 + 1,
    ensures
        result.trace_commitment == proof.trace_commitment,
        result.trace_size == proof.trace_size,
        result.field == proof.field,
        result.eval_domain == proof.eval_domain,
        result.fri_layers == proof.fri_layers,
        result.fri_betas == proof.fri_betas,
        result.composition_poly == proof.composition_poly,
        result.quotient_poly == proof.quotient_poly,
        result.sampling_data.sample_points@ == derived_sample_points(
            proof.trace_commitment,
            (trace.trace@.len() * EXTENSION_FACTOR) as usize,
            num_samples as nat,
        ),
        columns_of(result.sampling_data.sample_values@) == answered_rows(
            extended_columns(
                trace.rows(),
                trace.num_columns as nat,
                proof.field,
                (trace.trace@.len() * EXTENSION_FACTOR) as nat,
            ),
            result.sampling_data.sample_points@,
        ),
        paths_of(result.sampling_data.merkle_proofs@) == answered_paths(
            extended_columns(
                trace.rows(),
                trace.num_columns as nat,
                proof.field,
                (trace.trace@.len() * EXTENSION_FACTOR) as nat,
            ),
            result.sampling_data.sample_points@,
        ),
        result.sampling_data.constraint_values@.len() == 0,
        is_proof_of(&proof, trace.rows(), trace.num_columns as nat, proof.field)
            && obeys_recurrence(trace.rows(), proof.field.prime as int) && num_samples > 0
            ==> accepts(&result),
{
    let field = proof.field;
    let ghost size = (trace.trace@.len() * EXTENSION_FACTOR) as nat;
    let ghost columns = extended_columns(trace.rows(), trace.num_columns as nat, field, size);
    let extended = extend_trace(trace, field, EXTENSION_FACTOR);
    assert(columns_of(extended@) == columns);
    assert(columns_of(extended@).len() == extended@.len());
    assert(columns[0] == extended@[0]@);
    assert(columns[0].len() == size);
    assert(size >= 1) by (nonlinear_arith)
        requires
            size == trace.trace@.len() * EXTENSION_FACTOR,
            trace.trace@.len() >= 1,
            EXTENSION_FACTOR == 4,
    ;
    let extended_size: usize = extended[0].len();
    let num_cols: usize = extended.len();
    let sample_points = derive_sample_points_from_commitment(
        proof.trace_commitment,
        extended_size,
        num_samples,
    );
    let merkle_proofs = generate_merkle_proofs(extended.as_slice(), sample_points.as_slice());
    let ghost target = answered_rows(columns, sample_points@);
    let mut sample_values: Vec<Vec<FiniteFieldElement>> = Vec::new();
    let mut i: usize = 0;
    while i < sample_points.len()
        invariant
            columns == columns_of(extended@),
            is_rectangular(columns),
            num_cols == columns.len(),
            extended_size == columns[0].len(),
            forall|k: int| 0 <= k < sample_points@.len() ==> sample_points@[k] < extended_size,
            target == answered_rows(columns, sample_points@),
            i <= sample_points@.len(),
            sample_values@.len() == i,
            forall|k: int| 0 <= k < i ==> (#[trigger] sample_values@[k])@ == target[k],
        decreases sample_points@.len() - i,
    {
        let point: usize = sample_points[i];
        let mut values: Vec<FiniteFieldElement> = Vec::new();
        let mut c: usize = 0;
        while c < num_cols
            invariant
                columns == columns_of(extended@),
                is_rectangular(columns),
                num_cols == columns.len(),
                extended_size == columns[0].len(),
                point < extended_size,
                c <= num_cols,
                values@.len() == c,
                forall|k: int| 0 <= k < c ==> values@[k] == columns[k][point as int],
            decreases num_cols - c,
        {
            assert(columns[c as int].len() == columns[0].len());
            assert(columns[c as int] == extended@[c as int]@);
            values.push(extended[c][point]);
            c = c + 1;
        }
        assert(values@ =~= target[i as int]);
        sample_values.push(values);
        i = i + 1;
    }
    assert(columns_of(sample_values@) =~= target);
    let sampling_data = SamplingData {
        sample_points,
        sample_values,
        constraint_values: Vec::new(),
        merkle_proofs,
    };
    let ghost before = proof;
    let result = StarkProof {
        trace_commitment: proof.trace_commitment,
        trace_size: proof.trace_size,
        field: proof.field,
        eval_domain: proof.eval_domain,
        sampling_data,
        fri_layers: proof.fri_layers,
        fri_betas: proof.fri_betas,
        composition_poly: proof.composition_poly,
        quotient_poly: proof.quotient_poly,
    };
    proof {
        if is_proof_of(&before, trace.rows(), trace.num_columns as nat, field)
            && obeys_recurrence(trace.rows(), field.prime as int) && num_samples > 0 {
            lemma_honest_proof_accepted(
                &before,
                &result,
                trace.rows(),
                trace.num_columns as nat,
            );
        }
    }
    result
}

/// Completeness: the proof that the prover builds for a trace that obeys the
/// recurrence, with sampling data from the prover for at least one position
/// of the extended domain, is accepted by the verifier.
pub proof fn lemma_honest_proof_accepted(
    before: &StarkProof,
    after: &StarkProof,
    rows: Seq<Seq<i128>>,
    num_columns: nat,
)
    requires
        rows.len() > 0,
        num_columns > 0,
        rows.len() * EXTENSION_FACTOR <= usize::MAX / 2 + 1,
        before.field.wf(),
        is_proof_of(before, rows, num_columns, before.field),
        obeys_recurrence(rows, before.field.prime as int),
        after.trace_commitment == before.trace_commitment,
        after.trace_size == before.trace_size,
        after.field == before.field,
        after.composition_poly == before.composition_poly,
        after.quotient_poly == before.quotient_poly,
        after.sampling_data.sample_points@.len() > 0,
        forall|i: int|
            0 <= i < after.sampling_data.sample_points@.len()
                ==> #[trigger] after.sampling_data.sample_points@[i] < rows.len()
                * EXTENSION_FACTOR,
        columns_of(after.sampling_data.sample_values@) == answered_rows(
            extended_columns(
                rows,
                num_columns,
                before.field,
                (rows.len() * EXTENSION_FACTOR) as nat,
            ),
            after.sampling_data.sample_points@,
        ),
        paths_of(after.sampling_data.merkle_proofs@) == answered_paths(
            extended_columns(
                rows,
                num_columns,
                before.field,
                (rows.len() * EXTENSION_FACTOR) as nat,
            ),
            after.sampling_data.sample_points@,
        ),
    ensures
        accepts(after),
{
    let field = before.field;
    let p = field.prime as int;
    let size = (rows.len() * EXTENSION_FACTOR) as nat;
    let columns = extended_columns(rows, num_columns, field, size);
    let hashes = row_hashes(columns);
    let points = after.sampling_data.sample_points@;
    let data = &after.sampling_data;
    assert(columns[0].len() == size);
    assert(hashes.len() == size);
    assert(size >= 1) by (nonlinear_arith)
        requires
            size == rows.len() * EXTENSION_FACTOR,
            rows.len() >= 1,
            EXTENSION_FACTOR == 4,
    ;
    lemma_padded_size(size);
    let levels = tree_levels(hashes);
    assert(levels[0].len() == padded_size(size));

    // The rows authenticate.
    assert(columns_of(data.sample_values@).len() == data.sample_values@.len());
    assert(paths_of(data.merkle_proofs@).len() == data.merkle_proofs@.len());
    assert forall|i: int| 0 <= i < points.len() implies merkle_proof_holds(
        (#[trigger] data.sample_values@[i])@,
        data.merkle_proofs@[i]@,
        after.trace_commitment,
    ) by {
        let point = points[i];
        assert(point < size);
        assert(columns_of(data.sample_values@)[i] == data.sample_values@[i]@);
        assert(paths_of(data.merkle_proofs@)[i] == data.merkle_proofs@[i]@);
        assert(data.sample_values@[i]@ == row_of_columns(columns, point as int));
        assert(data.merkle_proofs@[i]@ == path_from(levels, 0, point as int));
        lemma_tree_path_verifies(hashes, point as int);
        assert(padded_hashes(hashes, padded_size(size))[point as int] == hashes[point as int]);
    }

    // The composition polynomial is zero, and so is the quotient.
    let c_points = constraint_points(rows, p);
    assert forall|s: int| 0 <= s < c_points.len() implies ((#[trigger] c_points[s]).1 as int) % p
        == 0 by {
        assert(residual_at(rows, s, p) == 0);
        lemma_small_mod(0, p as nat);
    }
    lemma_interpolant_of_zeros(c_points, c_points.len(), p);
    let c = interpolant(c_points, p);
    lemma_lagrange_sum_len(c_points, c_points.len(), p);
    lemma_values_of_elements(c, field);
    lemma_lagrange_sum_reduced(c_points, c_points.len(), field);
    let cv = after.composition_poly.values();
    assert(cv == c);
    lemma_trimmed_len_is(cv, 0);
    let z = vanishing_coefficients(values_of(linear_points(field, rows.len())), p);
    assert(quotient_is_trivial(cv, z));
    let qv = after.quotient_poly.values();
    assert(qv =~= seq![0int]) by {
        lemma_small_mod(0, p as nat);
    }
    assert(is_zero_poly(qv));
    assert forall|i: int| 0 <= i < points.len() implies constraint_holds_at(
        #[trigger] points[i],
        after.trace_size,
        field,
        cv,
    ) && quotient_holds_at(points[i], after.trace_size, field, cv, qv) by {
        let x = residue(points[i] as int, field);
        lemma_eval_of_zero_poly(cv, x.value as int);
        lemma_eval_of_zero_poly(qv, x.value as int);
        lemma_small_mod(0, p as nat);
        let zh = residue(
            vanishing_value(values_of(linear_points(field, rows.len())), x.value as int),
            field,
        );
        assert(0 * zh.value == 0);
    }
}

/// The low-degree extension keeps the trace: over a prime field with at least
/// as many elements as the column has steps, the extended column starts with
/// the values of the column itself.
pub proof fn lemma_extension_keeps_column(
    column: Seq<i128>,
    field: FiniteField,
    size: nat,
    s: int,
)
    requires
        field.wf(),
        is_prime(field.prime as int),
        column.len() <= field.prime,
        column.len() <= size,
        0 <= s < column.len(),
    ensures
        extended_column(column, field, size)[s] == residue(column[s] as int, field),
{
    let p = field.prime as int;
    let points = indexed_points(column);
    assert forall|i: int, j: int|
        0 <= i < points.len() && 0 <= j < points.len() && i != j implies ((
    #[trigger] points[i]).0 - (#[trigger] points[j]).0) % p != 0 by {
        let d = i - j;
        if d > 0 {
            lemma_small_mod(d as nat, p as nat);
        } else {
            lemma_mod_multiples_vanish(1, d, p);
            lemma_small_mod((d + p) as nat, p as nat);
        }
    }
    lemma_interpolation_passes(points, s, p);
    lemma_small_mod(s as nat, p as nat);
}

/// Soundness at the violated step: over a prime field with at least as many
/// elements as the trace has rows, a proof with the prover's composition
/// polynomial is rejected when a step whose residual is not zero is among
/// the sampled positions.
pub proof fn lemma_sampled_violation_rejected(proof: &StarkProof, rows: Seq<Seq<i128>>, s: int)
    requires
        proof.field.wf(),
        is_prime(proof.field.prime as int),
        rows.len() <= proof.field.prime,
        proof.composition_poly.coefficients@ == elements_of(
            interpolant(
                constraint_points(rows, proof.field.prime as int),
                proof.field.prime as int,
            ),
            proof.field,
        ),
        0 <= s < rows.len(),
        residual_at(rows, s, proof.field.prime as int) != 0,
        exists|i: int|
            0 <= i < proof.sampling_data.sample_points@.len()
                && #[trigger] proof.sampling_data.sample_points@[i] == s,
    ensures
        !accepts(proof),
{
    let field = proof.field;
    let p = field.prime as int;
    let points = constraint_points(rows, p);
    let i = choose|i: int|
        0 <= i < proof.sampling_data.sample_points@.len()
            && #[trigger] proof.sampling_data.sample_points@[i] == s;
    lemma_composition_interpolates(rows, field);
    lemma_values_of_elements(interpolant(points, p), field);
    lemma_lagrange_sum_reduced(points, points.len(), field);
    lemma_small_mod(s as nat, p as nat);
    let point = proof.sampling_data.sample_points@[i];
    assert(!constraint_holds_at(
        point,
        proof.trace_size,
        field,
        proof.composition_poly.values(),
    ));
}

} // verus!
