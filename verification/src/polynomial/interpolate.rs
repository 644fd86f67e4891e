use crate::constants::DEFAULT_FIELD_SIZE;
use crate::finite_field::{
    default_field, exponent_of, inverse_exponent, residue, FiniteField, FiniteFieldElement,
};
use crate::polynomial::algebra::{
    coefficient, elements_of, is_zero_poly, lemma_elements_of_reduced, lemma_values_of_elements,
    poly_product, poly_scaled, poly_sum, reduced,
};
use crate::number_theory::{
    is_prime, lemma_default_prime, lemma_euclid, lemma_fermat_inverse,
};
use crate::polynomial::algebra::eval_at;
use crate::polynomial::laws::{
    lemma_eval_congruent_point, lemma_eval_reduced, lemma_eval_scaled, lemma_eval_sum,
    lemma_multiply_evaluates,
};
use crate::polynomial::polynomial::Polynomial;
use vstd::arithmetic::div_mod::{
    lemma_add_mod_noop, lemma_mod_twice, lemma_mul_mod_noop_general, lemma_small_mod,
    lemma_sub_mod_noop, lemma_sub_mod_noop_right,
};
use vstd::arithmetic::power::{lemma_pow0, lemma_pow1, pow};
use vstd::prelude::*;

verus! {

/// The linear factor `x - a` with coefficients reduced modulo `p`.
pub open spec fn linear_factor(a: int, p: int) -> Seq<int> {
    seq![(-a) % p, 1int % p]
}

/// The coefficients of the product of `x - x_j` over all `j < n` other than
/// `i`, reduced modulo `p`: the numerator of the `i`-th Lagrange basis.
pub open spec fn basis_values(points: Seq<(i128, i128)>, i: int, n: nat, p: int) -> Seq<int>
    decreases n,
{
    if n == 0 {
        seq![1int % p]
    } else if n - 1 == i {
        basis_values(points, i, (n - 1) as nat, p)
    } else {
        reduced(
            poly_product(
                basis_values(points, i, (n - 1) as nat, p),
                linear_factor(points[n - 1].0 as int, p),
            ),
            p,
        )
    }
}

/// The product of `x_i - x_j` over all `j < n` other than `i`, modulo `p`: the
/// denominator of the `i`-th Lagrange basis.
pub open spec fn denominator(points: Seq<(i128, i128)>, i: int, n: nat, p: int) -> int
    decreases n,
{
    if n == 0 {
        1int % p
    } else if n - 1 == i {
        denominator(points, i, (n - 1) as nat, p)
    } else {
        (denominator(points, i, (n - 1) as nat, p) * ((points[i].0 - points[n - 1].0) % p)) % p
    }
}

/// The factor of the `i`-th basis: `y_i` divided by the denominator, the
/// division being the power `p - 2`.
pub open spec fn scale_of(points: Seq<(i128, i128)>, i: int, p: int) -> int {
    (((points[i].1 as int) % p) * (pow(
        denominator(points, i, points.len(), p),
        inverse_exponent(p),
    ) % p)) % p
}

/// The `i`-th term of the interpolation: the basis numerator times its factor.
pub open spec fn lagrange_term(points: Seq<(i128, i128)>, i: int, p: int) -> Seq<int> {
    reduced(poly_scaled(basis_values(points, i, points.len(), p), scale_of(points, i, p)), p)
}

/// The sum of the first `m` terms of the interpolation, modulo `p`.
pub open spec fn lagrange_sum(points: Seq<(i128, i128)>, m: nat, p: int) -> Seq<int>
    decreases m,
{
    if m == 0 {
        Seq::<int>::empty()
    } else {
        reduced(
            poly_sum(lagrange_sum(points, (m - 1) as nat, p), lagrange_term(points, m - 1, p)),
            p,
        )
    }
}

/// The coefficients of the interpolating polynomial of `points` modulo `p`.
pub open spec fn interpolant(points: Seq<(i128, i128)>, p: int) -> Seq<int> {
    lagrange_sum(points, points.len(), p)
}

/// The basis numerator over the first `n` points has one coefficient more than
/// it has factors.
pub proof fn lemma_basis_len(points: Seq<(i128, i128)>, i: int, n: nat, p: int)
    ensures
        basis_values(points, i, n, p).len() == (if 0 <= i < n {
            n
        } else {
            n + 1
        }),
    decreases n,
{
    if n > 0 {
        lemma_basis_len(points, i, (n - 1) as nat, p);
    }
}

/// A partial sum of the interpolation is as long as the number of points, once
/// it has a term.
pub proof fn lemma_lagrange_sum_len(points: Seq<(i128, i128)>, m: nat, p: int)
    requires
        m <= points.len(),
    ensures
        lagrange_sum(points, m, p).len() == (if m == 0 {
            0
        } else {
            points.len()
        }),
    decreases m,
{
    if m > 0 {
        lemma_lagrange_sum_len(points, (m - 1) as nat, p);
        lemma_basis_len(points, m - 1, points.len(), p);
    }
}

/// Interpolates `points` over the default field: the result has as many
/// coefficients as there are points, and it passes through every point when
/// no two of them share an abscissa in the field.
pub fn lagrange_interpolation(points: &[(i128, i128)]) -> (result: Polynomial)
    requires
        points@.len() + 2 <= usize::MAX,
    ensures
        result.coefficients@ == elements_of(
            interpolant(points@, DEFAULT_FIELD_SIZE as int),
            default_field(),
        ),
        result.coefficients@.len() == points@.len(),
        result.wf(),
        distinct_abscissas(points@, DEFAULT_FIELD_SIZE as int) ==> forall|i: int|
            0 <= i < points@.len() ==> residue(
                eval_at(
                    result.values(),
                    residue((#[trigger] points@[i]).0 as int, default_field()).value as int,
                ),
                default_field(),
            ) == residue(points@[i].1 as int, default_field()),
{
    proof {
        lemma_default_prime();
    }
    lagrange_interpolation_over(points, FiniteField { prime: DEFAULT_FIELD_SIZE })
}

/// Lagrange interpolation over `field`: the sum over all points of `y_i` times
/// the basis polynomial that is one at `x_i` and zero at every other `x_j`.
pub fn lagrange_interpolation_over(points: &[(i128, i128)], field: FiniteField) -> (result:
    Polynomial)
    requires
        field.wf(),
        points@.len() + 2 <= usize::MAX,
    ensures
        result.coefficients@ == elements_of(interpolant(points@, field.prime as int), field),
        result.coefficients@.len() == points@.len(),
        result.wf(),
        is_prime(field.prime as int) && distinct_abscissas(points@, field.prime as int)
            ==> forall|i: int|
            0 <= i < points@.len() ==> residue(
                eval_at(
                    result.values(),
                    residue((#[trigger] points@[i]).0 as int, field).value as int,
                ),
                field,
            ) == residue(points@[i].1 as int, field),
{
    let n: usize = points.len();
    let ghost p = field.prime as int;
    let ghost pts = points@;
    let one = FiniteFieldElement::new_fielded(1, field);
    let mut result = Polynomial { coefficients: Vec::new() };
    let mut i: usize = 0;
    proof {
        assert(result.coefficients@ =~= elements_of(lagrange_sum(pts, 0, p), field));
    }
    while i < n
        invariant
            field.wf(),
            p == field.prime,
            pts == points@,
            n == pts.len(),
            n + 2 <= usize::MAX,
            one == residue(1, field),
            one.wf(),
            i <= n,
            result.coefficients@ == elements_of(lagrange_sum(pts, i as nat, p), field),
        decreases n - i,
    {
        let xi = FiniteFieldElement::new_fielded(points[i].0, field);
        let yi = FiniteFieldElement::new_fielded(points[i].1, field);
        let mut start: Vec<FiniteFieldElement> = Vec::new();
        start.push(one);
        let mut basis = Polynomial { coefficients: start };
        let mut denom = one;
        let mut j: usize = 0;
        proof {
            lemma_mod_twice(1, p);
            assert(basis.coefficients@ =~= elements_of(basis_values(pts, i as int, 0, p), field));
        }
        while j < n
            invariant
                field.wf(),
                p == field.prime,
                pts == points@,
                n == pts.len(),
                n + 2 <= usize::MAX,
                one == residue(1, field),
                one.wf(),
                i < n,
                j <= n,
                xi == residue(pts[i as int].0 as int, field),
                xi.wf(),
                basis.coefficients@ == elements_of(
                    basis_values(pts, i as int, j as nat, p),
                    field,
                ),
                denom == residue(denominator(pts, i as int, j as nat, p), field),
                denom.wf(),
            decreases n - j,
        {
            if j != i {
                let xj = FiniteFieldElement::new_fielded(points[j].0, field);
                let ghost prev = basis_values(pts, i as int, j as nat, p);
                let ghost prev_denom = denominator(pts, i as int, j as nat, p);
                let mut pair: Vec<FiniteFieldElement> = Vec::new();
                pair.push(xj.negate());
                pair.push(one);
                let factor = Polynomial { coefficients: pair };
                proof {
                    let a = pts[j as int].0 as int;
                    lemma_basis_len(pts, i as int, j as nat, p);
                    lemma_values_of_elements(prev, field);
                    lemma_basis_reduced(pts, i as int, j as nat, field);
                    lemma_sub_mod_noop_right(p, a, p);
                    vstd::arithmetic::div_mod::lemma_mod_multiples_vanish(1, -a, p);
                    lemma_mod_twice(1, p);
                    assert(factor.values() =~= linear_factor(a, p));
                }
                basis = basis.multiply(&factor);
                let diff = xi.subtract(xj);
                proof {
                    let xiv = pts[i as int].0 as int;
                    let xjv = pts[j as int].0 as int;
                    lemma_sub_mod_noop(xiv, xjv, p);
                    lemma_elements_of_reduced(poly_product(prev, factor.values()), field);
                    assert(basis.coefficients@ =~= elements_of(
                        basis_values(pts, i as int, (j + 1) as nat, p),
                        field,
                    ));
                    lemma_mod_twice(prev_denom * ((xiv - xjv) % p), p);
                    lemma_mod_twice(prev_denom, p);
                    lemma_mul_mod_noop_general(prev_denom, (xiv - xjv) % p, p);
                }
                denom = denom.multiply(diff);
            }
            j = j + 1;
        }
        let inv = denom.pow(field.prime - 2);
        let scale = yi.multiply(inv);
        let scaled = basis.multiply_scalar(scale.value);
        proof {
            let full = basis_values(pts, i as int, n as nat, p);
            let d = denominator(pts, i as int, n as nat, p);
            lemma_values_of_elements(full, field);
            lemma_basis_reduced(pts, i as int, n as nat, field);
            lemma_mod_twice(d, p);
            lemma_denominator_reduced(pts, i as int, n as nat, p);
            lemma_small_mod(d as nat, p as nat);
            assert(denom.value == d);
            assert(exponent_of((field.prime - 2) as i128) == inverse_exponent(p));
            assert(inv.value == pow(d, inverse_exponent(p)) % p);
            lemma_small_mod(scale.value as nat, p as nat);
            assert(scale.value == scale_of(pts, i as int, p));
            assert(scaled.coefficients@ =~= elements_of(
                poly_scaled(full, scale_of(pts, i as int, p)),
                field,
            ));
            lemma_values_of_elements(poly_scaled(full, scale_of(pts, i as int, p)), field);
            lemma_values_of_elements(lagrange_sum(pts, i as nat, p), field);
            lemma_lagrange_sum_reduced(pts, i as nat, field);
        }
        result = result.add(&scaled);
        proof {
            let total = poly_sum(
                lagrange_sum(pts, i as nat, p),
                lagrange_term(pts, i as int, p),
            );
            lemma_elements_of_reduced(total, field);
            assert(result.coefficients@ =~= elements_of(total, field));
        }
        i = i + 1;
    }
    proof {
        lemma_lagrange_sum_len(pts, n as nat, p);
        lemma_values_of_elements(interpolant(pts, p), field);
        lemma_lagrange_sum_reduced(pts, n as nat, field);
        if is_prime(p) && distinct_abscissas(pts, p) {
            assert forall|i: int| 0 <= i < pts.len() implies residue(
                eval_at(result.values(), residue((#[trigger] pts[i]).0 as int, field).value as int),
                field,
            ) == residue(pts[i].1 as int, field) by {
                lemma_interpolation_passes(pts, i, p);
                lemma_mod_twice(pts[i].0 as int, p);
                lemma_eval_congruent_point(
                    result.values(),
                    residue(pts[i].0 as int, field).value as int,
                    pts[i].0 as int,
                    p,
                );
            }
        }
    }
    result
}

/// A basis numerator is already reduced.
proof fn lemma_basis_reduced(points: Seq<(i128, i128)>, i: int, n: nat, field: FiniteField)
    requires
        field.wf(),
    ensures
        reduced(basis_values(points, i, n, field.prime as int), field.prime as int)
            == basis_values(points, i, n, field.prime as int),
    decreases n,
{
    let p = field.prime as int;
    if n == 0 {
        lemma_mod_twice(1, p);
        assert(reduced(seq![1int % p], p) =~= seq![1int % p]);
    } else if n - 1 == i {
        lemma_basis_reduced(points, i, (n - 1) as nat, field);
    } else {
        lemma_elements_of_reduced(
            poly_product(
                basis_values(points, i, (n - 1) as nat, p),
                linear_factor(points[n - 1].0 as int, p),
            ),
            field,
        );
    }
}

/// A denominator is a residue.
proof fn lemma_denominator_reduced(points: Seq<(i128, i128)>, i: int, n: nat, p: int)
    requires
        p > 0,
    ensures
        0 <= denominator(points, i, n, p) < p,
    decreases n,
{
    if n > 0 && n - 1 == i {
        lemma_denominator_reduced(points, i, (n - 1) as nat, p);
    }
}

/// A partial sum of the interpolation is already reduced.
pub proof fn lemma_lagrange_sum_reduced(points: Seq<(i128, i128)>, m: nat, field: FiniteField)
    requires
        field.wf(),
    ensures
        reduced(lagrange_sum(points, m, field.prime as int), field.prime as int) == lagrange_sum(
            points,
            m,
            field.prime as int,
        ),
{
    let p = field.prime as int;
    if m == 0 {
        assert(reduced(Seq::<int>::empty(), p) =~= Seq::<int>::empty());
    } else {
        lemma_elements_of_reduced(
            poly_sum(lagrange_sum(points, (m - 1) as nat, p), lagrange_term(points, m - 1, p)),
            field,
        );
    }
}

/// Points whose values are all zero in the field interpolate to the zero
/// polynomial.
pub proof fn lemma_interpolant_of_zeros(points: Seq<(i128, i128)>, m: nat, p: int)
    requires
        p > 0,
        m <= points.len(),
        forall|i: int| 0 <= i < points.len() ==> ((#[trigger] points[i]).1 as int) % p == 0,
    ensures
        is_zero_poly(lagrange_sum(points, m, p)),
    decreases m,
{
    if m > 0 {
        lemma_interpolant_of_zeros(points, (m - 1) as nat, p);
        let before = lagrange_sum(points, (m - 1) as nat, p);
        let term = lagrange_term(points, m - 1, p);
        let basis = basis_values(points, m - 1, points.len(), p);
        let scale = scale_of(points, m - 1, p);
        assert(((points[m - 1]).1 as int) % p == 0);
        lemma_small_mod(0, p as nat);
        let y = ((points[m - 1]).1 as int) % p;
        let inverse = pow(denominator(points, m - 1, points.len(), p), inverse_exponent(p)) % p;
        assert(y * inverse == 0) by (nonlinear_arith)
            requires
                y == 0,
        ;
        assert(scale == (y * inverse) % p);
        assert(scale == 0);
        assert forall|k: int| 0 <= k < term.len() implies term[k] == 0 by {
            assert(basis[k] * scale == 0) by (nonlinear_arith)
                requires
                    scale == 0,
            ;
        }
        let total = lagrange_sum(points, m, p);
        assert forall|k: int| 0 <= k < total.len() implies total[k] == 0 by {
            assert(total[k] == (coefficient(before, k) + coefficient(term, k)) % p);
        }
    }
}

/// No two points share an abscissa in the field.
pub open spec fn distinct_abscissas(points: Seq<(i128, i128)>, p: int) -> bool {
    forall|i: int, j: int|
        0 <= i < points.len() && 0 <= j < points.len() && i != j ==> ((#[trigger] points[i]).0 - (
        #[trigger] points[j]).0) % p != 0
}

/// The value at `x` of the product of `x - x_j` over all `j < n` other than
/// `i`, over the integers.
pub open spec fn basis_value(points: Seq<(i128, i128)>, i: int, n: nat, x: int) -> int
    decreases n,
{
    if n == 0 {
        1
    } else if n - 1 == i {
        basis_value(points, i, (n - 1) as nat, x)
    } else {
        basis_value(points, i, (n - 1) as nat, x) * (x - points[n - 1].0)
    }
}

/// The value of a linear factor `x - a` with reduced coefficients.
proof fn lemma_eval_linear_factor(a: int, x: int, p: int)
    requires
        p > 0,
    ensures
        eval_at(linear_factor(a, p), x) % p == (x - a) % p,
{
    let f = linear_factor(a, p);
    reveal_with_fuel(eval_at, 3);
    lemma_pow0(x);
    lemma_pow1(x);
    assert(f.drop_last() =~= seq![(-a) % p]);
    assert(f.drop_last().drop_last() =~= Seq::<int>::empty());
    assert(eval_at(f, x) == ((-a) % p) * 1 + (1int % p) * x);
    lemma_mul_mod_noop_general(1, x, p);
    lemma_add_mod_noop((-a) % p, (1int % p) * x, p);
    lemma_mod_twice(-a, p);
    lemma_add_mod_noop(-a, 1 * x, p);
    assert(-a + 1 * x == x - a);
}

/// A basis numerator has the value of the product of its factors.
proof fn lemma_basis_evaluates(points: Seq<(i128, i128)>, i: int, n: nat, x: int, p: int)
    requires
        p > 0,
    ensures
        eval_at(basis_values(points, i, n, p), x) % p == basis_value(points, i, n, x) % p,
    decreases n,
{
    if n == 0 {
        let one = seq![1int % p];
        reveal_with_fuel(eval_at, 2);
        lemma_pow0(x);
        assert(one.drop_last() =~= Seq::<int>::empty());
        assert(eval_at(one, x) == (1int % p) * 1);
        lemma_mod_twice(1, p);
    } else if n - 1 == i {
        lemma_basis_evaluates(points, i, (n - 1) as nat, x, p);
    } else {
        let prev = basis_values(points, i, (n - 1) as nat, p);
        let a = points[n - 1].0 as int;
        lemma_basis_evaluates(points, i, (n - 1) as nat, x, p);
        lemma_multiply_evaluates(prev, linear_factor(a, p), x, p);
        lemma_eval_linear_factor(a, x, p);
        lemma_mul_mod_noop_general(basis_value(points, i, (n - 1) as nat, x), x - a, p);
    }
}

/// A basis numerator vanishes at the abscissa of every other point.
proof fn lemma_basis_vanishes(points: Seq<(i128, i128)>, i: int, n: nat, j: int, p: int)
    requires
        p > 0,
        0 <= j < n,
        n <= points.len(),
        j != i,
    ensures
        basis_value(points, i, n, points[j].0 as int) % p == 0,
    decreases n,
{
    let x = points[j].0 as int;
    let before = basis_value(points, i, (n - 1) as nat, x);
    lemma_small_mod(0, p as nat);
    if n - 1 == j {
        lemma_mul_mod_noop_general(before, x - points[n - 1].0, p);
        assert(before * 0 == 0);
    } else if n - 1 == i {
        lemma_basis_vanishes(points, i, (n - 1) as nat, j, p);
    } else {
        lemma_basis_vanishes(points, i, (n - 1) as nat, j, p);
        lemma_mul_mod_noop_general(before, x - points[n - 1].0, p);
        assert(0 * ((x - points[n - 1].0) % p) == 0);
    }
}

/// At the abscissa of its own point a basis numerator is the denominator.
proof fn lemma_basis_at_own_point(points: Seq<(i128, i128)>, i: int, n: nat, p: int)
    requires
        p > 0,
        0 <= i < points.len(),
        n <= points.len(),
    ensures
        basis_value(points, i, n, points[i].0 as int) % p == denominator(points, i, n, p),
    decreases n,
{
    if n == 0 {
    } else if n - 1 == i {
        lemma_basis_at_own_point(points, i, (n - 1) as nat, p);
    } else {
        lemma_basis_at_own_point(points, i, (n - 1) as nat, p);
        lemma_mul_mod_noop_general(
            basis_value(points, i, (n - 1) as nat, points[i].0 as int),
            points[i].0 - points[n - 1].0,
            p,
        );
        lemma_denominator_reduced(points, i, (n - 1) as nat, p);
        lemma_small_mod(denominator(points, i, (n - 1) as nat, p) as nat, p as nat);
    }
}

/// Over a prime field the denominators of distinct points are not zero.
proof fn lemma_denominator_nonzero(points: Seq<(i128, i128)>, i: int, n: nat, p: int)
    requires
        is_prime(p),
        distinct_abscissas(points, p),
        0 <= i < points.len(),
        n <= points.len(),
    ensures
        denominator(points, i, n, p) != 0,
    decreases n,
{
    if n == 0 {
        lemma_small_mod(1, p as nat);
    } else if n - 1 == i {
        lemma_denominator_nonzero(points, i, (n - 1) as nat, p);
    } else {
        lemma_denominator_nonzero(points, i, (n - 1) as nat, p);
        let before = denominator(points, i, (n - 1) as nat, p);
        let factor = (points[i].0 - points[n - 1].0) % p;
        lemma_denominator_reduced(points, i, (n - 1) as nat, p);
        if (before * factor) % p == 0 {
            lemma_euclid(p, before, factor);
            lemma_small_mod(before as nat, p as nat);
            lemma_mod_twice(points[i].0 - points[n - 1].0, p);
        }
    }
}

/// The value of one term of the interpolation.
proof fn lemma_term_evaluates(points: Seq<(i128, i128)>, k: int, x: int, p: int)
    requires
        p > 0,
    ensures
        eval_at(lagrange_term(points, k, p), x) % p == (scale_of(points, k, p) * basis_value(
            points,
            k,
            points.len(),
            x,
        )) % p,
{
    let basis = basis_values(points, k, points.len(), p);
    let scale = scale_of(points, k, p);
    lemma_eval_reduced(poly_scaled(basis, scale), x, p);
    lemma_eval_scaled(basis, scale, x);
    lemma_basis_evaluates(points, k, points.len(), x, p);
    lemma_mul_mod_noop_general(scale, eval_at(basis, x), p);
    lemma_mul_mod_noop_general(scale, basis_value(points, k, points.len(), x), p);
}

/// At the abscissa of point `i`, the first `m` terms of the interpolation add
/// up to `y_i` once the term of point `i` is among them, and to zero before.
proof fn lemma_partial_sum_at_point(points: Seq<(i128, i128)>, m: nat, i: int, p: int)
    requires
        is_prime(p),
        distinct_abscissas(points, p),
        0 <= i < points.len(),
        m <= points.len(),
    ensures
        eval_at(lagrange_sum(points, m, p), points[i].0 as int) % p == (if i < m {
            (points[i].1 as int) % p
        } else {
            0
        }),
    decreases m,
{
    let x = points[i].0 as int;
    lemma_small_mod(0, p as nat);
    if m > 0 {
        let k = m - 1;
        let before = lagrange_sum(points, k as nat, p);
        let term = lagrange_term(points, k, p);
        lemma_partial_sum_at_point(points, k as nat, i, p);
        lemma_eval_reduced(poly_sum(before, term), x, p);
        lemma_eval_sum(before, term, x);
        lemma_add_mod_noop(eval_at(before, x), eval_at(term, x), p);
        lemma_term_evaluates(points, k, x, p);
        let scale = scale_of(points, k, p);
        let value = basis_value(points, k, points.len(), x);
        lemma_mul_mod_noop_general(scale, value, p);
        let eb = eval_at(before, x);
        let et = eval_at(term, x);
        let whole = eval_at(lagrange_sum(points, m, p), x);
        assert(whole % p == (eb + et) % p);
        assert(whole % p == ((eb % p) + (et % p)) % p);
        assert(et % p == (scale * (value % p)) % p);
        let y = (points[i].1 as int) % p;
        lemma_mod_twice(points[i].1 as int, p);
        lemma_small_mod(y as nat, p as nat);
        if k == i {
            let d = denominator(points, i, points.len(), p);
            let inverse = pow(d, inverse_exponent(p)) % p;
            lemma_basis_at_own_point(points, i, points.len(), p);
            lemma_denominator_nonzero(points, i, points.len(), p);
            lemma_denominator_reduced(points, i, points.len(), p);
            lemma_small_mod(d as nat, p as nat);
            lemma_fermat_inverse(p, d);
            assert((d * inverse) % p == 1);
            assert(scale == (y * inverse) % p);
            lemma_mul_mod_noop_general(y * inverse, d, p);
            assert((y * inverse) * d == y * (d * inverse)) by (nonlinear_arith);
            lemma_mul_mod_noop_general(y, d * inverse, p);
            assert(y * 1 == y);
            assert(value % p == d);
            assert((scale * d) % p == y);
            assert(et % p == y);
            assert(eb % p == 0);
            assert(whole % p == y);
        } else {
            lemma_basis_vanishes(points, k, points.len(), i, p);
            assert(value % p == 0);
            assert(scale * 0 == 0);
            assert(et % p == 0);
            lemma_mod_twice(eb, p);
            assert(whole % p == eb % p);
        }
    } else {
        assert(eval_at(lagrange_sum(points, 0, p), x) == 0);
    }
}

/// Over a prime field the interpolating polynomial of points with distinct
/// abscissas takes the value `y_i` at every `x_i`.
pub proof fn lemma_interpolation_passes(points: Seq<(i128, i128)>, i: int, p: int)
    requires
        is_prime(p),
        distinct_abscissas(points, p),
        0 <= i < points.len(),
    ensures
        eval_at(interpolant(points, p), points[i].0 as int) % p == (points[i].1 as int) % p,
        interpolant(points, p).len() == points.len(),
{
    lemma_partial_sum_at_point(points, points.len(), i, p);
    lemma_lagrange_sum_len(points, points.len(), p);
}

} // verus!
