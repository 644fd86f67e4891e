use crate::number_theory::{is_prime, lemma_euclid};
use crate::polynomial::algebra::{
    coefficient, convolution, convolution_upto, degree_of, eval_at, is_zero_poly,
    lemma_convolution_high, lemma_eval_of_zero_poly, lemma_trimmed_len_bound,
    lemma_trimmed_len_is, longer, poly_product, poly_scaled, poly_sum, reduced, trimmed_len,
};
use vstd::arithmetic::div_mod::{
    lemma_add_mod_noop, lemma_mul_mod_noop_general, lemma_small_mod,
};
use crate::polynomial::evaluate::composed;
use crate::polynomial::pow::{poly_power, power_by_squaring};
use vstd::arithmetic::power::{
    lemma_pow0, lemma_pow1, lemma_pow_adds, lemma_pow_mod_noop, lemma_pow_multiplies,
    lemma_square_is_pow2, pow,
};
use vstd::prelude::*;

verus! {

/// Polynomials with congruent coefficients have congruent values.
pub proof fn lemma_eval_congruent(c: Seq<int>, d: Seq<int>, x: int, p: int)
    requires
        p > 0,
        c.len() == d.len(),
        forall|i: int| 0 <= i < c.len() ==> c[i] % p == d[i] % p,
    ensures
        eval_at(c, x) % p == eval_at(d, x) % p,
    decreases c.len(),
{
    if c.len() > 0 {
        let cf = c.drop_last();
        let df = d.drop_last();
        assert forall|i: int| 0 <= i < cf.len() implies cf[i] % p == df[i] % p by {
            assert(cf[i] == c[i]);
            assert(df[i] == d[i]);
        }
        lemma_eval_congruent(cf, df, x, p);
        let xp = pow(x, (c.len() - 1) as nat);
        lemma_mul_mod_noop_general(c.last(), xp, p);
        lemma_mul_mod_noop_general(d.last(), xp, p);
        lemma_add_mod_noop(eval_at(cf, x), c.last() * xp, p);
        lemma_add_mod_noop(eval_at(df, x), d.last() * xp, p);
    }
}

/// Reducing the coefficients does not change the value modulo `p`.
pub proof fn lemma_eval_reduced(c: Seq<int>, x: int, p: int)
    requires
        p > 0,
    ensures
        eval_at(reduced(c, p), x) % p == eval_at(c, x) % p,
{
    assert forall|i: int| 0 <= i < c.len() implies reduced(c, p)[i] % p == c[i] % p by {
        vstd::arithmetic::div_mod::lemma_mod_twice(c[i], p);
    }
    lemma_eval_congruent(reduced(c, p), c, x, p);
}

/// Congruent points give congruent values.
pub proof fn lemma_eval_congruent_point(c: Seq<int>, x: int, y: int, p: int)
    requires
        p > 0,
        x % p == y % p,
    ensures
        eval_at(c, x) % p == eval_at(c, y) % p,
    decreases c.len(),
{
    if c.len() > 0 {
        let front = c.drop_last();
        lemma_eval_congruent_point(front, x, y, p);
        let e = (c.len() - 1) as nat;
        lemma_pow_mod_noop(x, e, p);
        lemma_pow_mod_noop(y, e, p);
        lemma_mul_mod_noop_general(c.last(), pow(x, e), p);
        lemma_mul_mod_noop_general(c.last(), pow(y, e), p);
        lemma_add_mod_noop(eval_at(front, x), c.last() * pow(x, e), p);
        lemma_add_mod_noop(eval_at(front, y), c.last() * pow(y, e), p);
    }
}

/// Zeros at the end of a polynomial do not change its value.
pub proof fn lemma_eval_padded(c: Seq<int>, d: Seq<int>, x: int)
    requires
        c.len() <= d.len(),
        forall|i: int| 0 <= i < d.len() ==> d[i] == coefficient(c, i),
    ensures
        eval_at(d, x) == eval_at(c, x),
    decreases d.len(),
{
    if d.len() > c.len() {
        let front = d.drop_last();
        assert forall|i: int| 0 <= i < front.len() implies front[i] == coefficient(c, i) by {
            assert(front[i] == d[i]);
        }
        lemma_eval_padded(c, front, x);
        assert(d.last() * pow(x, (d.len() - 1) as nat) == 0) by (nonlinear_arith)
            requires
                d.last() == 0,
        ;
    } else {
        assert(d =~= c);
    }
}

/// The value of a sum is the sum of the values.
pub proof fn lemma_eval_sum(a: Seq<int>, b: Seq<int>, x: int)
    ensures
        eval_at(poly_sum(a, b), x) == eval_at(a, x) + eval_at(b, x),
{
    let n = longer(a.len(), b.len());
    let pa = Seq::new(n, |i: int| coefficient(a, i));
    let pb = Seq::new(n, |i: int| coefficient(b, i));
    lemma_eval_padded(a, pa, x);
    lemma_eval_padded(b, pb, x);
    lemma_eval_sum_aligned(pa, pb, x);
    assert(poly_sum(pa, pb) =~= poly_sum(a, b));
}

/// The value of a sum of two polynomials of one length is the sum of the values.
proof fn lemma_eval_sum_aligned(a: Seq<int>, b: Seq<int>, x: int)
    requires
        a.len() == b.len(),
    ensures
        eval_at(poly_sum(a, b), x) == eval_at(a, x) + eval_at(b, x),
    decreases a.len(),
{
    let s = poly_sum(a, b);
    if a.len() > 0 {
        lemma_eval_sum_aligned(a.drop_last(), b.drop_last(), x);
        assert(s.drop_last() =~= poly_sum(a.drop_last(), b.drop_last()));
        let xp = pow(x, (a.len() - 1) as nat);
        assert(s.last() == a.last() + b.last());
        assert((a.last() + b.last()) * xp == a.last() * xp + b.last() * xp)
            by (nonlinear_arith);
    }
}

/// The value of a scaled polynomial is the scaled value.
pub proof fn lemma_eval_scaled(a: Seq<int>, s: int, x: int)
    ensures
        eval_at(poly_scaled(a, s), x) == s * eval_at(a, x),
    decreases a.len(),
{
    let scaled = poly_scaled(a, s);
    if a.len() > 0 {
        lemma_eval_scaled(a.drop_last(), s, x);
        assert(scaled.drop_last() =~= poly_scaled(a.drop_last(), s));
        let xp = pow(x, (a.len() - 1) as nat);
        let front = eval_at(a.drop_last(), x);
        assert(scaled.last() == a.last() * s);
        assert(s * front + (a.last() * s) * xp == s * (front + a.last() * xp))
            by (nonlinear_arith);
    } else {
        assert(s * 0 == 0);
    }
}

/// The coefficients of `t * x^j * b`, the polynomial `b` shifted by `j`
/// places and scaled by `t`.
pub open spec fn shifted(b: Seq<int>, j: nat, t: int) -> Seq<int> {
    Seq::new(j + b.len(), |k: int| t * coefficient(b, k - j))
}

/// The value of a shifted and scaled polynomial.
proof fn lemma_eval_shifted(b: Seq<int>, j: nat, t: int, x: int)
    ensures
        eval_at(shifted(b, j, t), x) == t * pow(x, j) * eval_at(b, x),
    decreases b.len(),
{
    let s = shifted(b, j, t);
    if b.len() == 0 {
        assert forall|k: int| 0 <= k < s.len() implies s[k] == 0 by {
            assert(t * 0 == 0);
        }
        lemma_eval_of_zero_poly(s, x);
        assert(t * pow(x, j) * 0 == 0);
    } else {
        let front = b.drop_last();
        lemma_eval_shifted(front, j, t, x);
        assert(s.drop_last() =~= shifted(front, j, t));
        let m = (b.len() - 1) as nat;
        assert(s.last() == t * b.last());
        lemma_pow_adds(x, j, m);
        let xj = pow(x, j);
        let xm = pow(x, m);
        let ef = eval_at(front, x);
        assert(t * xj * ef + (t * b.last()) * (xj * xm) == t * xj * (ef + b.last() * xm))
            by (nonlinear_arith);
    }
}

/// The first `n` coefficients of `a` alone decide their part of a product.
proof fn lemma_convolution_prefix(a: Seq<int>, b: Seq<int>, k: int, n: nat)
    requires
        n < a.len(),
    ensures
        convolution_upto(a, b, k, n) == convolution_upto(a.drop_last(), b, k, n),
    decreases n,
{
    if n > 0 {
        lemma_convolution_prefix(a, b, k, (n - 1) as nat);
    }
}

/// The value of a product is the product of the values.
pub proof fn lemma_eval_product(a: Seq<int>, b: Seq<int>, x: int)
    ensures
        eval_at(poly_product(a, b), x) == eval_at(a, x) * eval_at(b, x),
    decreases a.len(),
{
    let prod = poly_product(a, b);
    if a.len() == 0 {
        lemma_eval_of_zero_poly(prod, x);
        assert(0 * eval_at(b, x) == 0);
    } else {
        let front = a.drop_last();
        let n = (a.len() - 1) as nat;
        let t = a.last();
        lemma_eval_product(front, b, x);
        let below = poly_product(front, b);
        let shift = shifted(b, n, t);
        lemma_eval_shifted(b, n, t, x);
        lemma_eval_sum(below, shift, x);
        let total = poly_sum(below, shift);
        assert(forall|k: int| 0 <= k < prod.len() ==> prod[k] == coefficient(total, k)) by {
            assert forall|k: int| 0 <= k < prod.len() implies prod[k] == coefficient(total, k) by {
                lemma_convolution_prefix(a, b, k, n);
                if k >= below.len() {
                    lemma_convolution_high(front, b, k, n);
                }
            }
        }
        assert(forall|k: int| 0 <= k < total.len() ==> total[k] == coefficient(prod, k)) by {
            assert forall|k: int| 0 <= k < total.len() implies total[k] == coefficient(prod, k) by {
                lemma_convolution_prefix(a, b, k, n);
                if k >= below.len() {
                    lemma_convolution_high(front, b, k, n);
                }
                if k >= prod.len() {
                    assert(b.len() == 0);
                    assert(t * coefficient(b, k - n) == 0) by (nonlinear_arith)
                        requires
                            coefficient(b, k - n) == 0,
                    ;
                }
            }
        }
        if prod.len() <= total.len() {
            lemma_eval_padded(prod, total, x);
        } else {
            lemma_eval_padded(total, prod, x);
        }
        let ef = eval_at(front, x);
        let eb = eval_at(b, x);
        let xn = pow(x, n);
        assert(ef * eb + t * xn * eb == (ef + t * xn) * eb) by (nonlinear_arith);
    }
}

/// The value of a product of two polynomials over the field is the product
/// of their values: `(p * q)(x) = p(x) * q(x)`.
pub proof fn lemma_multiply_evaluates(a: Seq<int>, b: Seq<int>, x: int, p: int)
    requires
        p > 0,
    ensures
        eval_at(reduced(poly_product(a, b), p), x) % p == ((eval_at(a, x) % p) * (eval_at(b, x)
            % p)) % p,
{
    lemma_eval_reduced(poly_product(a, b), x, p);
    lemma_eval_product(a, b, x);
    lemma_mul_mod_noop_general(eval_at(a, x), eval_at(b, x), p);
}

/// Dropping the trailing zeros does not change the value anywhere.
pub proof fn lemma_trim_evaluates(c: Seq<int>, x: int)
    ensures
        eval_at(c.take(trimmed_len(c) as int), x) == eval_at(c, x),
{
    lemma_trimmed_len_bound(c);
    let t = c.take(trimmed_len(c) as int);
    lemma_eval_padded(t, c, x);
}

/// All but one term of a coefficient of a product vanish.
proof fn lemma_convolution_single(a: Seq<int>, b: Seq<int>, k: int, at: int, n: nat)
    requires
        forall|i: int|
            0 <= i < n && i != at ==> coefficient(a, i) == 0 || coefficient(b, k - i) == 0,
    ensures
        convolution_upto(a, b, k, n) == (if 0 <= at < n {
            coefficient(a, at) * coefficient(b, k - at)
        } else {
            0
        }),
    decreases n,
{
    if n > 0 {
        lemma_convolution_single(a, b, k, at, (n - 1) as nat);
        let i = n - 1;
        if i != at {
            assert(coefficient(a, i) * coefficient(b, k - i) == 0) by (nonlinear_arith)
                requires
                    coefficient(a, i) == 0 || coefficient(b, k - i) == 0,
            ;
        }
    }
}

/// Over a prime field the degree of a product of two non-zero polynomials is
/// the sum of their degrees: `deg(p * q) = deg(p) + deg(q)`.
pub proof fn lemma_multiply_degree(a: Seq<int>, b: Seq<int>, p: int)
    requires
        is_prime(p),
        forall|i: int| 0 <= i < a.len() ==> 0 <= #[trigger] a[i] < p,
        forall|i: int| 0 <= i < b.len() ==> 0 <= #[trigger] b[i] < p,
        !is_zero_poly(a),
        !is_zero_poly(b),
    ensures
        degree_of(reduced(poly_product(a, b), p)) == degree_of(a) + degree_of(b),
        !is_zero_poly(reduced(poly_product(a, b), p)),
{
    lemma_trimmed_len_bound(a);
    lemma_trimmed_len_bound(b);
    let da = degree_of(a) as int;
    let db = degree_of(b) as int;
    let prod = reduced(poly_product(a, b), p);
    let top = da + db;
    assert forall|k: int| top < k < prod.len() implies prod[k] == 0 by {
        lemma_convolution_single(a, b, k, -1, a.len());
        lemma_small_mod(0, p as nat);
    }
    lemma_convolution_single(a, b, top, da, a.len());
    assert(convolution(a, b, top) == a[da] * b[db]);
    lemma_small_mod(a[da] as nat, p as nat);
    lemma_small_mod(b[db] as nat, p as nat);
    if (a[da] * b[db]) % p == 0 {
        lemma_euclid(p, a[da], b[db]);
    }
    assert(prod[top] != 0);
    lemma_trimmed_len_is(prod, (top + 1) as nat);
}

/// A constant polynomial has its constant as the value everywhere.
pub proof fn lemma_eval_constant(c: Seq<int>, x: int)
    requires
        c.len() == 1,
    ensures
        eval_at(c, x) == c[0],
{
    reveal_with_fuel(eval_at, 2);
    assert(c.drop_last() =~= Seq::<int>::empty());
    lemma_pow0(x);
    assert(c[0] * 1 == c[0]);
}

/// The value of a polynomial by Horner's rule: the constant term plus `x`
/// times the value of the rest.
pub proof fn lemma_eval_front(c: Seq<int>, x: int)
    requires
        c.len() > 0,
    ensures
        eval_at(c, x) == c[0] + x * eval_at(c.skip(1), x),
    decreases c.len(),
{
    let rest = c.skip(1);
    if c.len() == 1 {
        assert(rest =~= Seq::<int>::empty());
        lemma_eval_constant(c, x);
        assert(x * 0 == 0);
    } else {
        let front = c.drop_last();
        lemma_eval_front(front, x);
        assert(front.skip(1) =~= rest.drop_last());
        assert(rest.last() == c.last());
        assert(front[0] == c[0]);
        let n = (c.len() - 1) as nat;
        let m = (n - 1) as nat;
        lemma_pow_adds(x, 1, m);
        lemma_pow1(x);
        let inner = eval_at(rest.drop_last(), x);
        let top = c.last();
        let xm = pow(x, m);
        assert(c[0] + x * inner + top * (x * xm) == c[0] + x * (inner + top * xm))
            by (nonlinear_arith);
    }
}

/// The value of a power by squaring is the value of the result so far times
/// the power of the value of the running square.
proof fn lemma_squaring_evaluates(res: Seq<int>, cur: Seq<int>, e: nat, x: int, p: int)
    requires
        p > 0,
    ensures
        eval_at(power_by_squaring(res, cur, e, p), x) % p == (eval_at(res, x) * pow(
            eval_at(cur, x),
            e,
        )) % p,
    decreases e,
{
    let r = eval_at(res, x);
    let c = eval_at(cur, x);
    if e == 0 {
        lemma_pow0(c);
        assert(r * 1 == r);
    } else {
        let half = e / 2;
        let next_res = if e % 2 == 1 {
            reduced(poly_product(res, cur), p)
        } else {
            res
        };
        let next_cur = reduced(poly_product(cur, cur), p);
        lemma_squaring_evaluates(next_res, next_cur, half, x, p);
        let nr = eval_at(next_res, x);
        let nc = eval_at(next_cur, x);
        lemma_multiply_evaluates(cur, cur, x, p);
        lemma_mul_mod_noop_general(c, c, p);
        assert(nc % p == (c * c) % p);
        lemma_pow_mod_noop(nc, half, p);
        lemma_pow_mod_noop(c * c, half, p);
        lemma_square_is_pow2(c);
        lemma_pow_multiplies(c, 2, half);
        assert(pow(nc, half) % p == pow(c, 2 * half) % p);
        lemma_mul_mod_noop_general(nr, pow(nc, half), p);
        lemma_mul_mod_noop_general(nr, pow(c, 2 * half), p);
        if e % 2 == 1 {
            lemma_multiply_evaluates(res, cur, x, p);
            lemma_mul_mod_noop_general(r, c, p);
            assert(nr % p == (r * c) % p);
            lemma_mul_mod_noop_general(r * c, pow(c, 2 * half), p);
            lemma_pow_adds(c, 1, 2 * half);
            lemma_pow1(c);
            assert(e == 1 + 2 * half);
            assert((r * c) * pow(c, 2 * half) == r * (c * pow(c, 2 * half)))
                by (nonlinear_arith);
        } else {
            assert(e == 2 * half);
        }
    }
}

/// The value of a power of a polynomial is the power of its value:
/// `(a^e)(x) = a(x)^e`.
pub proof fn lemma_power_evaluates(a: Seq<int>, e: nat, x: int, p: int)
    requires
        p > 0,
    ensures
        eval_at(poly_power(a, e, p), x) % p == pow(eval_at(a, x), e) % p,
{
    let one = seq![1int % p];
    lemma_squaring_evaluates(one, a, e, x, p);
    lemma_eval_constant(one, x);
    lemma_mul_mod_noop_general(1, pow(eval_at(a, x), e), p);
    assert(1 * pow(eval_at(a, x), e) == pow(eval_at(a, x), e));
}

/// The value of a composition is the value of the outer polynomial at the
/// value of the inner one: `(a o b)(x) = a(b(x))`.
pub proof fn lemma_compose_evaluates(a: Seq<int>, b: Seq<int>, x: int, p: int)
    requires
        p > 0,
    ensures
        eval_at(composed(a, b, p), x) % p == eval_at(a, eval_at(b, x)) % p,
    decreases a.len(),
{
    let y = eval_at(b, x);
    if a.len() == 0 {
    } else {
        let rest = a.skip(1);
        let inner = composed(rest, b, p);
        let product = reduced(poly_product(b, inner), p);
        let constant = seq![a[0]];
        lemma_compose_evaluates(rest, b, x, p);
        lemma_eval_reduced(poly_sum(product, constant), x, p);
        lemma_eval_sum(product, constant, x);
        lemma_multiply_evaluates(b, inner, x, p);
        lemma_eval_constant(constant, x);
        lemma_eval_front(a, y);
        let ei = eval_at(inner, x);
        let er = eval_at(rest, y);
        lemma_mul_mod_noop_general(y, ei, p);
        lemma_mul_mod_noop_general(y, er, p);
        assert(eval_at(product, x) % p == (y * er) % p);
        lemma_add_mod_noop(eval_at(product, x), a[0], p);
        lemma_add_mod_noop(y * er, a[0], p);
    }
}

} // verus!
