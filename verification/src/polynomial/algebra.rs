use crate::finite_field::{residue, FiniteField, FiniteFieldElement};
use vstd::arithmetic::div_mod::{lemma_mod_twice, lemma_small_mod};
use vstd::arithmetic::power::pow;
use vstd::prelude::*;

verus! {

/// The coefficient of `x^i`; zero outside the stored range.
pub open spec fn coefficient(c: Seq<int>, i: int) -> int {
    if 0 <= i < c.len() {
        c[i]
    } else {
        0
    }
}

/// The value `c[0] + c[1] x + c[2] x^2 + ...` over the integers.
pub open spec fn eval_at(c: Seq<int>, x: int) -> int
    decreases c.len(),
{
    if c.len() == 0 {
        0
    } else {
        eval_at(c.drop_last(), x) + c.last() * pow(x, (c.len() - 1) as nat)
    }
}

/// The length that is left once trailing zero coefficients are dropped.
pub open spec fn trimmed_len(c: Seq<int>) -> nat
    decreases c.len(),
{
    if c.len() == 0 {
        0
    } else if c.last() != 0 {
        c.len()
    } else {
        trimmed_len(c.drop_last())
    }
}

/// The formal degree: the greatest index of a non-zero coefficient, and 0 for
/// the zero polynomial.
pub open spec fn degree_of(c: Seq<int>) -> nat {
    if trimmed_len(c) == 0 {
        0
    } else {
        (trimmed_len(c) - 1) as nat
    }
}

/// Every coefficient is zero.
pub open spec fn is_zero_poly(c: Seq<int>) -> bool {
    forall|i: int| 0 <= i < c.len() ==> c[i] == 0
}

/// The greater of two lengths.
pub open spec fn longer(a: nat, b: nat) -> nat {
    if a >= b {
        a
    } else {
        b
    }
}

/// The coefficientwise sum, as long as the longer of the two.
pub open spec fn poly_sum(a: Seq<int>, b: Seq<int>) -> Seq<int> {
    Seq::new(longer(a.len(), b.len()), |k: int| coefficient(a, k) + coefficient(b, k))
}

/// The coefficientwise difference, as long as the longer of the two.
pub open spec fn poly_difference(a: Seq<int>, b: Seq<int>) -> Seq<int> {
    Seq::new(longer(a.len(), b.len()), |k: int| coefficient(a, k) - coefficient(b, k))
}

/// Every coefficient multiplied by `s`.
pub open spec fn poly_scaled(a: Seq<int>, s: int) -> Seq<int> {
    Seq::new(a.len(), |k: int| a[k] * s)
}

/// The part of the coefficient of `x^k` in `a * b` that comes from the first
/// `n` coefficients of `a`: the sum of `a[i] * b[k - i]` for `i < n`.
pub open spec fn convolution_upto(a: Seq<int>, b: Seq<int>, k: int, n: nat) -> int
    decreases n,
{
    if n == 0 {
        0
    } else {
        convolution_upto(a, b, k, (n - 1) as nat) + coefficient(a, n - 1) * coefficient(
            b,
            k - (n - 1),
        )
    }
}

/// The coefficient of `x^k` in the product `a * b`.
pub open spec fn convolution(a: Seq<int>, b: Seq<int>, k: int) -> int {
    convolution_upto(a, b, k, a.len())
}

/// The length of a product: one less than the two lengths together.
pub open spec fn product_len(a: nat, b: nat) -> nat {
    if a + b > 0 {
        (a + b - 1) as nat
    } else {
        0
    }
}

/// The product of two polynomials over the integers.
pub open spec fn poly_product(a: Seq<int>, b: Seq<int>) -> Seq<int> {
    Seq::new(product_len(a.len(), b.len()), |k: int| convolution(a, b, k))
}

/// The coefficients reduced modulo `p`.
pub open spec fn reduced(c: Seq<int>, p: int) -> Seq<int> {
    Seq::new(c.len(), |k: int| c[k] % p)
}

/// The field elements that the integer coefficients stand for.
pub open spec fn elements_of(c: Seq<int>, field: FiniteField) -> Seq<FiniteFieldElement> {
    Seq::new(c.len(), |k: int| residue(c[k], field))
}

/// The values of a sequence of field elements.
pub open spec fn values_of(s: Seq<FiniteFieldElement>) -> Seq<int> {
    Seq::new(s.len(), |k: int| s[k].value as int)
}

/// A sequence of field elements without its trailing zeros.
pub open spec fn trimmed(s: Seq<FiniteFieldElement>) -> Seq<FiniteFieldElement> {
    s.take(trimmed_len(values_of(s)) as int)
}

/// The trimmed length never exceeds the length.
pub proof fn lemma_trimmed_len_bound(c: Seq<int>)
    ensures
        trimmed_len(c) <= c.len(),
        trimmed_len(c) > 0 ==> c[trimmed_len(c) - 1] != 0,
        forall|i: int| trimmed_len(c) <= i < c.len() ==> c[i] == 0,
    decreases c.len(),
{
    if c.len() > 0 && c.last() == 0 {
        let front = c.drop_last();
        lemma_trimmed_len_bound(front);
        assert forall|i: int| trimmed_len(c) <= i < c.len() implies c[i] == 0 by {
            if i < front.len() {
                assert(front[i] == c[i]);
            }
        }
        if trimmed_len(c) > 0 {
            assert(front[trimmed_len(c) - 1] == c[trimmed_len(c) - 1]);
        }
    }
}

/// The trimmed length is fixed by the last non-zero coefficient.
pub proof fn lemma_trimmed_len_is(c: Seq<int>, n: nat)
    requires
        n <= c.len(),
        n > 0 ==> c[n - 1] != 0,
        forall|i: int| n <= i < c.len() ==> c[i] == 0,
    ensures
        trimmed_len(c) == n,
    decreases c.len(),
{
    if c.len() > n {
        let front = c.drop_last();
        assert forall|i: int| n <= i < front.len() implies front[i] == 0 by {
            assert(front[i] == c[i]);
        }
        if n > 0 {
            assert(front[n - 1] == c[n - 1]);
        }
        lemma_trimmed_len_is(front, n);
    }
}

/// The values of the elements that `c` stands for are the residues of `c`.
pub proof fn lemma_values_of_elements(c: Seq<int>, field: FiniteField)
    requires
        field.wf(),
    ensures
        values_of(elements_of(c, field)) == reduced(c, field.prime as int),
        forall|i: int|
            0 <= i < c.len() ==> (#[trigger] elements_of(c, field)[i]).wf() && elements_of(
                c,
                field,
            )[i].field == field,
{
    assert(values_of(elements_of(c, field)) =~= reduced(c, field.prime as int));
}

/// Reducing the coefficients first does not change the elements they stand for.
pub proof fn lemma_elements_of_reduced(c: Seq<int>, field: FiniteField)
    requires
        field.wf(),
    ensures
        elements_of(reduced(c, field.prime as int), field) == elements_of(c, field),
        reduced(reduced(c, field.prime as int), field.prime as int) == reduced(
            c,
            field.prime as int,
        ),
{
    let p = field.prime as int;
    assert forall|i: int| 0 <= i < c.len() implies (#[trigger] c[i] % p) % p == c[i] % p by {
        lemma_mod_twice(c[i], p);
    }
    assert(elements_of(reduced(c, p), field) =~= elements_of(c, field));
    assert(reduced(reduced(c, p), p) =~= reduced(c, p));
}

/// Canonical elements of one field are the elements that their values stand for.
pub proof fn lemma_elements_of_values(s: Seq<FiniteFieldElement>, field: FiniteField)
    requires
        forall|i: int| 0 <= i < s.len() ==> (#[trigger] s[i]).wf() && s[i].field == field,
    ensures
        elements_of(values_of(s), field) == s,
        reduced(values_of(s), field.prime as int) == values_of(s),
{
    assert forall|i: int| 0 <= i < s.len() implies ((#[trigger] s[i]).value as int) % (
    field.prime as int) == s[i].value by {
        lemma_small_mod(s[i].value as nat, field.prime as nat);
    }
    assert(elements_of(values_of(s), field) =~= s);
    assert(reduced(values_of(s), field.prime as int) =~= values_of(s));
}

/// The first `n` coefficients of `a` contribute nothing to the coefficient of
/// `x^k` of a product when `b` has no coefficient that they could meet.
pub proof fn lemma_convolution_high(a: Seq<int>, b: Seq<int>, k: int, n: nat)
    requires
        n == 0 || k - (n - 1) >= b.len(),
    ensures
        convolution_upto(a, b, k, n) == 0,
    decreases n,
{
    if n > 0 {
        lemma_convolution_high(a, b, k, (n - 1) as nat);
        assert(coefficient(a, n - 1) * coefficient(b, k - (n - 1)) == 0) by (nonlinear_arith)
            requires
                coefficient(b, k - (n - 1)) == 0,
        ;
    }
}

/// The highest coefficient of a product of two non-empty polynomials is the
/// product of their highest coefficients.
pub proof fn lemma_product_top(a: Seq<int>, b: Seq<int>)
    requires
        a.len() > 0,
        b.len() > 0,
    ensures
        poly_product(a, b).len() == a.len() + b.len() - 1,
        poly_product(a, b).last() == a.last() * b.last(),
{
    let k = a.len() + b.len() - 2;
    lemma_convolution_high(a, b, k, (a.len() - 1) as nat);
}

/// The zero polynomial has the value zero everywhere.
pub proof fn lemma_eval_of_zero_poly(c: Seq<int>, x: int)
    requires
        is_zero_poly(c),
    ensures
        eval_at(c, x) == 0,
    decreases c.len(),
{
    if c.len() > 0 {
        let front = c.drop_last();
        assert forall|i: int| 0 <= i < front.len() implies front[i] == 0 by {
            assert(front[i] == c[i]);
        }
        lemma_eval_of_zero_poly(front, x);
        assert(c.last() * pow(x, (c.len() - 1) as nat) == 0) by (nonlinear_arith)
            requires
                c.last() == 0,
        ;
    }
}

/// The non-zero terms of a polynomial as pairs of coefficient and exponent,
/// the highest exponent first.
pub open spec fn terms_of(c: Seq<int>) -> Seq<(int, int)>
    decreases c.len(),
{
    if c.len() == 0 {
        Seq::<(int, int)>::empty()
    } else if c.last() != 0 {
        seq![(c.last(), c.len() - 1)] + terms_of(c.drop_last())
    } else {
        terms_of(c.drop_last())
    }
}

} // verus!
