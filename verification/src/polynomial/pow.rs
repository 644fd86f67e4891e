use crate::finite_field::{exponent_of, FiniteFieldElement};
use crate::polynomial::algebra::{
    elements_of, eval_at, lemma_elements_of_reduced, lemma_elements_of_values,
    lemma_values_of_elements, poly_product, reduced,
};
use crate::polynomial::laws::{lemma_eval_reduced, lemma_power_evaluates};
use crate::polynomial::polynomial::Polynomial;
use vstd::arithmetic::div_mod::{lemma_fundamental_div_mod, lemma_mod_twice};
use vstd::arithmetic::power::pow;
use vstd::prelude::*;

verus! {

/// Exponentiation by squaring with coefficients reduced modulo `p`: while the
/// exponent is not used up, an odd exponent multiplies the running square into
/// the result, the running square is squared and the exponent halved.
pub open spec fn power_by_squaring(res: Seq<int>, cur: Seq<int>, e: nat, p: int) -> Seq<int>
    decreases e,
{
    if e == 0 {
        res
    } else {
        power_by_squaring(
            if e % 2 == 1 {
                reduced(poly_product(res, cur), p)
            } else {
                res
            },
            reduced(poly_product(cur, cur), p),
            e / 2,
            p,
        )
    }
}

/// The coefficients of `a` raised to the power `e` modulo `p`.
pub open spec fn poly_power(a: Seq<int>, e: nat, p: int) -> Seq<int> {
    power_by_squaring(seq![1int % p], a, e, p)
}

impl Polynomial {
    /// A copy of the polynomial.
    pub fn duplicate(&self) -> (result: Polynomial)
        ensures
            result.coefficients@ == self.coefficients@,
    {
        let mut out: Vec<FiniteFieldElement> = Vec::new();
        let mut i: usize = 0;
        while i < self.coefficients.len()
            invariant
                i <= self.coefficients@.len(),
                out@ == self.coefficients@.take(i as int),
            decreases self.coefficients@.len() - i,
        {
            out.push(self.coefficients[i]);
            assert(self.coefficients@.take(i as int).push(self.coefficients@[i as int])
                =~= self.coefficients@.take(i + 1));
            i = i + 1;
        }
        assert(self.coefficients@.take(self.coefficients@.len() as int) =~= self.coefficients@);
        Polynomial { coefficients: out }
    }

    /// The polynomial raised to the power `other`, by squaring; an exponent
    /// that is not positive gives the constant one.
    pub fn pow(&self, other: i128) -> (result: Self)
        requires
            self.wf(),
            self.coefficients@.len() * exponent_of(other) < usize::MAX,
        ensures
            result.coefficients@ == elements_of(
                poly_power(self.values(), exponent_of(other), self.field().prime as int),
                self.field(),
            ),
            result.wf(),
            forall|x: int|
                #![trigger eval_at(result.values(), x)]
                eval_at(result.values(), x) % (self.field().prime as int) == pow(
                    eval_at(self.values(), x),
                    exponent_of(other),
                ) % (self.field().prime as int),
    {
        let field = self.coefficient_field();
        let ghost p = field.prime as int;
        let ghost e = exponent_of(other);
        let ghost la = self.coefficients@.len();
        let ghost target = poly_power(self.values(), e, p);
        let mut one: Vec<FiniteFieldElement> = Vec::new();
        one.push(FiniteFieldElement::new_fielded(1, field));
        let mut res = Polynomial { coefficients: one };
        let mut cur = self.duplicate();
        let mut exp: i128 = other;
        let ghost mut rv: Seq<int> = seq![1int % p];
        let ghost mut cv: Seq<int> = self.values();
        proof {
            lemma_elements_of_values(self.coefficients@, field);
            lemma_mod_twice(1, p);
            assert(res.coefficients@ =~= elements_of(rv, field));
            lemma_elements_of_reduced(seq![1int], field);
            assert(reduced(seq![1int], p) =~= rv);
        }
        while exp > 0
            invariant
                field.wf(),
                p == field.prime,
                la * e < usize::MAX,
                res.coefficients@ == elements_of(rv, field),
                cur.coefficients@ == elements_of(cv, field),
                reduced(rv, p) == rv,
                reduced(cv, p) == cv,
                power_by_squaring(rv, cv, exponent_of(exp), p) == target,
                exp > 0 ==> rv.len() + cv.len() * exp <= la * e + 1,
            decreases exp,
        {
            let ghost rl = rv.len();
            let ghost cl = cv.len();
            let ghost half = exp / 2;
            let ghost rv_next = if exp % 2 == 1 {
                reduced(poly_product(rv, cv), p)
            } else {
                rv
            };
            let ghost cv_next = reduced(poly_product(cv, cv), p);
            proof {
                assert(exponent_of(exp) / 2 == exponent_of((exp / 2) as i128));
                assert(target == power_by_squaring(rv_next, cv_next, exponent_of(exp) / 2, p));
                if exp == 1 {
                    assert(power_by_squaring(rv_next, cv_next, 0, p) == rv_next);
                    assert(power_by_squaring(rv_next, cv, 0, p) == rv_next);
                }
                lemma_values_of_elements(rv, field);
                lemma_values_of_elements(cv, field);
                lemma_fundamental_div_mod(exp as int, 2);
                assert(rl + cl <= rl + cl * exp) by (nonlinear_arith)
                    requires
                        exp >= 1,
                        cl >= 0,
                ;
            }
            if exp % 2 == 1 {
                res = res.multiply(&cur);
                proof {
                    lemma_elements_of_reduced(poly_product(rv, cv), field);
                    assert(res.coefficients@ =~= elements_of(
                        reduced(poly_product(rv, cv), p),
                        field,
                    ));
                    rv = reduced(poly_product(rv, cv), p);
                }
            }
            if exp > 1 {
                proof {
                    assert(cl + cl <= cl * exp) by (nonlinear_arith)
                        requires
                            exp >= 2,
                            cl >= 0,
                    ;
                }
                cur = cur.multiply(&cur);
                proof {
                    lemma_elements_of_reduced(poly_product(cv, cv), field);
                    assert(cur.coefficients@ =~= elements_of(
                        reduced(poly_product(cv, cv), p),
                        field,
                    ));
                    cv = reduced(poly_product(cv, cv), p);
                    assert(rv.len() + cv.len() * half <= rl + cl * exp) by (nonlinear_arith)
                        requires
                            rv.len() <= rl + cl,
                            cv.len() <= cl + cl,
                            exp == 2 * half + 1 || (exp == 2 * half && rv.len() == rl),
                            half >= 0,
                            cl >= 0,
                    ;
                }
            }
            exp = exp / 2;
        }
        proof {
            lemma_values_of_elements(rv, field);
            lemma_values_of_elements(target, field);
            assert forall|x: int| #![trigger eval_at(res.values(), x)]
                eval_at(res.values(), x) % p == pow(eval_at(self.values(), x), e) % p by {
                lemma_eval_reduced(target, x, p);
                lemma_power_evaluates(self.values(), e, x, p);
            }
        }
        res
    }
}

} // verus!
