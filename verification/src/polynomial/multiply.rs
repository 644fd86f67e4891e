use crate::finite_field::{residue, FiniteFieldElement};
use crate::number_theory::is_prime;
use crate::polynomial::algebra::{
    coefficient, convolution_upto, degree_of, elements_of, eval_at, is_zero_poly,
    lemma_values_of_elements, poly_product, poly_scaled, product_len, reduced,
};
use crate::polynomial::laws::{lemma_multiply_degree, lemma_multiply_evaluates};
use crate::polynomial::polynomial::Polynomial;
use vstd::arithmetic::div_mod::{
    lemma_add_mod_noop, lemma_mul_mod_noop_general, lemma_mul_mod_noop_right, lemma_small_mod,
};
use vstd::prelude::*;

verus! {

impl Polynomial {
    /// Multiplies every coefficient by `scalar`, taken as an element of the
    /// polynomial's field.
    pub fn multiply_scalar(&self, scalar: i128) -> (result: Polynomial)
        requires
            self.wf(),
        ensures
            result.coefficients@ == elements_of(
                poly_scaled(self.values(), scalar as int),
                self.field(),
            ),
            result.wf(),
    {
        let field = self.coefficient_field();
        let factor = FiniteFieldElement::new_fielded(scalar, field);
        let ghost target = elements_of(poly_scaled(self.values(), scalar as int), field);
        let mut out: Vec<FiniteFieldElement> = Vec::new();
        let mut i: usize = 0;
        while i < self.coefficients.len()
            invariant
                self.wf(),
                field == self.field(),
                factor == residue(scalar as int, field),
                factor.wf(),
                target == elements_of(poly_scaled(self.values(), scalar as int), field),
                i <= self.coefficients@.len(),
                out@.len() == i,
                forall|k: int| 0 <= k < i ==> out@[k] == target[k],
            decreases self.coefficients@.len() - i,
        {
            proof {
                lemma_mul_mod_noop_right(
                    self.coefficients@[i as int].value as int,
                    scalar as int,
                    field.prime as int,
                );
            }
            out.push(self.coefficients[i].multiply(factor));
            i = i + 1;
        }
        assert(out@ =~= target);
        Polynomial { coefficients: out }
    }

    /// The product of two polynomials by the schoolbook method: the coefficient
    /// of `x^k` is the sum of all `a[i] * b[k - i]`.
    pub fn multiply(&self, other: &Polynomial) -> (result: Polynomial)
        requires
            self.wf(),
            other.wf(),
            self.compatible(other),
            self.coefficients@.len() + other.coefficients@.len() <= usize::MAX,
        ensures
            result.coefficients@ == elements_of(
                poly_product(self.values(), other.values()),
                self.joint_field(other),
            ),
            result.wf(),
            result.coefficients@.len() == product_len(
                self.coefficients@.len(),
                other.coefficients@.len(),
            ),
            forall|x: int|
                #![trigger eval_at(result.values(), x)]
                eval_at(result.values(), x) % (self.joint_field(other).prime as int) == (eval_at(
                    self.values(),
                    x,
                ) * eval_at(other.values(), x)) % (self.joint_field(other).prime as int),
            is_prime(self.joint_field(other).prime as int) && !is_zero_poly(self.values())
                && !is_zero_poly(other.values()) ==> degree_of(result.values()) == degree_of(
                self.values(),
            ) + degree_of(other.values()),
    {
        let la: usize = self.coefficients.len();
        let lb: usize = other.coefficients.len();
        let n: usize = if la + lb > 0 {
            la + lb - 1
        } else {
            0
        };
        let field = if la > 0 {
            self.coefficients[0].field
        } else {
            other.coefficient_field()
        };
        let ghost a = self.values();
        let ghost b = other.values();
        let ghost target = elements_of(poly_product(a, b), field);
        let mut out: Vec<FiniteFieldElement> = Vec::new();
        let mut k: usize = 0;
        while k < n
            invariant
                self.wf(),
                other.wf(),
                self.compatible(other),
                la == self.coefficients@.len(),
                lb == other.coefficients@.len(),
                a == self.values(),
                b == other.values(),
                n == product_len(la as nat, lb as nat),
                field == self.joint_field(other),
                field.wf(),
                target == elements_of(poly_product(a, b), field),
                k <= n,
                out@.len() == k,
                forall|j: int| 0 <= j < k ==> out@[j] == target[j],
            decreases n - k,
        {
            let mut acc = FiniteFieldElement::zero(field);
            let mut i: usize = 0;
            proof {
                lemma_small_mod(0, field.prime as nat);
            }
            while i < la
                invariant
                    self.wf(),
                    other.wf(),
                    self.compatible(other),
                    la == self.coefficients@.len(),
                    lb == other.coefficients@.len(),
                    a == self.values(),
                    b == other.values(),
                    field == self.joint_field(other),
                    field.wf(),
                    k < n,
                    i <= la,
                    acc == residue(convolution_upto(a, b, k as int, i as nat), field),
                    acc.wf(),
                decreases la - i,
            {
                let ghost before = convolution_upto(a, b, k as int, i as nat);
                if i <= k && k - i < lb {
                    let term = self.coefficients[i].multiply(other.coefficients[k - i]);
                    proof {
                        lemma_add_mod_noop(
                            before,
                            a[i as int] * b[k - i],
                            field.prime as int,
                        );
                    }
                    acc = acc.add(term);
                } else {
                    proof {
                        assert(a[i as int] * coefficient(b, k - i) == 0) by (nonlinear_arith)
                            requires
                                coefficient(b, k - i) == 0,
                        ;
                    }
                }
                i = i + 1;
            }
            out.push(acc);
            k = k + 1;
        }
        assert(out@ =~= target);
        let result = Polynomial { coefficients: out };
        proof {
            let p = field.prime as int;
            lemma_values_of_elements(poly_product(a, b), field);
            assert(result.values() == reduced(poly_product(a, b), p));
            assert forall|x: int| #![trigger eval_at(result.values(), x)]
                eval_at(result.values(), x) % p == (eval_at(a, x) * eval_at(b, x)) % p by {
                lemma_multiply_evaluates(a, b, x, p);
                lemma_mul_mod_noop_general(eval_at(a, x), eval_at(b, x), p);
            }
            if is_prime(p) && !is_zero_poly(a) && !is_zero_poly(b) {
                assert forall|i: int| 0 <= i < a.len() implies 0 <= #[trigger] a[i] < p by {
                    assert(self.coefficients@[i].wf());
                }
                assert forall|i: int| 0 <= i < b.len() implies 0 <= #[trigger] b[i] < p by {
                    assert(other.coefficients@[i].wf());
                }
                lemma_multiply_degree(a, b, p);
            }
        }
        result
    }
}

} // verus!
