use crate::finite_field::{residue, FiniteField, FiniteFieldElement};
use crate::polynomial::algebra::{
    elements_of, eval_at, lemma_elements_of_reduced, lemma_values_of_elements, poly_product,
    poly_sum, reduced,
};
use crate::polynomial::laws::{lemma_compose_evaluates, lemma_eval_reduced};
use crate::polynomial::polynomial::Polynomial;
use vstd::arithmetic::div_mod::{lemma_add_mod_noop, lemma_mul_mod_noop_general};
use vstd::arithmetic::power::pow;
use vstd::prelude::*;

verus! {

/// The values of `a(b(x))` built by Horner's rule over the coefficients of `a`,
/// highest first, with every coefficient reduced modulo `p`:
/// `a[0] + b * (a[1] + b * (a[2] + ...))`.
pub open spec fn composed(a: Seq<int>, b: Seq<int>, p: int) -> Seq<int>
    decreases a.len(),
{
    if a.len() == 0 {
        Seq::<int>::empty()
    } else {
        reduced(
            poly_sum(reduced(poly_product(b, composed(a.skip(1), b, p)), p), seq![a[0]]),
            p,
        )
    }
}

/// A composition of `n` coefficients with `b` is no longer than `n * (|b| + 1)`.
/// A composition is already reduced.
proof fn lemma_composed_reduced(a: Seq<int>, b: Seq<int>, field: FiniteField)
    requires
        field.wf(),
    ensures
        reduced(composed(a, b, field.prime as int), field.prime as int) == composed(
            a,
            b,
            field.prime as int,
        ),
{
    let p = field.prime as int;
    if a.len() > 0 {
        let total = poly_sum(reduced(poly_product(b, composed(a.skip(1), b, p)), p), seq![a[0]]);
        lemma_elements_of_reduced(total, field);
    } else {
        assert(reduced(Seq::<int>::empty(), p) =~= Seq::<int>::empty());
    }
}

proof fn lemma_composed_len(a: Seq<int>, b: Seq<int>, p: int)
    ensures
        composed(a, b, p).len() <= a.len() * (b.len() + 1),
    decreases a.len(),
{
    if a.len() > 0 {
        lemma_composed_len(a.skip(1), b, p);
        let inner = composed(a.skip(1), b, p).len();
        assert((a.len() - 1) * (b.len() + 1) + (b.len() + 1) == a.len() * (b.len() + 1))
            by (nonlinear_arith);
    } else {
        assert(0 * (b.len() + 1) == 0);
    }
}

impl Polynomial {
    /// The value of the polynomial at `x`, computed in the field of `x`: the sum
    /// of all `c[i] * x^i`.
    pub fn evaluate(&self, x: FiniteFieldElement) -> (result: FiniteFieldElement)
        requires
            x.wf(),
        ensures
            result == residue(eval_at(self.values(), x.value as int), x.field),
            result.wf(),
    {
        let ghost q = x.field.prime as int;
        let ghost c = self.values();
        let mut acc = FiniteFieldElement::new_fielded(0, x.field);
        let mut i: usize = 0;
        assert(c.take(0) =~= Seq::<int>::empty());
        while i < self.coefficients.len()
            invariant
                x.wf(),
                q == x.field.prime,
                c == self.values(),
                i <= self.coefficients@.len(),
                acc == residue(eval_at(c.take(i as int), x.value as int), x.field),
                acc.wf(),
            decreases self.coefficients@.len() - i,
        {
            let co = FiniteFieldElement::new_fielded(self.coefficients[i].value, x.field);
            let pw = x.pow(i as i128);
            let term = pw.multiply(co);
            proof {
                let before = eval_at(c.take(i as int), x.value as int);
                let xp = pow(x.value as int, i as nat);
                assert(c.take(i + 1).drop_last() =~= c.take(i as int));
                assert(c.take(i + 1).last() == c[i as int]);
                lemma_mul_mod_noop_general(xp, c[i as int], q);
                lemma_add_mod_noop(before, xp * c[i as int], q);
                assert(xp * c[i as int] == c[i as int] * xp) by (nonlinear_arith);
            }
            acc = acc.add(term);
            i = i + 1;
        }
        assert(c.take(c.len() as int) =~= c);
        acc
    }

    /// The composition `self(other(x))`, by Horner's rule.
    pub fn compose(&self, other: Polynomial) -> (result: Polynomial)
        requires
            self.wf(),
            other.wf(),
            self.compatible(&other),
            self.coefficients@.len() * (other.coefficients@.len() + 1) + other.coefficients@.len()
                <= usize::MAX,
        ensures
            result.coefficients@ == elements_of(
                composed(self.values(), other.values(), self.field().prime as int),
                self.field(),
            ),
            result.wf(),
            forall|x: int|
                #![trigger eval_at(result.values(), x)]
                eval_at(result.values(), x) % (self.field().prime as int) == eval_at(
                    self.values(),
                    eval_at(other.values(), x),
                ) % (self.field().prime as int),
    {
        let ghost a = self.values();
        let ghost b = other.values();
        let ghost field = self.field();
        let ghost p = field.prime as int;
        let mut res = Polynomial { coefficients: Vec::new() };
        let mut idx: usize = self.coefficients.len();
        assert(a.skip(idx as int) =~= Seq::<int>::empty());
        while idx > 0
            invariant
                self.wf(),
                other.wf(),
                self.compatible(&other),
                self.coefficients@.len() * (other.coefficients@.len() + 1)
                    + other.coefficients@.len() <= usize::MAX,
                a == self.values(),
                b == other.values(),
                field == self.field(),
                p == field.prime,
                idx <= self.coefficients@.len(),
                res.wf(),
                res.coefficients@ == elements_of(composed(a.skip(idx as int), b, p), field),
            decreases idx,
        {
            idx = idx - 1;
            let ghost inner = composed(a.skip(idx + 1), b, p);
            proof {
                lemma_composed_len(a.skip(idx + 1), b, p);
                assert((a.len() - idx - 1) * (b.len() + 1) <= a.len() * (b.len() + 1))
                    by (nonlinear_arith)
                    requires
                        0 <= idx < a.len(),
                ;
                lemma_values_of_elements(inner, field);
                lemma_composed_reduced(a.skip(idx + 1), b, field);
                assert(res.values() == inner);
            }
            let mut single: Vec<FiniteFieldElement> = Vec::new();
            single.push(self.coefficients[idx]);
            let constant = Polynomial { coefficients: single };
            let shifted = other.multiply(&res);
            proof {
                lemma_values_of_elements(poly_product(b, inner), field);
                assert(shifted.coefficients@ =~= elements_of(poly_product(b, inner), field));
                assert(shifted.values() == reduced(poly_product(b, inner), p));
                assert(constant.values() =~= seq![a[idx as int]]);
            }
            res = shifted.add(&constant);
            proof {
                assert(a.skip(idx as int).skip(1) =~= a.skip(idx + 1));
                assert(a.skip(idx as int)[0] == a[idx as int]);
                let total = poly_sum(reduced(poly_product(b, inner), p), seq![a[idx as int]]);
                lemma_elements_of_reduced(total, field);
                assert(res.coefficients@ =~= elements_of(total, field));
            }
        }
        assert(a.skip(0) =~= a);
        proof {
            lemma_values_of_elements(composed(a, b, p), field);
            assert forall|x: int| #![trigger eval_at(res.values(), x)]
                eval_at(res.values(), x) % p == eval_at(a, eval_at(b, x)) % p by {
                lemma_eval_reduced(composed(a, b, p), x, p);
                lemma_compose_evaluates(a, b, x, p);
            }
        }
        res
    }
}

} // verus!
